use namu::stdlib::{i, k, of_list, of_number, of_string_tree, peano, s, to_list, to_number, to_string_tree, tree_false, tree_not, tree_true, triage};
use namu::tree::{Tree, Trees};

#[test]
fn test_k_combinator() {
    let mut trees = Trees::new();
    let a = to_number(&mut trees, 42);
    let b = to_number(&mut trees, 99);
    let k_val = k(&mut trees);
    let ka = trees.apply(k_val, a);
    let res = trees.apply(ka, b);
    assert_eq!(of_number(&trees, res), Some(42));
}

#[test]
fn test_i_combinator() {
    let mut trees = Trees::new();
    let a = to_number(&mut trees, 7);
    let i_val = i(&mut trees);
    let res = trees.apply(i_val, a);
    assert_eq!(of_number(&trees, res), Some(7));
}

#[test]
fn test_skk_is_identity() {
    let mut trees = Trees::new();
    let x = to_number(&mut trees, 5);
    let s_val = s(&mut trees);
    let k_val = k(&mut trees);
    let sk = trees.apply(s_val, k_val);
    let skk = trees.apply(sk, k_val);
    let res = trees.apply(skk, x);
    assert_eq!(of_number(&trees, res), Some(5));
}

#[test]
fn test_not() {
    let mut trees = Trees::new();
    let not = tree_not(&mut trees);
    let f = tree_false(&mut trees);
    let t = tree_true(&mut trees);

    let nf = trees.apply(not, f);
    assert_eq!(nf, t);

    let nt = trees.apply(not, t);
    assert_eq!(nt, f);
}

#[test]
fn test_number_roundtrip() {
    let mut trees = Trees::new();
    for n in 0..100 {
        let encoded = to_number(&mut trees, n);
        assert_eq!(of_number(&trees, encoded), Some(n), "Failed for {}", n);
    }
}

#[test]
fn test_list_roundtrip() {
    let mut trees = Trees::new();
    let items = vec![
        to_number(&mut trees, 1),
        to_number(&mut trees, 2),
        to_number(&mut trees, 3),
    ];
    let encoded = to_list(&mut trees, &items);
    let decoded = of_list(&trees, encoded).unwrap();

    assert_eq!(decoded.len(), 3);
    assert_eq!(of_number(&trees, decoded[0]), Some(1));
    assert_eq!(of_number(&trees, decoded[1]), Some(2));
    assert_eq!(of_number(&trees, decoded[2]), Some(3));
}

#[test]
fn test_string_roundtrip() {
    let mut trees = Trees::new();
    let s = "hello world!";
    let encoded = to_string_tree(&mut trees, s);
    assert_eq!(of_string_tree(&trees, encoded), Some(s.to_string()));
}

#[test]
fn test_triage_leaf() {
    let mut trees = Trees::new();
    let i_val = i(&mut trees);
    let n1 = to_number(&mut trees, 1);
    let t = triage(&mut trees, n1, i_val, i_val);
    let l = trees.leaf();
    let res = trees.apply(t, l);
    assert_eq!(of_number(&trees, res), Some(1));
}

#[test]
fn test_triage_stem() {
    let mut trees = Trees::new();
    let i_val = i(&mut trees);
    let n0 = to_number(&mut trees, 0);
    let t = triage(&mut trees, n0, i_val, i_val);
    let inner = to_number(&mut trees, 42);
    let stem = trees.stem(inner);
    let res = trees.apply(t, stem);
    assert_eq!(of_number(&trees, res), Some(42));
}

#[test]
fn triage_fork_applies_fork_case_to_both_children() {
    let mut trees = Trees::new();
    let l = trees.leaf();
    let k_val = k(&mut trees);
    // Fork case K: (K u) v = u.
    let t = triage(&mut trees, l, l, k_val);
    let u = to_number(&mut trees, 6);
    let v = to_number(&mut trees, 9);
    let arg = trees.fork(u, v);
    let res = trees.apply(t, arg);
    assert_eq!(of_number(&trees, res), Some(6));
}

#[test]
fn number_encoding_shapes() {
    let mut trees = Trees::new();
    let zero = to_number(&mut trees, 0);
    assert_eq!(trees.index(zero), Tree::Leaf);
    let six = to_number(&mut trees, 6);
    assert_eq!(trees.display(six), "(t t (t (t t) (t (t t) t)))");
    let big = to_number(&mut trees, usize::MAX);
    assert_eq!(of_number(&trees, big), Some(usize::MAX));
}

#[test]
fn of_number_rejects_non_numbers() {
    let mut trees = Trees::new();
    let l = trees.leaf();
    let st = trees.stem(l);
    assert_eq!(of_number(&trees, st), None);
    let k_val = k(&mut trees);
    let kk = trees.stem(k_val);
    let bad_bit = trees.fork(kk, l);
    assert_eq!(of_number(&trees, bad_bit), None);
}

#[test]
fn of_number_wraps_past_usize_max() {
    let mut trees = Trees::new();
    let max = to_number(&mut trees, usize::MAX);
    let l = trees.leaf();
    let k_val = k(&mut trees);
    // 1 + 2 * usize::MAX wraps around to usize::MAX.
    let next = trees.fork(k_val, max);
    assert_eq!(of_number(&trees, next), Some(usize::MAX));
    // 2 * (1 + 2 * usize::MAX) wraps around to usize::MAX - 1.
    let doubled = trees.fork(l, next);
    assert_eq!(of_number(&trees, doubled), Some(usize::MAX - 1));
}

#[test]
fn of_list_rejects_stems() {
    let mut trees = Trees::new();
    let l = trees.leaf();
    let st = trees.stem(l);
    let bad = trees.fork(l, st);
    assert_eq!(of_list(&trees, bad), None);
    assert_eq!(of_list(&trees, l), Some(vec![]));
}

#[test]
fn string_roundtrip_non_ascii() {
    let mut trees = Trees::new();
    let s = "héllo, 世界 🌳";
    let encoded = to_string_tree(&mut trees, s);
    assert_eq!(of_string_tree(&trees, encoded), Some(s.to_string()));
}

#[test]
fn of_string_tree_rejects_surrogates() {
    let mut trees = Trees::new();
    let sur = to_number(&mut trees, 0xD800);
    let list = to_list(&mut trees, &[sur]);
    assert_eq!(of_string_tree(&trees, list), None);
}

#[test]
fn peano_builds_stems() {
    let mut trees = Trees::new();
    let p = peano(&mut trees, 3);
    assert_eq!(trees.display(p), "(t (t (t t)))");
    assert_eq!(trees.depth(p), 3);
}
