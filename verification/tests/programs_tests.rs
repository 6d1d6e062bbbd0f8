use namu::programs::{bf, equal, mirror};
use namu::stdlib::{i, k, to_number};
use namu::tree::{TreeIndex, Trees};

#[test]
fn test_equal_node_count() {
    let mut trees = Trees::new();
    let eq = equal(&mut trees);
    assert_eq!(trees.size(eq), 780, "must match Rocq's term_size_equal");
}

#[test]
fn test_bf_node_count() {
    let mut trees = Trees::new();
    let b = bf(&mut trees);
    assert_eq!(trees.size(b), 877, "must match Rocq's term_size_bf");
}

#[test]
fn test_equal_leaf_leaf() {
    let mut trees = Trees::new();
    let eq = equal(&mut trees);
    let l = trees.leaf();
    let k_val = k(&mut trees);
    let r1 = trees.apply(eq, l);
    let result = trees.apply(r1, l);
    assert_eq!(result, k_val, "equal(△,△) should be K");
}

#[test]
fn test_equal_k_k() {
    let mut trees = Trees::new();
    let eq = equal(&mut trees);
    let k_val = k(&mut trees);
    let r1 = trees.apply(eq, k_val);
    let result = trees.apply(r1, k_val);
    assert_eq!(result, k_val, "equal(K,K) should be K");
}

#[test]
fn test_equal_leaf_k_is_not_true() {
    let mut trees = Trees::new();
    let eq = equal(&mut trees);
    let l = trees.leaf();
    let k_val = k(&mut trees);
    let r1 = trees.apply(eq, l);
    let result = trees.apply(r1, k_val);
    assert_ne!(result, k_val, "equal(△,K) should not be K");
}

#[test]
fn test_equal_reflexive() {
    let mut trees = Trees::new();
    let eq = equal(&mut trees);
    let r1 = trees.apply(eq, eq);
    let result = trees.apply(r1, eq);
    let k_val = k(&mut trees);
    assert_eq!(result, k_val, "equal should be equal to itself");
}

#[test]
fn test_bf_leaf() {
    let mut trees = Trees::new();
    let b = bf(&mut trees);
    let l = trees.leaf();
    let p = k(&mut trees);
    let r1 = trees.apply(b, l);
    let result = trees.apply(r1, p);
    let expected = trees.stem(p);
    assert_eq!(result, expected, "bf(△,p) should be Stem(p)");
}

#[test]
fn test_bf_k_rule() {
    let mut trees = Trees::new();
    let b = bf(&mut trees);
    let l = trees.leaf();
    let y = to_number(&mut trees, 42);
    let k_with_y = trees.fork(l, y);
    let r1 = trees.apply(b, k_with_y);
    let result = trees.apply(r1, l);
    assert_eq!(result, y, "bf(△△y, z) should be y (K-rule)");
}

#[test]
fn test_bf_identity() {
    let mut trees = Trees::new();
    let b = bf(&mut trees);
    let i_val = i(&mut trees);
    let x = to_number(&mut trees, 7);
    let r1 = trees.apply(b, i_val);
    let result = trees.apply(r1, x);
    assert_eq!(result, x, "bf(I, x) should be x");
}

fn ki(trees: &mut Trees) -> TreeIndex {
    let l = trees.leaf();
    let i_val = i(trees);
    trees.fork(l, i_val)
}

#[test]
fn test_mirror_node_count() {
    let mut trees = Trees::new();
    let m = mirror(&mut trees);
    assert_eq!(trees.size(m), 1066, "must match Rocq's term_size mirror");
}

#[test]
fn test_mirror_self() {
    let mut trees = Trees::new();
    let m = mirror(&mut trees);
    let k_val = k(&mut trees);
    let result = trees.apply(m, m);
    assert_eq!(result, k_val, "mirror must recognize itself");
}

#[test]
fn test_mirror_leaf() {
    let mut trees = Trees::new();
    let m = mirror(&mut trees);
    let l = trees.leaf();
    let ki_val = ki(&mut trees);
    let result = trees.apply(m, l);
    assert_eq!(result, ki_val, "mirror must reject leaf");
}

#[test]
fn test_mirror_k() {
    let mut trees = Trees::new();
    let m = mirror(&mut trees);
    let k_val = k(&mut trees);
    let ki_val = ki(&mut trees);
    let result = trees.apply(m, k_val);
    assert_eq!(result, ki_val, "mirror must reject K");
}

#[test]
fn test_mirror_equal() {
    let mut trees = Trees::new();
    let m = mirror(&mut trees);
    let eq = equal(&mut trees);
    let ki_val = ki(&mut trees);
    let result = trees.apply(m, eq);
    assert_eq!(result, ki_val, "mirror must reject equal");
}

#[test]
fn test_mirror_bf() {
    let mut trees = Trees::new();
    let m = mirror(&mut trees);
    let b = bf(&mut trees);
    let ki_val = ki(&mut trees);
    let result = trees.apply(m, b);
    assert_eq!(result, ki_val, "mirror must reject bf");
}

#[test]
fn test_mirror_i() {
    let mut trees = Trees::new();
    let m = mirror(&mut trees);
    let i_val = i(&mut trees);
    let ki_val = ki(&mut trees);
    let result = trees.apply(m, i_val);
    assert_eq!(result, ki_val, "mirror must reject I");
}

#[test]
fn test_mirror_stem_leaf() {
    let mut trees = Trees::new();
    let m = mirror(&mut trees);
    let l = trees.leaf();
    let sl = trees.stem(l);
    let ki_val = ki(&mut trees);
    let result = trees.apply(m, sl);
    assert_eq!(result, ki_val, "mirror must reject Stem(Leaf)");
}

#[test]
fn test_mirror_fork_leaf_leaf() {
    let mut trees = Trees::new();
    let m = mirror(&mut trees);
    let l = trees.leaf();
    let fll = trees.fork(l, l);
    let ki_val = ki(&mut trees);
    let result = trees.apply(m, fll);
    assert_eq!(result, ki_val, "mirror must reject Fork(Leaf,Leaf)");
}

#[test]
fn equal_distinguishes_numbers() {
    let mut trees = Trees::new();
    let eq = equal(&mut trees);
    let a = to_number(&mut trees, 12);
    let b = to_number(&mut trees, 13);
    let k_val = k(&mut trees);
    let r1 = trees.apply(eq, a);
    let same = trees.apply(r1, a);
    let differ = trees.apply(r1, b);
    assert_eq!(same, k_val);
    assert_ne!(differ, k_val);
}
