use namu::parser::parse_ternary;
use namu::stdlib::{i, k, of_number, to_number};
use namu::tree::{Tree, TreeEntry, TreeIndex, Trees};

#[test]
fn new_arena_holds_leaf_k_and_fork_leaf_leaf() {
    let mut trees = Trees::new();
    assert_eq!(trees.arena_size(), 4);
    let l = trees.leaf();
    assert_eq!(l.raw(), 1);
    assert_eq!(trees.index(l), Tree::Leaf);
    let k_val = trees.stem(l);
    assert_eq!(k_val.raw(), 2);
    let ll = trees.fork(l, l);
    assert_eq!(ll.raw(), 3);
    assert_eq!(trees.arena_size(), 4);
}

#[test]
fn constructors_read_back() {
    let mut trees = Trees::new();
    let l = trees.leaf();
    let a = trees.stem(l);
    let b = trees.fork(a, l);
    assert_eq!(trees.index(a), Tree::Stem(l));
    assert_eq!(trees.index(b), Tree::Fork(a, l));
}

#[test]
fn hash_consing_finds_nodes_again() {
    let mut trees = Trees::new();
    let l = trees.leaf();
    let a = trees.stem(l);
    let b = trees.stem(a);
    let size = trees.arena_size();
    let b2 = trees.stem(a);
    assert_eq!(b, b2);
    assert_eq!(trees.arena_size(), size);
    let c = trees.fork(b, a);
    let c2 = trees.fork(b, a);
    assert_eq!(c, c2);
    assert_ne!(c, trees.fork(a, b));
}

#[test]
fn tree_index_raw_and_entries() {
    let idx = TreeIndex::new(7);
    assert_eq!(idx.raw(), 7);
    let e = TreeEntry::fork(idx, TreeIndex::new(3));
    assert_eq!(e.left, Some(idx));
    assert_eq!(e.right.map(|r| r.raw()), Some(3));
    assert_eq!(TreeEntry::stem(idx).right, None);
    assert_eq!(TreeEntry::leaf().left, None);
}

#[test]
fn reduction_rules() {
    let mut trees = Trees::new();
    let l = trees.leaf();
    let x = to_number(&mut trees, 3);
    // Leaf x = Stem(x)
    let r = trees.apply(l, x);
    assert_eq!(trees.index(r), Tree::Stem(x));
    // Stem(a) x = Fork(a, x)
    let a = trees.stem(l);
    let r = trees.apply(a, x);
    assert_eq!(trees.index(r), Tree::Fork(l, x));
    // Fork(Fork(w, y), z) Leaf = w
    let w = to_number(&mut trees, 5);
    let inner = trees.fork(w, l);
    let t = trees.fork(inner, l);
    let r = trees.apply(t, l);
    assert_eq!(r, w);
}

#[test]
fn tree_index_is_never_zero() {
    let mut trees = Trees::new();
    let l = trees.leaf();
    let x = to_number(&mut trees, 12);
    let r = trees.apply(l, x);
    assert!(l.raw() != 0 && x.raw() != 0 && r.raw() != 0);
}

#[test]
fn apply_result_is_interned_all_the_way_down() {
    // Fork(Stem(Leaf), Leaf) Leaf = (Leaf Leaf) (Leaf Leaf) = Fork(Leaf, Stem(Leaf)).
    let mut trees = Trees::new();
    let f = parse_ternary(&mut trees, "2100").unwrap();
    let l = trees.leaf();
    let r = trees.apply(f, l);
    let expected = parse_ternary(&mut trees, "2010").unwrap();
    assert_eq!(trees.display(r), "(t t (t t))");
    // The right child built during the reduction is replaced by the registered `Stem(Leaf)`.
    assert_eq!(r, expected);
    assert_eq!(trees.index(r), Tree::Fork(l, trees.stem(l)));
}

#[test]
fn s_rule_result_equals_constructed_tree() {
    let mut trees = Trees::new();
    let l = trees.leaf();
    let kv = trees.stem(l);
    let f = trees.fork(kv, l);
    let r = trees.apply(f, l);
    let expected = trees.fork(l, kv);
    assert_eq!(r, expected);
}

#[test]
fn equal_results_of_different_reductions_share_an_index() {
    let mut trees = Trees::new();
    let i_val = i(&mut trees);
    let k_val = k(&mut trees);
    let x = to_number(&mut trees, 6);
    let y = to_number(&mut trees, 9);
    let via_i = trees.apply(i_val, x);
    let kx = trees.apply(k_val, x);
    let via_k = trees.apply(kx, y);
    assert_eq!(via_i, x);
    assert_eq!(via_k, x);
    assert_eq!(via_i, via_k);
}

#[test]
fn apply_bounded_err_is_the_function_about_to_be_applied() {
    let mut trees = Trees::new();
    let l = trees.leaf();
    let kv = trees.stem(l);
    let mut steps = 0usize;
    assert_eq!(trees.apply_bounded(kv, l, &mut steps, 1), Err(kv));
    assert_eq!(steps, 1);
}

#[test]
fn apply_bounded_result_is_interned() {
    let mut trees = Trees::new();
    let l = trees.leaf();
    let kv = trees.stem(l);
    let mut steps = 0usize;
    let r = trees.apply_bounded(kv, l, &mut steps, 2);
    assert_eq!(steps, 1);
    assert_eq!(r, Ok(trees.fork(l, l)));
    assert_eq!(r.map(|x| x.raw()), Ok(3));
}

#[test]
fn apply_bounded_accepts_the_largest_budget() {
    let mut trees = Trees::new();
    let l = trees.leaf();
    let kv = trees.stem(l);
    let mut steps = 0usize;
    let r = trees.apply_bounded(kv, l, &mut steps, usize::MAX);
    assert_eq!(r, Ok(trees.fork(l, l)));
    assert_eq!(steps, 1);
}

#[test]
fn apply_bounded_succeeds_within_budget() {
    let mut trees = Trees::new();
    let i_val = i(&mut trees);
    let x = to_number(&mut trees, 7);
    let mut steps = 0usize;
    let r = trees.apply_bounded(i_val, x, &mut steps, 1000);
    assert_eq!(r, Ok(x));
    assert!(steps > 0 && steps < 1000);
}

#[test]
fn apply_bounded_stops_at_budget() {
    // omega = S I I: omega omega never reaches a normal form.
    let mut trees = Trees::new();
    let i_val = i(&mut trees);
    let s_i = trees.stem(i_val);
    let omega = trees.fork(s_i, i_val);
    let mut steps = 0usize;
    let r = trees.apply_bounded(omega, omega, &mut steps, 1000);
    assert!(r.is_err());
    assert_eq!(steps, 1000);
    // After the bailout the arena still reduces correctly.
    let k_val = k(&mut trees);
    let a = to_number(&mut trees, 11);
    let ka = trees.apply(k_val, a);
    let res = trees.apply(ka, k_val);
    assert_eq!(of_number(&trees, res), Some(11));
}

#[test]
fn apply_bounded_with_spent_budget() {
    let mut trees = Trees::new();
    let l = trees.leaf();
    let mut steps = 50usize;
    assert_eq!(trees.apply_bounded(l, l, &mut steps, 10), Err(l));
    assert_eq!(steps, 51);
}

#[test]
fn size_and_depth() {
    let mut trees = Trees::new();
    let i_val = i(&mut trees);
    // I = Fork(Stem(Stem(Leaf)), Stem(Leaf))
    assert_eq!(trees.size(i_val), 6);
    assert_eq!(trees.depth(i_val), 3);
    let l = trees.leaf();
    assert_eq!(trees.size(l), 1);
    assert_eq!(trees.depth(l), 0);
}

#[test]
fn display_forms() {
    let mut trees = Trees::new();
    let i_val = i(&mut trees);
    assert_eq!(trees.display(i_val), "(t (t (t t)) (t t))");
    assert_eq!(trees.debug_display(i_val), "Fork(Stem(Stem(Leaf)), Stem(Leaf))");
}

fn bounded_on_fresh_arena(budget: usize) -> (Result<u32, u32>, usize, usize) {
    let mut trees = Trees::new();
    let i_val = i(&mut trees);
    let k_val = k(&mut trees);
    let x = to_number(&mut trees, 7);
    let kx = trees.fork(k_val, x);
    let mut steps = 0usize;
    let r = trees.apply_bounded(kx, i_val, &mut steps, budget);
    (r.map(|v| v.raw()).map_err(|v| v.raw()), steps, trees.arena_size())
}

#[test]
fn successful_bounded_run_does_not_depend_on_the_budget() {
    let small = bounded_on_fresh_arena(1000);
    let large = bounded_on_fresh_arena(usize::MAX);
    assert!(small.0.is_ok());
    assert_eq!(small, large);
    // Any budget above the count gives the same run.
    let tight = bounded_on_fresh_arena(small.1 + 1);
    assert_eq!(tight, small);
    // A budget at the count stops the run.
    let short = bounded_on_fresh_arena(small.1);
    assert!(short.0.is_err());
    assert_eq!(short.1, small.1);
}

#[test]
fn successful_bounded_run_is_an_apply() {
    let bounded = bounded_on_fresh_arena(1000);
    let mut trees = Trees::new();
    let i_val = i(&mut trees);
    let k_val = k(&mut trees);
    let x = to_number(&mut trees, 7);
    let kx = trees.fork(k_val, x);
    let r = trees.apply(kx, i_val);
    assert_eq!(bounded.0, Ok(r.raw()));
    assert_eq!(bounded.2, trees.arena_size());
}
