//! The arena of trees: every tree is an index into a flat vector of entries.
//!
//! Nodes built with `leaf`, `stem` and `fork` are hash consed: a node with the
//! same children is found again rather than stored twice. Reduction appends its
//! intermediate nodes without consing and remembers results of applications in a
//! cache that lives as long as the arena; the final result of each `apply` is
//! rebuilt from consed nodes, so that `==` on its index is equality of trees.
use vstd::prelude::*;
use crate::pairmap::{pair_map_contents, pair_map_get, pair_map_insert, pair_map_with_capacity, PairMap};
use crate::term::{eval, fork, halts_within, law_spent_is_fixed, spent, lemma_rule_spends, reduces, rule, stem, term_depth, term_size, show, show_debug, Term};
use crate::machine::{
    immediate, lemma_cache_hit, lemma_cache_push, lemma_immediate, lemma_pop_cache, lemma_pop_forkv,
    lemma_enter, lemma_pop_sapply, lemma_pop_sright, lemma_s_rule, lemma_start, lemma_transfer, lemma_triage_fork,
    lemma_triage_stem, machine_ok, run, Cont, Focus,
};

verus! {

/// Index into the arena. Index 0 is never used.
#[derive(Clone, Copy, PartialEq, Eq, Hash, Debug, Structural)]
pub struct TreeIndex {
    idx: u32,
}

impl View for TreeIndex {
    type V = u32;

    closed spec fn view(&self) -> u32 {
        self.idx
    }
}

impl TreeIndex {
    /// An index is never 0.
    #[verifier::type_invariant]
    spec fn nonzero(self) -> bool {
        self.idx != 0
    }

    /// The index `raw`, which must not be zero.
    pub fn new(raw: u32) -> (r: Self)
        requires
            raw != 0,
        ensures
            r@ == raw,
    {
        TreeIndex { idx: raw }
    }

    /// The position in the arena.
    pub fn raw(self) -> (r: u32)
        ensures
            r == self@,
            r != 0,
    {
        proof {
            use_type_invariant(&self);
        }
        self.idx
    }
}

/// Two indices with the same position are the same index.
pub proof fn lemma_index_eq(a: TreeIndex, b: TreeIndex)
    ensures
        a@ == b@ <==> a == b,
{
}

/// An arena entry: no child is a leaf, a left child alone is a stem, two children a fork.
#[derive(Clone, Copy, PartialEq, Eq, Hash)]
pub struct TreeEntry {
    pub left: Option<TreeIndex>,
    pub right: Option<TreeIndex>,
}

impl TreeEntry {
    /// The entry of a leaf.
    pub fn leaf() -> (e: Self)
        ensures
            e.left is None,
            e.right is None,
    {
        TreeEntry { left: None, right: None }
    }

    /// The entry of a stem over `inner`.
    pub fn stem(inner: TreeIndex) -> (e: Self)
        ensures
            e.left == Some(inner),
            e.right is None,
    {
        TreeEntry { left: Some(inner), right: None }
    }

    /// The entry of a fork of `left` and `right`.
    pub fn fork(left: TreeIndex, right: TreeIndex) -> (e: Self)
        ensures
            e.left == Some(left),
            e.right == Some(right),
    {
        TreeEntry { left: Some(left), right: Some(right) }
    }

    /// The entry of a stem over `inner`, as a value.
    pub open spec fn stem_spec(inner: TreeIndex) -> Self {
        TreeEntry { left: Some(inner), right: None }
    }

    /// The entry of a fork of `left` and `right`, as a value.
    pub open spec fn fork_spec(left: TreeIndex, right: TreeIndex) -> Self {
        TreeEntry { left: Some(left), right: Some(right) }
    }

    /// The pair under which the entry is hash consed: the children's positions, 0 for none.
    fn key(&self) -> (k: (u32, u32))
        ensures
            k == key_of(*self),
    {
        let l = match self.left {
            Some(i) => i.raw(),
            None => 0,
        };
        let r = match self.right {
            Some(i) => i.raw(),
            None => 0,
        };
        (l, r)
    }
}

/// The shape of a node, with its children as indices.
#[derive(Clone, Copy, PartialEq, Eq, Debug, Structural)]
pub enum Tree {
    Leaf,
    Stem(TreeIndex),
    Fork(TreeIndex, TreeIndex),
}

/// Applications of indices above this are not cached.
const MAX_TREE_IDX_TO_BE_CACHED: u32 = 50_000;

/// What the reduction has left to do once the current application has a value.
enum EvalFrame {
    /// S-rule: computed `x b`; next compute `y b`, then apply the results.
    SRight { y: TreeIndex, b: TreeIndex },
    /// S-rule: have the left result; apply it to the right result.
    SApply { left_result: TreeIndex },
    /// Fork-triage: computed `y u`; next apply the result to `v`.
    ForkV { v: TreeIndex },
    /// Record `a b -> result` in the cache.
    Cache { a: TreeIndex, b: TreeIndex },
}

/// The arena with its hash-consing table, its application cache and the reduction stack.
pub struct Trees {
    entries: Vec<TreeEntry>,
    indexed_trees: PairMap,
    cached_applications: PairMap,
    eval_stack: Vec<EvalFrame>,
}

/// An arena as mathematics: its entries, its hash-consing table, its application cache and
/// its reduction stack. Reduction is a function of this state.
pub struct Machine {
    es: Seq<TreeEntry>,
    idx: Map<(u32, u32), u32>,
    cache: Map<(u32, u32), u32>,
    st: Seq<EvalFrame>,
}

/// Hash consing `e` into the state: the registered index of its key, or a new entry.
spec fn m_cons(m: Machine, e: TreeEntry) -> (Machine, TreeIndex) {
    let k = key_of(e);
    if m.idx.contains_key(k) {
        (m, TreeIndex { idx: m.idx[k] })
    } else {
        (
            Machine { es: m.es.push(e), idx: m.idx.insert(k, m.es.len() as u32), cache: m.cache, st: m.st },
            TreeIndex { idx: m.es.len() as u32 },
        )
    }
}

/// Interning the tree `t` into the state, children first, left before right.
spec fn intern_term(m: Machine, t: Term) -> (Machine, TreeIndex)
    decreases t,
{
    match t {
        Term::Leaf => (m, TreeIndex { idx: 1 }),
        Term::Stem(c) => {
            let (m1, rc) = intern_term(m, *c);
            m_cons(m1, TreeEntry { left: Some(rc), right: None })
        },
        Term::Fork(l, r) => {
            let (m1, rl) = intern_term(m, *l);
            let (m2, rr) = intern_term(m1, *r);
            m_cons(m2, TreeEntry { left: Some(rl), right: Some(rr) })
        },
    }
}

/// The position of an optional child, 0 for none.
spec fn opt_raw(o: Option<TreeIndex>) -> u32 {
    match o {
        Some(i) => i.idx,
        None => 0,
    }
}

/// The hash-consing key of an entry.
spec fn key_of(e: TreeEntry) -> (u32, u32) {
    (opt_raw(e.left), opt_raw(e.right))
}

/// The entry at position `i` has a valid shape and children stored before it.
spec fn entry_ok(e: TreeEntry, i: int) -> bool {
    match (e.left, e.right) {
        (None, None) => true,
        (Some(l), None) => 1 <= l.idx < i,
        (Some(l), Some(r)) => 1 <= l.idx < i && 1 <= r.idx < i,
        (None, Some(_)) => false,
    }
}

/// The tree stored at position `i`.
spec fn term_at(es: Seq<TreeEntry>, i: int) -> Term
    decreases i,
{
    if 0 <= i < es.len() {
        match (es[i].left, es[i].right) {
            (Some(l), None) => if 0 <= l.idx < i {
                stem(term_at(es, l.idx as int))
            } else {
                Term::Leaf
            },
            (Some(l), Some(r)) => if 0 <= l.idx < i && 0 <= r.idx < i {
                fork(term_at(es, l.idx as int), term_at(es, r.idx as int))
            } else {
                Term::Leaf
            },
            _ => Term::Leaf,
        }
    } else {
        Term::Leaf
    }
}

/// The shape an entry stands for.
spec fn node_of(e: TreeEntry) -> Tree {
    match (e.left, e.right) {
        (Some(l), None) => Tree::Stem(l),
        (Some(l), Some(r)) => Tree::Fork(l, r),
        _ => Tree::Leaf,
    }
}

/// The arena's entries: position 1 is the leaf, every entry is well shaped, and indices fit a `u32`.
spec fn entries_ok(es: Seq<TreeEntry>) -> bool {
    &&& 2 <= es.len() <= u32::MAX
    &&& es[1].left is None
    &&& es[1].right is None
    &&& forall|i: int| 1 <= i < es.len() ==> entry_ok(#[trigger] es[i], i)
}

/// The hash-consing table maps each key to a position holding an entry with that key; the leaf is registered.
spec fn interning_ok(es: Seq<TreeEntry>, m: Map<(u32, u32), u32>) -> bool {
    &&& forall|k: (u32, u32)| #[trigger] m.contains_key(k) ==> 1 <= m[k] < es.len() && key_of(es[m[k] as int]) == k
    &&& m.contains_key((0, 0))
    &&& m[(0, 0)] == 1
}

/// The cache maps applications of positions to positions holding their normal forms.
spec fn cache_ok(es: Seq<TreeEntry>, c: Map<(u32, u32), u32>) -> bool {
    forall|k: (u32, u32)| #[trigger] c.contains_key(k) ==> {
        &&& 1 <= k.0 < es.len()
        &&& 1 <= k.1 < es.len()
        &&& 1 <= c[k] < es.len()
        &&& reduces(term_at(es, k.0 as int), term_at(es, k.1 as int), term_at(es, c[k] as int))
    }
}

/// The node at position `i` and all nodes below it are the registered ones for their keys.
spec fn interned_at(es: Seq<TreeEntry>, m: Map<(u32, u32), u32>, i: int) -> bool
    decreases i,
{
    if 1 <= i < es.len() && m.contains_key(key_of(es[i])) && m[key_of(es[i])] == i {
        match (es[i].left, es[i].right) {
            (None, None) => true,
            (Some(l), None) => if l.idx < i {
                interned_at(es, m, l.idx as int)
            } else {
                false
            },
            (Some(l), Some(r)) => if l.idx < i && r.idx < i {
                interned_at(es, m, l.idx as int) && interned_at(es, m, r.idx as int)
            } else {
                false
            },
            _ => false,
        }
    } else {
        false
    }
}

/// The heads along the right spine of the fork list at position `i`, if it ends in a leaf.
spec fn spine_at(es: Seq<TreeEntry>, i: int) -> Option<Seq<TreeIndex>>
    decreases i,
{
    if 1 <= i < es.len() {
        match (es[i].left, es[i].right) {
            (None, None) => Some(Seq::<TreeIndex>::empty()),
            (Some(h), Some(t)) => if t.idx < i {
                match spine_at(es, t.idx as int) {
                    Some(rest) => Some(seq![h] + rest),
                    None => None,
                }
            } else {
                None
            },
            _ => None,
        }
    } else {
        None
    }
}

/// `es2` keeps the entries of `es` and may add more after them.
spec fn grows(es: Seq<TreeEntry>, es2: Seq<TreeEntry>) -> bool {
    es.len() <= es2.len() && forall|j: int| 0 <= j < es.len() ==> #[trigger] es2[j] == es[j]
}

impl Trees {
    /// The arena as mathematics.
    pub closed spec fn machine(&self) -> Machine {
        Machine {
            es: self.entries@,
            idx: pair_map_contents(self.indexed_trees),
            cache: pair_map_contents(self.cached_applications),
            st: self.eval_stack@,
        }
    }

    /// The number of entries, including the unused one at position 0.
    pub closed spec fn arena_len(&self) -> nat {
        self.entries@.len()
    }

    /// `i` names a tree of this arena.
    pub open spec fn valid(&self, i: TreeIndex) -> bool {
        1 <= i@ < self.arena_len()
    }

    /// The arena can take `n` more entries.
    pub open spec fn has_room(&self, n: nat) -> bool {
        self.arena_len() + n <= u32::MAX
    }

    /// The tree that `i` names.
    pub closed spec fn term(&self, i: TreeIndex) -> Term {
        term_at(self.entries@, i@ as int)
    }

    /// The shape of the node that `i` names.
    pub closed spec fn node(&self, i: TreeIndex) -> Tree {
        node_of(self.entries@[i@ as int])
    }

    /// The items of the list `i`: the heads of the forks down its right spine, if it ends in a leaf.
    pub closed spec fn spine(&self, i: TreeIndex) -> Option<Seq<TreeIndex>> {
        spine_at(self.entries@, i@ as int)
    }

    /// `i` is the index that the hash-consing table gives for its node.
    pub closed spec fn registered(&self, i: TreeIndex) -> bool {
        let k = key_of(self.entries@[i@ as int]);
        pair_map_contents(self.indexed_trees).contains_key(k) && pair_map_contents(self.indexed_trees)[k] == i@
    }

    /// `i` and all the nodes below it are registered: `i` is the one index of its tree.
    pub closed spec fn interned(&self, i: TreeIndex) -> bool {
        interned_at(self.entries@, pair_map_contents(self.indexed_trees), i@ as int)
    }

    /// Every entry has a valid shape and its children before it.
    pub closed spec fn well_shaped(&self) -> bool {
        entries_ok(self.entries@)
    }

    /// The hash-consing table and the application cache agree with the arena.
    pub closed spec fn tables_ok(&self) -> bool {
        &&& interning_ok(self.entries@, pair_map_contents(self.indexed_trees))
        &&& cache_ok(self.entries@, pair_map_contents(self.cached_applications))
    }

    /// The application cache: for the positions of a function and an argument, the position
    /// of the normal form of their application.
    pub closed spec fn cache(&self) -> Map<(u32, u32), u32> {
        pair_map_contents(self.cached_applications)
    }

    /// No reduction is under way.
    pub closed spec fn idle(&self) -> bool {
        self.eval_stack@.len() == 0
    }

    /// The arena's invariant.
    pub open spec fn wf(&self) -> bool {
        self.well_shaped() && self.tables_ok() && self.idle()
    }

    /// `self` is `old` with possibly more entries: every index of `old` keeps its tree,
    /// its node, and its place in the hash-consing table.
    pub open spec fn extends(&self, old: &Trees) -> bool {
        &&& old.arena_len() <= self.arena_len()
        &&& forall|i: TreeIndex| old.valid(i) ==> #[trigger] self.term(i) == old.term(i)
        &&& forall|i: TreeIndex| old.valid(i) ==> #[trigger] self.node(i) == old.node(i)
        &&& forall|i: TreeIndex| old.valid(i) ==> #[trigger] self.spine(i) == old.spine(i)
        &&& forall|i: TreeIndex| old.valid(i) && old.registered(i) ==> #[trigger] self.registered(i)
        &&& forall|i: TreeIndex| old.valid(i) && old.interned(i) ==> #[trigger] self.interned(i)
    }
}


/// The tree at a position depends only on the entries up to it.
proof fn lemma_term_grows(es: Seq<TreeEntry>, es2: Seq<TreeEntry>, i: int)
    requires
        grows(es, es2),
        0 <= i < es.len(),
    ensures
        term_at(es2, i) == term_at(es, i),
    decreases i,
{
    assert(es2[i] == es[i]);
    match (es[i].left, es[i].right) {
        (Some(l), None) => if 0 <= l.idx < i {
            lemma_term_grows(es, es2, l.idx as int);
        },
        (Some(l), Some(r)) => if 0 <= l.idx < i && 0 <= r.idx < i {
            lemma_term_grows(es, es2, l.idx as int);
            lemma_term_grows(es, es2, r.idx as int);
        },
        _ => {},
    }
}

/// The list at a position depends only on the entries up to it.
proof fn lemma_spine_grows(es: Seq<TreeEntry>, es2: Seq<TreeEntry>, i: int)
    requires
        grows(es, es2),
        0 <= i < es.len(),
    ensures
        spine_at(es2, i) == spine_at(es, i),
    decreases i,
{
    if 1 <= i {
        assert(es2[i] == es[i]);
        match (es[i].left, es[i].right) {
            (Some(h), Some(t)) => if t.idx < i {
                lemma_spine_grows(es, es2, t.idx as int);
            },
            _ => {},
        }
    }
}

/// Interning depends only on the entries up to the index and on the table's pairs it uses.
proof fn lemma_interned_grows(
    es: Seq<TreeEntry>,
    m: Map<(u32, u32), u32>,
    es2: Seq<TreeEntry>,
    m2: Map<(u32, u32), u32>,
    i: int,
)
    requires
        grows(es, es2),
        m.submap_of(m2),
        interned_at(es, m, i),
    ensures
        interned_at(es2, m2, i),
    decreases i,
{
    assert(es2[i] == es[i]);
    let k = key_of(es[i]);
    assert(m.contains_key(k));
    assert(m2.contains_key(k) && m2[k] == m[k]);
    match (es[i].left, es[i].right) {
        (Some(l), None) => {
            lemma_interned_grows(es, m, es2, m2, l.idx as int);
        },
        (Some(l), Some(r)) => {
            lemma_interned_grows(es, m, es2, m2, l.idx as int);
            lemma_interned_grows(es, m, es2, m2, r.idx as int);
        },
        _ => {},
    }
}

/// The cache stays sound when entries are added.
proof fn lemma_cache_grows(es: Seq<TreeEntry>, es2: Seq<TreeEntry>, c: Map<(u32, u32), u32>)
    requires
        grows(es, es2),
        cache_ok(es, c),
    ensures
        cache_ok(es2, c),
{
    assert forall|k: (u32, u32)| #[trigger] c.contains_key(k) implies {
        &&& 1 <= k.0 < es2.len()
        &&& 1 <= k.1 < es2.len()
        &&& 1 <= c[k] < es2.len()
        &&& reduces(term_at(es2, k.0 as int), term_at(es2, k.1 as int), term_at(es2, c[k] as int))
    } by {
        lemma_term_grows(es, es2, k.0 as int);
        lemma_term_grows(es, es2, k.1 as int);
        lemma_term_grows(es, es2, c[k] as int);
    }
}

/// Well-shaped entries with the same key are the same entry.
proof fn lemma_key_injective(e1: TreeEntry, i: int, e2: TreeEntry, j: int)
    requires
        entry_ok(e1, i),
        entry_ok(e2, j),
        key_of(e1) == key_of(e2),
    ensures
        e1 == e2,
{
}

/// The tree at a position, one level down.
proof fn lemma_term_unfold(es: Seq<TreeEntry>, i: int)
    requires
        entries_ok(es),
        1 <= i < es.len(),
    ensures
        entry_ok(es[i], i),
        term_at(es, i) == match node_of(es[i]) {
            Tree::Leaf => Term::Leaf,
            Tree::Stem(c) => stem(term_at(es, c.idx as int)),
            Tree::Fork(l, r) => fork(term_at(es, l.idx as int), term_at(es, r.idx as int)),
        },
{
    assert(entry_ok(es[i], i));
}

/// A tree has no more levels than its position.
proof fn lemma_depth_bound(es: Seq<TreeEntry>, i: int)
    requires
        entries_ok(es),
        1 <= i < es.len(),
    ensures
        term_depth(term_at(es, i)) < i,
    decreases i,
{
    lemma_term_unfold(es, i);
    match node_of(es[i]) {
        Tree::Leaf => {},
        Tree::Stem(c) => {
            lemma_depth_bound(es, c.idx as int);
        },
        Tree::Fork(l, r) => {
            lemma_depth_bound(es, l.idx as int);
            lemma_depth_bound(es, r.idx as int);
        },
    }
}

/// Interning a tree that already has an interned index changes nothing and gives that index.
proof fn lemma_intern_present(m: Machine, j: int)
    requires
        entries_ok(m.es),
        interning_ok(m.es, m.idx),
        interned_at(m.es, m.idx, j),
    ensures
        intern_term(m, term_at(m.es, j)) == (m, TreeIndex { idx: j as u32 }),
    decreases j,
{
    let es = m.es;
    lemma_term_unfold(es, j);
    match (es[j].left, es[j].right) {
        (None, None) => {
            assert(key_of(es[j]) == (0u32, 0u32));
        },
        (Some(c), None) => {
            lemma_intern_present(m, c.idx as int);
            assert(term_at(es, j) == stem(term_at(es, c.idx as int)));
        },
        (Some(l), Some(r)) => {
            lemma_intern_present(m, l.idx as int);
            lemma_intern_present(m, r.idx as int);
            assert(term_at(es, j) == fork(term_at(es, l.idx as int), term_at(es, r.idx as int)));
        },
        _ => {},
    }
}

impl Trees {
    /// An arena that grows its entries and its table extends the old one.
    proof fn lemma_extends(&self, old: &Trees)
        requires
            grows(old.entries@, self.entries@),
            pair_map_contents(old.indexed_trees).submap_of(pair_map_contents(self.indexed_trees)),
        ensures
            self.extends(old),
    {
        let es = old.entries@;
        let es2 = self.entries@;
        let m = pair_map_contents(old.indexed_trees);
        let m2 = pair_map_contents(self.indexed_trees);
        assert forall|i: TreeIndex| old.valid(i) implies #[trigger] self.term(i) == old.term(i) by {
            lemma_term_grows(es, es2, i@ as int);
        }
        assert forall|i: TreeIndex| old.valid(i) implies #[trigger] self.node(i) == old.node(i) by {
            assert(es2[i@ as int] == es[i@ as int]);
        }
        assert forall|i: TreeIndex| old.valid(i) implies #[trigger] self.spine(i) == old.spine(i) by {
            lemma_spine_grows(es, es2, i@ as int);
        }
        assert forall|i: TreeIndex| old.valid(i) && old.registered(i) implies #[trigger] self.registered(i) by {
            assert(es2[i@ as int] == es[i@ as int]);
        }
        assert forall|i: TreeIndex| old.valid(i) && old.interned(i) implies #[trigger] self.interned(i) by {
            lemma_interned_grows(es, m, es2, m2, i@ as int);
        }
    }

    /// The tree of a valid index, one level down: its node's children come before it.
    pub proof fn lemma_node(&self, i: TreeIndex)
        requires
            self.well_shaped(),
            self.valid(i),
        ensures
            match self.node(i) {
                Tree::Leaf => self.term(i) == Term::Leaf,
                Tree::Stem(c) => self.valid(c) && c@ < i@ && self.term(i) == stem(self.term(c)),
                Tree::Fork(l, r) => self.valid(l) && self.valid(r) && l@ < i@ && r@ < i@
                    && self.term(i) == fork(self.term(l), self.term(r)),
            },
    {
        lemma_term_unfold(self.entries@, i@ as int);
    }

    /// The list of a valid index, one level down.
    pub proof fn lemma_spine(&self, i: TreeIndex)
        requires
            self.well_shaped(),
            self.valid(i),
        ensures
            self.spine(i) == match self.node(i) {
                Tree::Leaf => Some(Seq::<TreeIndex>::empty()),
                Tree::Stem(_) => None::<Seq<TreeIndex>>,
                Tree::Fork(h, t) => match self.spine(t) {
                    Some(rest) => Some(seq![h] + rest),
                    None => None,
                },
            },
    {
        lemma_term_unfold(self.entries@, i@ as int);
    }

    /// Every application that the cache records reduces to the tree that it records for it.
    pub proof fn law_cache_sound(&self, a: TreeIndex, b: TreeIndex, c: TreeIndex)
        requires
            self.wf(),
            self.cache().contains_key((a@, b@)),
            self.cache()[(a@, b@)] == c@,
        ensures
            self.valid(a),
            self.valid(b),
            self.valid(c),
            reduces(self.term(a), self.term(b), self.term(c)),
    {
        assert(pair_map_contents(self.cached_applications).contains_key((a@, b@)));
    }

    /// Interned indices of equal trees are equal: for them, `==` on indices is equality of trees.
    pub proof fn law_interned_unique(&self, a: TreeIndex, b: TreeIndex)
        requires
            self.wf(),
            self.valid(a),
            self.valid(b),
            self.interned(a),
            self.interned(b),
            self.term(a) == self.term(b),
        ensures
            a == b,
        decreases a@,
    {
        let es = self.entries@;
        let m = pair_map_contents(self.indexed_trees);
        lemma_term_unfold(es, a@ as int);
        lemma_term_unfold(es, b@ as int);
        match (node_of(es[a@ as int]), node_of(es[b@ as int])) {
            (Tree::Stem(ca), Tree::Stem(cb)) => {
                self.law_interned_unique(ca, cb);
            },
            (Tree::Fork(la, ra), Tree::Fork(lb, rb)) => {
                self.law_interned_unique(la, lb);
                self.law_interned_unique(ra, rb);
            },
            _ => {},
        }
        assert(key_of(es[a@ as int]) == key_of(es[b@ as int]));
    }
}


impl Trees {
    /// An arena holding the leaf (index 1), `Stem(Leaf)` (index 2) and `Fork(Leaf, Leaf)` (index 3).
    pub fn new() -> (t: Self)
        ensures
            t.wf(),
            t.arena_len() == 4,
            t.cache() == Map::<(u32, u32), u32>::empty(),
            forall|i: TreeIndex| #[trigger] t.valid(i) ==> t.interned(i),
            forall|i: TreeIndex| i@ == 1 ==> #[trigger] t.term(i) == Term::Leaf,
            forall|i: TreeIndex| i@ == 2 ==> #[trigger] t.term(i) == stem(Term::Leaf),
            forall|i: TreeIndex| i@ == 3 ==> #[trigger] t.term(i) == fork(Term::Leaf, Term::Leaf),
    {
        let mut t = Trees {
            entries: Vec::with_capacity(4096),
            indexed_trees: pair_map_with_capacity(4096),
            cached_applications: pair_map_with_capacity(1024),
            eval_stack: Vec::with_capacity(256),
        };
        t.entries.push(TreeEntry::leaf());  // index 0: unused
        let leaf_entry = TreeEntry::leaf();
        let leaf_idx = TreeIndex::new(1);
        t.entries.push(leaf_entry);  // index 1: Leaf
        pair_map_insert(&mut t.indexed_trees, leaf_entry.key(), leaf_idx.raw());
        assert(t.entries@.len() == 2);
        assert(entries_ok(t.entries@)) by {
            assert forall|i: int| 1 <= i < t.entries@.len() implies entry_ok(#[trigger] t.entries@[i], i) by {
                assert(i == 1);
            }
        }
        let ghost t1 = t;
        let k_idx = t.stem(leaf_idx);  // index 2: K = Stem(Leaf)
        let ghost t2 = t;
        let ll_idx = t.fork(leaf_idx, leaf_idx);  // index 3: Fork(Leaf, Leaf)
        proof {
            assert(t1.interned(leaf_idx));
            assert(k_idx@ == 2);
            assert(ll_idx@ == 3);
            assert forall|i: TreeIndex| #[trigger] t.valid(i) implies t.interned(i) by {
                lemma_index_eq(i, leaf_idx);
                lemma_index_eq(i, k_idx);
                lemma_index_eq(i, ll_idx);
            }
            assert forall|i: TreeIndex| i@ == 1 implies #[trigger] t.term(i) == Term::Leaf by {
                lemma_index_eq(i, leaf_idx);
            }
            assert forall|i: TreeIndex| i@ == 2 implies #[trigger] t.term(i) == stem(Term::Leaf) by {
                lemma_index_eq(i, k_idx);
            }
            assert forall|i: TreeIndex| i@ == 3 implies #[trigger] t.term(i) == fork(Term::Leaf, Term::Leaf) by {
                lemma_index_eq(i, ll_idx);
            }
        }
        t
    }

    // Constructors  ------------------------------------------------------------

    /// The leaf, which is always index 1.
    pub fn leaf(&mut self) -> (r: TreeIndex)
        ensures
            *final(self) == *old(self),
            r@ == 1,
            old(self).wf() ==> old(self).valid(r) && old(self).node(r) == Tree::Leaf
                && old(self).term(r) == Term::Leaf && old(self).interned(r),
    {
        let r = TreeIndex::new(1);
        proof {
            if self.wf() {
                assert(key_of(self.entries@[1]) == (0u32, 0u32));
            }
        }
        r
    }

    /// The stem over `inner`, found again if it is already registered.
    pub fn stem(&mut self, inner: TreeIndex) -> (r: TreeIndex)
        requires
            old(self).wf(),
            old(self).valid(inner),
            old(self).has_room(1),
        ensures
            final(self).wf(),
            final(self).extends(old(self)),
            final(self).valid(r),
            final(self).node(r) == Tree::Stem(inner),
            final(self).term(r) == stem(old(self).term(inner)),
            final(self).registered(r),
            old(self).interned(inner) ==> final(self).interned(r),
            final(self).cache() == old(self).cache(),
            forall|j: TreeIndex| #![trigger old(self).node(j)]
                old(self).valid(j) && old(self).registered(j) && old(self).node(j) == Tree::Stem(inner) ==> r == j,
            final(self).arena_len() == old(self).arena_len() || (final(self).arena_len()
                == old(self).arena_len() + 1 && r@ == old(self).arena_len()),
    {
        let r = self.insert(TreeEntry::stem(inner));
        proof {
            self.lemma_node(r);
            self.lemma_stem_consing(&*old(self), r, inner);
        }
        r
    }

    /// The fork of `left` and `right`, found again if it is already registered.
    pub fn fork(&mut self, left: TreeIndex, right: TreeIndex) -> (r: TreeIndex)
        requires
            old(self).wf(),
            old(self).valid(left),
            old(self).valid(right),
            old(self).has_room(1),
        ensures
            final(self).wf(),
            final(self).extends(old(self)),
            final(self).valid(r),
            final(self).node(r) == Tree::Fork(left, right),
            final(self).term(r) == fork(old(self).term(left), old(self).term(right)),
            final(self).registered(r),
            old(self).interned(left) && old(self).interned(right) ==> final(self).interned(r),
            final(self).cache() == old(self).cache(),
            forall|j: TreeIndex| #![trigger old(self).node(j)]
                old(self).valid(j) && old(self).registered(j) && old(self).node(j) == Tree::Fork(left, right) ==> r == j,
            final(self).arena_len() == old(self).arena_len() || (final(self).arena_len()
                == old(self).arena_len() + 1 && r@ == old(self).arena_len()),
    {
        let r = self.insert(TreeEntry::fork(left, right));
        proof {
            self.lemma_node(r);
            self.lemma_fork_consing(&*old(self), r, left, right);
        }
        r
    }

    /// Helper of `stem`: what follows from the entry that `insert` stored or found.
    proof fn lemma_stem_consing(&self, old: &Trees, r: TreeIndex, inner: TreeIndex)
        requires
            old.wf(),
            self.wf(),
            old.valid(inner),
            self.extends(old),
            self.valid(r),
            self.registered(r),
            self.entries@[r@ as int] == TreeEntry::stem_spec(inner),
            r@ < old.arena_len() ==> self.entries@ == old.entries@,
        ensures
            old.interned(inner) ==> self.interned(r),
            forall|j: TreeIndex| #![trigger old.node(j)]
                old.valid(j) && old.registered(j) && old.node(j) == Tree::Stem(inner) ==> r == j,
    {
        assert(self.valid(inner));
        assert forall|j: TreeIndex| #![trigger old.node(j)]
            old.valid(j) && old.registered(j) && old.node(j) == Tree::Stem(inner) implies r == j by {
            assert(self.registered(j));
            assert(self.node(j) == old.node(j));
            assert(entry_ok(self.entries@[j@ as int], j@ as int));
            assert(key_of(self.entries@[j@ as int]) == key_of(self.entries@[r@ as int]));
        }
        if old.interned(inner) {
            assert(self.interned(inner));
        }
    }

    /// Helper of `fork`: what follows from the entry that `insert` stored or found.
    proof fn lemma_fork_consing(&self, old: &Trees, r: TreeIndex, left: TreeIndex, right: TreeIndex)
        requires
            old.wf(),
            self.wf(),
            old.valid(left),
            old.valid(right),
            self.extends(old),
            self.valid(r),
            self.registered(r),
            self.entries@[r@ as int] == TreeEntry::fork_spec(left, right),
            r@ < old.arena_len() ==> self.entries@ == old.entries@,
        ensures
            old.interned(left) && old.interned(right) ==> self.interned(r),
            forall|j: TreeIndex| #![trigger old.node(j)]
                old.valid(j) && old.registered(j) && old.node(j) == Tree::Fork(left, right) ==> r == j,
    {
        assert forall|j: TreeIndex| #![trigger old.node(j)]
            old.valid(j) && old.registered(j) && old.node(j) == Tree::Fork(left, right) implies r == j by {
            assert(self.registered(j));
            assert(self.node(j) == old.node(j));
            assert(entry_ok(self.entries@[j@ as int], j@ as int));
            assert(key_of(self.entries@[j@ as int]) == key_of(self.entries@[r@ as int]));
        }
        if old.interned(left) && old.interned(right) {
            assert(self.interned(left));
            assert(self.interned(right));
        }
    }

    /// Stores `entry` unless the table already registers an entry with its key.
    fn insert(&mut self, entry: TreeEntry) -> (r: TreeIndex)
        requires
            old(self).wf(),
            entry_ok(entry, old(self).entries@.len() as int),
            old(self).has_room(1),
        ensures
            final(self).wf(),
            grows(old(self).entries@, final(self).entries@),
            pair_map_contents(old(self).indexed_trees).submap_of(pair_map_contents(final(self).indexed_trees)),
            final(self).cached_applications == old(self).cached_applications,
            (final(self).machine(), r) == m_cons(old(self).machine(), entry),
            1 <= r@ < final(self).entries@.len(),
            final(self).entries@[r@ as int] == entry,
            final(self).registered(r),
            final(self).extends(old(self)),
            r@ < old(self).entries@.len() ==> final(self).entries@ == old(self).entries@
                && pair_map_contents(old(self).indexed_trees).contains_key(key_of(entry)),
            old(self).entries@.len() <= r@ ==> r@ == old(self).entries@.len()
                && final(self).entries@ == old(self).entries@.push(entry)
                && !pair_map_contents(old(self).indexed_trees).contains_key(key_of(entry)),
    {
        let k = entry.key();
        match pair_map_get(&self.indexed_trees, k) {
            Some(raw) => {
                let idx = TreeIndex::new(raw);
                proof {
                    let es = self.entries@;
                    assert(entry_ok(es[raw as int], raw as int));
                    lemma_key_injective(es[raw as int], raw as int, entry, es.len() as int);
                    self.lemma_extends(&*old(self));
                }
                return idx;
            },
            None => {},
        }
        let raw = self.entries.len() as u32;
        let idx = TreeIndex::new(raw);
        self.entries.push(entry);
        pair_map_insert(&mut self.indexed_trees, k, raw);
        proof {
            let es = old(self).entries@;
            let es2 = self.entries@;
            let m = pair_map_contents(old(self).indexed_trees);
            let m2 = pair_map_contents(self.indexed_trees);
            assert(grows(es, es2));
            assert forall|i: int| 1 <= i < es2.len() implies entry_ok(#[trigger] es2[i], i) by {
                if i < es.len() {
                    assert(es2[i] == es[i]);
                    assert(entry_ok(es[i], i));
                }
            }
            assert forall|k2: (u32, u32)| #[trigger] m2.contains_key(k2) implies 1 <= m2[k2] < es2.len()
                && key_of(es2[m2[k2] as int]) == k2 by {
                if k2 != k {
                    assert(m.contains_key(k2));
                    assert(es2[m[k2] as int] == es[m[k2] as int]);
                }
            }
            lemma_cache_grows(es, es2, pair_map_contents(self.cached_applications));
            assert(m.submap_of(m2));
            self.lemma_extends(&*old(self));
        }
        idx
    }

    /// Appends `entry` without consulting the table.
    fn insert_raw(&mut self, entry: TreeEntry) -> (r: TreeIndex)
        requires
            old(self).well_shaped(),
            old(self).tables_ok(),
            entry_ok(entry, old(self).entries@.len() as int),
            old(self).has_room(1),
        ensures
            final(self).well_shaped(),
            final(self).tables_ok(),
            final(self).entries@ == old(self).entries@.push(entry),
            final(self).indexed_trees == old(self).indexed_trees,
            final(self).cached_applications == old(self).cached_applications,
            final(self).eval_stack@ == old(self).eval_stack@,
            r@ == old(self).entries@.len(),
    {
        let raw = self.entries.len() as u32;
        let idx = TreeIndex::new(raw);
        self.entries.push(entry);
        proof {
            let es = old(self).entries@;
            let es2 = self.entries@;
            let m = pair_map_contents(self.indexed_trees);
            assert(grows(es, es2));
            assert forall|i: int| 1 <= i < es2.len() implies entry_ok(#[trigger] es2[i], i) by {
                if i < es.len() {
                    assert(es2[i] == es[i]);
                    assert(entry_ok(es[i], i));
                }
            }
            assert forall|k2: (u32, u32)| #[trigger] m.contains_key(k2) implies 1 <= m[k2] < es2.len()
                && key_of(es2[m[k2] as int]) == k2 by {
                assert(es2[m[k2] as int] == es[m[k2] as int]);
            }
            lemma_cache_grows(es, es2, pair_map_contents(self.cached_applications));
        }
        idx
    }

    // Lookup -------------------------------------------------------------------

    /// The node that `idx` names.
    pub fn index(&self, idx: TreeIndex) -> (r: Tree)
        requires
            self.well_shaped(),
            self.valid(idx),
        ensures
            r == self.node(idx),
            match r {
                Tree::Leaf => self.term(idx) == Term::Leaf,
                Tree::Stem(c) => self.valid(c) && c@ < idx@ && self.term(idx) == stem(self.term(c)),
                Tree::Fork(l, rr) => self.valid(l) && self.valid(rr) && l@ < idx@ && rr@ < idx@
                    && self.term(idx) == fork(self.term(l), self.term(rr)),
            },
    {
        proof {
            self.lemma_node(idx);
        }
        let e = &self.entries[idx.raw() as usize];
        match (e.left, e.right) {
            (None, None) => Tree::Leaf,
            (Some(inner), None) => Tree::Stem(inner),
            (Some(left), Some(right)) => Tree::Fork(left, right),
            (None, Some(_)) => {
                proof {
                    assert(entry_ok(self.entries@[idx@ as int], idx@ as int));
                }
                Tree::Leaf
            },
        }
    }

    // Structure queries --------------------------------------------------------

    /// The number of nodes of the tree `idx`, counting shared subtrees as often as they occur.
    pub fn size(&self, idx: TreeIndex) -> (r: usize)
        requires
            self.well_shaped(),
            self.valid(idx),
            term_size(self.term(idx)) <= usize::MAX,
        ensures
            r == term_size(self.term(idx)),
        decreases idx@,
    {
        match self.index(idx) {
            Tree::Leaf => 1,
            Tree::Stem(inner) => 1 + self.size(inner),
            Tree::Fork(left, right) => 1 + self.size(left) + self.size(right),
        }
    }

    /// The number of levels of the tree `idx` below its root.
    pub fn depth(&self, idx: TreeIndex) -> (r: usize)
        requires
            self.well_shaped(),
            self.valid(idx),
        ensures
            r == term_depth(self.term(idx)),
        decreases idx@,
    {
        proof {
            lemma_depth_bound(self.entries@, idx@ as int);
        }
        match self.index(idx) {
            Tree::Leaf => 0,
            Tree::Stem(inner) => 1 + self.depth(inner),
            Tree::Fork(left, right) => {
                let dl = self.depth(left);
                let dr = self.depth(right);
                1 + if dl >= dr {
                    dl
                } else {
                    dr
                }
            },
        }
    }

    // Arena stats --------------------------------------------------------------

    /// The number of entries, including the unused one at position 0.
    pub fn arena_size(&self) -> (r: usize)
        ensures
            r == self.arena_len(),
    {
        self.entries.len()
    }
}


impl Trees {
    // Display ------------------------------------------------------------------

    /// The tree `idx` written as `t`, `(t x)` and `(t x y)`.
    pub fn display(&self, idx: TreeIndex) -> (s: String)
        requires
            self.well_shaped(),
            self.valid(idx),
        ensures
            s@ == show(self.term(idx)),
        decreases idx@,
    {
        match self.index(idx) {
            Tree::Leaf => String::from_str("t"),
            Tree::Stem(inner) => {
                let mut s = String::from_str("(t ");
                let inner_s = self.display(inner);
                s.append(inner_s.as_str());
                s.append(")");
                s
            },
            Tree::Fork(left, right) => {
                let mut s = String::from_str("(t ");
                let left_s = self.display(left);
                let right_s = self.display(right);
                s.append(left_s.as_str());
                s.append(" ");
                s.append(right_s.as_str());
                s.append(")");
                s
            },
        }
    }

    /// The tree `idx` written as `Leaf`, `Stem(x)` and `Fork(x, y)`.
    pub fn debug_display(&self, idx: TreeIndex) -> (s: String)
        requires
            self.well_shaped(),
            self.valid(idx),
        ensures
            s@ == show_debug(self.term(idx)),
        decreases idx@,
    {
        match self.index(idx) {
            Tree::Leaf => String::from_str("Leaf"),
            Tree::Stem(inner) => {
                let mut s = String::from_str("Stem(");
                let inner_s = self.debug_display(inner);
                s.append(inner_s.as_str());
                s.append(")");
                s
            },
            Tree::Fork(left, right) => {
                let mut s = String::from_str("Fork(");
                let left_s = self.debug_display(left);
                let right_s = self.debug_display(right);
                s.append(left_s.as_str());
                s.append(", ");
                s.append(right_s.as_str());
                s.append(")");
                s
            },
        }
    }
}


/// What the reduction does after one rule: a value, or a new application to enter.
enum Step {
    Value(TreeIndex),
    Tail(TreeIndex, TreeIndex),
}

/// The frame's indices are positions below `n`.
spec fn frame_ok(fr: EvalFrame, n: int) -> bool {
    match fr {
        EvalFrame::SRight { y, b } => 1 <= y.idx < n && 1 <= b.idx < n,
        EvalFrame::SApply { left_result } => 1 <= left_result.idx < n,
        EvalFrame::ForkV { v } => 1 <= v.idx < n,
        EvalFrame::Cache { a, b } => 1 <= a.idx < n && 1 <= b.idx < n,
    }
}

/// Every frame's indices are positions of the arena.
spec fn stack_ok(es: Seq<TreeEntry>, st: Seq<EvalFrame>) -> bool {
    forall|j: int| 0 <= j < st.len() ==> frame_ok(#[trigger] st[j], es.len() as int)
}

/// A frame, as mathematics.
spec fn cont_of(es: Seq<TreeEntry>, fr: EvalFrame) -> Cont {
    match fr {
        EvalFrame::SRight { y, b } => Cont::SRight(term_at(es, y.idx as int), term_at(es, b.idx as int)),
        EvalFrame::SApply { left_result } => Cont::SApply(term_at(es, left_result.idx as int)),
        EvalFrame::ForkV { v } => Cont::ForkV(term_at(es, v.idx as int)),
        EvalFrame::Cache { a, b } => Cont::Cache(term_at(es, a.idx as int), term_at(es, b.idx as int)),
    }
}

/// The stack, as mathematics.
spec fn conts(es: Seq<TreeEntry>, st: Seq<EvalFrame>) -> Seq<Cont> {
    Seq::new(st.len(), |j: int| cont_of(es, st[j]))
}

/// The cache after the cache frames on top of `st` have recorded the value at position `r`.
spec fn recorded(c: Map<(u32, u32), u32>, st: Seq<EvalFrame>, r: u32) -> Map<(u32, u32), u32>
    decreases st.len(),
{
    if st.len() > 0 {
        match st.last() {
            EvalFrame::Cache { a, b } => recorded(c.insert((a.idx, b.idx), r), st.drop_last(), r),
            _ => c,
        }
    } else {
        c
    }
}

/// The stack below the cache frames on its top.
spec fn below_cache(st: Seq<EvalFrame>) -> Seq<EvalFrame>
    decreases st.len(),
{
    if st.len() > 0 {
        match st.last() {
            EvalFrame::Cache { .. } => below_cache(st.drop_last()),
            _ => st,
        }
    } else {
        st
    }
}

/// The state with another cache and stack.
spec fn m_set(m: Machine, cache: Map<(u32, u32), u32>, st: Seq<EvalFrame>) -> Machine {
    Machine { es: m.es, idx: m.idx, cache, st }
}

/// The node at index `i` of the state.
spec fn m_node(m: Machine, i: TreeIndex) -> Tree {
    node_of(m.es[i.idx as int])
}

/// Appending `e` without consing.
spec fn m_push_raw(m: Machine, e: TreeEntry) -> (Machine, TreeIndex) {
    (Machine { es: m.es.push(e), idx: m.idx, cache: m.cache, st: m.st }, TreeIndex { idx: m.es.len() as u32 })
}

/// Looking up the entered application `f a` in the cache: its recorded value, or else, when it
/// may be cached, a frame that will record it.
spec fn m_check(m: Machine, f: TreeIndex, a: TreeIndex) -> (Machine, Option<TreeIndex>) {
    let should = f.idx <= MAX_TREE_IDX_TO_BE_CACHED && a.idx <= MAX_TREE_IDX_TO_BE_CACHED;
    if should && m.cache.contains_key((f.idx, a.idx)) {
        (m, Some(TreeIndex { idx: m.cache[(f.idx, a.idx)] }))
    } else if should {
        (m_set(m, m.cache, m.st.push(EvalFrame::Cache { a: f, b: a })), None)
    } else {
        (m, None)
    }
}

/// One rule for the entered application `f a`.
spec fn m_dispatch(m: Machine, f: TreeIndex, a: TreeIndex) -> (Machine, Step) {
    match m_node(m, f) {
        Tree::Leaf => {
            let (m1, r) = m_push_raw(m, TreeEntry { left: Some(a), right: None });
            (m1, Step::Value(r))
        },
        Tree::Stem(x) => {
            let (m1, r) = m_push_raw(m, TreeEntry { left: Some(x), right: Some(a) });
            (m1, Step::Value(r))
        },
        Tree::Fork(l, y) => match m_node(m, l) {
            Tree::Leaf => (m, Step::Value(y)),
            Tree::Stem(x) => {
                let (m1, hit) = m_check(m, f, a);
                match hit {
                    Some(c) => (m1, Step::Value(c)),
                    None => (m_set(m1, m1.cache, m1.st.push(EvalFrame::SRight { y, b: a })), Step::Tail(x, a)),
                }
            },
            Tree::Fork(w, x) => match m_node(m, a) {
                Tree::Leaf => (m, Step::Value(w)),
                Tree::Stem(u) => {
                    let (m1, hit) = m_check(m, f, a);
                    match hit {
                        Some(c) => (m1, Step::Value(c)),
                        None => (m1, Step::Tail(x, u)),
                    }
                },
                Tree::Fork(u, v) => {
                    let (m1, hit) = m_check(m, f, a);
                    match hit {
                        Some(c) => (m1, Step::Value(c)),
                        None => (m_set(m1, m1.cache, m1.st.push(EvalFrame::ForkV { v })), Step::Tail(y, u)),
                    }
                },
            },
        },
    }
}

/// Feeding the value `v` to the stack: the cache frames on top record it, and the next frame
/// gives the next application.
spec fn m_unwind(m: Machine, v: TreeIndex) -> (Machine, Option<(TreeIndex, TreeIndex)>) {
    let rest = below_cache(m.st);
    let c = recorded(m.cache, m.st, v.idx);
    if rest.len() == 0 {
        (m_set(m, c, Seq::empty()), None)
    } else {
        match rest.last() {
            EvalFrame::SRight { y, b } => (
                m_set(m, c, rest.drop_last().push(EvalFrame::SApply { left_result: v })),
                Some((y, b)),
            ),
            EvalFrame::SApply { left_result } => (m_set(m, c, rest.drop_last()), Some((left_result, v))),
            EvalFrame::ForkV { v: w } => (m_set(m, c, rest.drop_last()), Some((v, w))),
            EvalFrame::Cache { .. } => (m_set(m, c, rest), None),
        }
    }
}

/// Pushing a frame pushes its meaning.
proof fn lemma_conts_push(es: Seq<TreeEntry>, st: Seq<EvalFrame>, fr: EvalFrame)
    ensures
        conts(es, st.push(fr)) == conts(es, st) + seq![cont_of(es, fr)],
{
    assert(conts(es, st.push(fr)) =~= conts(es, st) + seq![cont_of(es, fr)]);
}

/// The stack's meaning is its lower frames' and then its top's.
proof fn lemma_conts_pop(es: Seq<TreeEntry>, st: Seq<EvalFrame>)
    requires
        st.len() > 0,
    ensures
        conts(es, st) == conts(es, st.drop_last()) + seq![cont_of(es, st.last())],
{
    assert(conts(es, st) =~= conts(es, st.drop_last()) + seq![cont_of(es, st.last())]);
}

/// The stack keeps its meaning when entries are added.
proof fn lemma_conts_grows(es: Seq<TreeEntry>, es2: Seq<TreeEntry>, st: Seq<EvalFrame>)
    requires
        grows(es, es2),
        stack_ok(es, st),
    ensures
        conts(es2, st) == conts(es, st),
        stack_ok(es2, st),
{
    assert forall|j: int| 0 <= j < st.len() implies #[trigger] conts(es2, st)[j] == conts(es, st)[j] by {
        assert(frame_ok(st[j], es.len() as int));
        match st[j] {
            EvalFrame::SRight { y, b } => {
                lemma_term_grows(es, es2, y.idx as int);
                lemma_term_grows(es, es2, b.idx as int);
            },
            EvalFrame::SApply { left_result } => {
                lemma_term_grows(es, es2, left_result.idx as int);
            },
            EvalFrame::ForkV { v } => {
                lemma_term_grows(es, es2, v.idx as int);
            },
            EvalFrame::Cache { a, b } => {
                lemma_term_grows(es, es2, a.idx as int);
                lemma_term_grows(es, es2, b.idx as int);
            },
        }
    }
    assert(conts(es2, st) =~= conts(es, st));
    assert forall|j: int| 0 <= j < st.len() implies frame_ok(#[trigger] st[j], es2.len() as int) by {
        assert(frame_ok(st[j], es.len() as int));
    }
}

impl Trees {
    /// The arena's invariant while a reduction is under way.
    spec fn reducing_ok(&self) -> bool {
        self.well_shaped() && self.tables_ok() && stack_ok(self.entries@, self.eval_stack@)
    }

    /// The reduction stack, as mathematics.
    spec fn pending(&self) -> Seq<Cont> {
        conts(self.entries@, self.eval_stack@)
    }

    // Reduction ----------------------------------------------------------------

    /// Applications of small indices are cached.
    fn should_cache(&self, a: TreeIndex, b: TreeIndex) -> (r: bool)
        ensures
            r == (a@ <= MAX_TREE_IDX_TO_BE_CACHED && b@ <= MAX_TREE_IDX_TO_BE_CACHED),
    {
        a.raw() <= MAX_TREE_IDX_TO_BE_CACHED && b.raw() <= MAX_TREE_IDX_TO_BE_CACHED
    }

    /// The entered application `f arg`: its cached normal form, or else (when it may be cached)
    /// a frame that records its normal form once it is known.
    fn check_cache(
        &mut self,
        f: TreeIndex,
        arg: TreeIndex,
        Ghost(top_f): Ghost<Term>,
        Ghost(top_z): Ghost<Term>,
        Ghost(g): Ghost<nat>,
    ) -> (res: (Option<TreeIndex>, Ghost<nat>))
        requires
            old(self).reducing_ok(),
            old(self).valid(f),
            old(self).valid(arg),
            machine_ok(Focus::Entered(old(self).term(f), old(self).term(arg)), old(self).pending(), top_f, top_z),
        ensures
            final(self).reducing_ok(),
            final(self).entries == old(self).entries,
            final(self).indexed_trees == old(self).indexed_trees,
            final(self).cached_applications == old(self).cached_applications,
            (final(self).machine(), res.0) == m_check(old(self).machine(), f, arg),
            ({
                let should = f@ <= MAX_TREE_IDX_TO_BE_CACHED && arg@ <= MAX_TREE_IDX_TO_BE_CACHED;
                let hit = should && old(self).cache().contains_key((f@, arg@));
                match res.0 {
                    Some(c) => hit && c@ == old(self).cache()[(f@, arg@)],
                    None => !hit && final(self).eval_stack@ == if should {
                        old(self).eval_stack@.push(EvalFrame::Cache { a: f, b: arg })
                    } else {
                        old(self).eval_stack@
                    },
                }
            }),
            match res.0 {
                Some(c) => {
                    &&& final(self).eval_stack@ == old(self).eval_stack@
                    &&& final(self).valid(c)
                    &&& machine_ok(Focus::Value(final(self).term(c)), final(self).pending(), top_f, top_z)
                    &&& res.1@ <= g
                    &&& (run(Focus::Entered(old(self).term(f), old(self).term(arg)), old(self).pending(), g) is Some
                        ==> run(Focus::Value(final(self).term(c)), final(self).pending(), res.1@)
                        == run(Focus::Entered(old(self).term(f), old(self).term(arg)), old(self).pending(), g))
                },
                None => {
                    &&& machine_ok(Focus::Entered(old(self).term(f), old(self).term(arg)), final(self).pending(), top_f, top_z)
                    &&& res.1@ == g
                    &&& forall|m: nat| #[trigger] run(Focus::Entered(old(self).term(f), old(self).term(arg)), final(self).pending(), m)
                        == run(Focus::Entered(old(self).term(f), old(self).term(arg)), old(self).pending(), m)
                },
            },
    {
        let ghost tf = self.term(f);
        let ghost ta = self.term(arg);
        let ghost x = Focus::Entered(tf, ta);
        if self.should_cache(f, arg) {
            match pair_map_get(&self.cached_applications, (f.raw(), arg.raw())) {
                Some(cached) => {
                    let c = TreeIndex::new(cached);
                    let ghost tc = self.term(c);
                    let ghost g2: nat = if rule(tf, ta, g) is Some {
                        rule(tf, ta, g).unwrap().1
                    } else {
                        g
                    };
                    proof {
                        lemma_rule_spends(tf, ta, g);
                        lemma_cache_hit(tf, ta, tc);
                        let p = self.pending();
                        assert(p + seq![] =~= p);
                        lemma_transfer(x, p, seq![], Focus::Value(tc), seq![], top_f, top_z);
                    }
                    return (Some(c), Ghost(g2));
                },
                None => {},
            }
            let ghost st = self.eval_stack@;
            self.eval_stack.push(EvalFrame::Cache { a: f, b: arg });
            proof {
                lemma_conts_push(self.entries@, st, EvalFrame::Cache { a: f, b: arg });
                lemma_cache_push(tf, ta, old(self).pending(), top_f, top_z);
                assert forall|j: int| 0 <= j < self.eval_stack@.len() implies frame_ok(
                    #[trigger] self.eval_stack@[j],
                    self.entries@.len() as int,
                ) by {
                    if j < st.len() {
                        assert(self.eval_stack@[j] == st[j]);
                    }
                }
            }
        }
        (None, Ghost(g))
    }
}


impl Trees {
    /// Applies the rule of the entered application `f arg`: either it has a value at once
    /// (possibly from the cache), or the reduction goes on with a new application.
    fn dispatch(
        &mut self,
        f: TreeIndex,
        arg: TreeIndex,
        Ghost(top_f): Ghost<Term>,
        Ghost(top_z): Ghost<Term>,
        Ghost(g): Ghost<nat>,
    ) -> (res: (Step, Ghost<nat>))
        requires
            old(self).reducing_ok(),
            old(self).valid(f),
            old(self).valid(arg),
            old(self).has_room(1),
            machine_ok(Focus::Entered(old(self).term(f), old(self).term(arg)), old(self).pending(), top_f, top_z),
        ensures
            final(self).reducing_ok(),
            grows(old(self).entries@, final(self).entries@),
            final(self).entries@.len() <= old(self).entries@.len() + 1,
            final(self).indexed_trees == old(self).indexed_trees,
            final(self).cached_applications == old(self).cached_applications,
            (final(self).machine(), res.0) == m_dispatch(old(self).machine(), f, arg),
            match res.0 {
                Step::Value(v) => {
                    &&& final(self).valid(v)
                    &&& machine_ok(Focus::Value(final(self).term(v)), final(self).pending(), top_f, top_z)
                    &&& res.1@ <= g
                    &&& (run(Focus::Entered(old(self).term(f), old(self).term(arg)), old(self).pending(), g) is Some
                        ==> run(Focus::Value(final(self).term(v)), final(self).pending(), res.1@)
                        == run(Focus::Entered(old(self).term(f), old(self).term(arg)), old(self).pending(), g))
                },
                Step::Tail(nf, na) => {
                    &&& final(self).entries@ == old(self).entries@
                    &&& final(self).valid(nf)
                    &&& final(self).valid(na)
                    &&& machine_ok(Focus::Pending(final(self).term(nf), final(self).term(na)), final(self).pending(), top_f, top_z)
                    &&& res.1@ == g
                    &&& forall|m: nat| #[trigger] run(Focus::Pending(final(self).term(nf), final(self).term(na)), final(self).pending(), m)
                        == run(Focus::Entered(old(self).term(f), old(self).term(arg)), old(self).pending(), m)
                },
            },
    {
        let ghost tf = self.term(f);
        let ghost ta = self.term(arg);
        let ghost x = Focus::Entered(tf, ta);
        let ghost p = self.pending();
        proof {
            assert(p + seq![] =~= p);
        }
        match self.index(f) {
            Tree::Leaf => {
                let r = self.insert_raw(TreeEntry::stem(arg));
                proof {
                    self.lemma_after_raw_stem(&*old(self), r, arg, x, top_f, top_z);
                    assert(immediate(tf, ta) == Some(self.term(r)));
                    lemma_immediate(tf, ta, self.term(r));
                    lemma_transfer(x, p, seq![], Focus::Value(self.term(r)), seq![], top_f, top_z);
                }
                (Step::Value(r), Ghost(g))
            },
            Tree::Stem(a) => {
                let r = self.insert_raw(TreeEntry::fork(a, arg));
                proof {
                    self.lemma_after_raw_fork(&*old(self), r, a, arg, x, top_f, top_z);
                    assert(immediate(tf, ta) == Some(self.term(r)));
                    lemma_immediate(tf, ta, self.term(r));
                    lemma_transfer(x, p, seq![], Focus::Value(self.term(r)), seq![], top_f, top_z);
                }
                (Step::Value(r), Ghost(g))
            },
            Tree::Fork(left, right) => match self.index(left) {
                Tree::Leaf => {
                    proof {
                        assert(immediate(tf, ta) == Some(self.term(right)));
                        lemma_immediate(tf, ta, self.term(right));
                        lemma_transfer(x, p, seq![], Focus::Value(self.term(right)), seq![], top_f, top_z);
                    }
                    (Step::Value(right), Ghost(g))
                },
                // S-rule: Fork(Stem(x), y) z -> (x z) (y z)
                Tree::Stem(x_idx) => {
                    let (hit, Ghost(g2)) = self.check_cache(f, arg, Ghost(top_f), Ghost(top_z), Ghost(g));
                    if let Some(cached) = hit {
                        return (Step::Value(cached), Ghost(g2));
                    }
                    let ghost st = self.eval_stack@;
                    let ghost p1 = self.pending();
                    let ghost tx = self.term(x_idx);
                    let ghost ty = self.term(right);
                    self.eval_stack.push(EvalFrame::SRight { y: right, b: arg });
                    proof {
                        lemma_conts_push(self.entries@, st, EvalFrame::SRight { y: right, b: arg });
                        self.lemma_stack_push_ok(st, EvalFrame::SRight { y: right, b: arg });
                        assert(tf == fork(stem(tx), ty));
                        lemma_s_rule(tx, ty, ta);
                        assert(p1 + seq![] =~= p1);
                        lemma_transfer(x, p1, seq![], Focus::Pending(tx, ta), seq![Cont::SRight(ty, ta)], top_f, top_z);
                    }
                    (Step::Tail(x_idx, arg), Ghost(g))
                },
                // Triage: Fork(Fork(w, x), y) z
                Tree::Fork(w, x_idx) => match self.index(arg) {
                    Tree::Leaf => {
                        proof {
                            assert(immediate(tf, ta) == Some(self.term(w)));
                            lemma_immediate(tf, ta, self.term(w));
                            lemma_transfer(x, p, seq![], Focus::Value(self.term(w)), seq![], top_f, top_z);
                        }
                        (Step::Value(w), Ghost(g))
                    },
                    // Stem-triage: Fork(Fork(w, x), y) Stem(u) -> x u
                    Tree::Stem(u) => {
                        let (hit, Ghost(g2)) = self.check_cache(f, arg, Ghost(top_f), Ghost(top_z), Ghost(g));
                        if let Some(cached) = hit {
                            return (Step::Value(cached), Ghost(g2));
                        }
                        proof {
                            let p1 = self.pending();
                            assert(tf == fork(fork(self.term(w), self.term(x_idx)), self.term(right)));
                            assert(ta == stem(self.term(u)));
                            lemma_triage_stem(self.term(w), self.term(x_idx), self.term(right), self.term(u));
                            assert(p1 + seq![] =~= p1);
                            lemma_transfer(x, p1, seq![], Focus::Pending(self.term(x_idx), self.term(u)), seq![], top_f, top_z);
                        }
                        (Step::Tail(x_idx, u), Ghost(g))
                    },
                    // Fork-triage: Fork(Fork(w, x), y) Fork(u, v) -> (y u) v
                    Tree::Fork(u, v) => {
                        let (hit, Ghost(g2)) = self.check_cache(f, arg, Ghost(top_f), Ghost(top_z), Ghost(g));
                        if let Some(cached) = hit {
                            return (Step::Value(cached), Ghost(g2));
                        }
                        let ghost st = self.eval_stack@;
                        let ghost p1 = self.pending();
                        self.eval_stack.push(EvalFrame::ForkV { v });
                        proof {
                            lemma_conts_push(self.entries@, st, EvalFrame::ForkV { v });
                            self.lemma_stack_push_ok(st, EvalFrame::ForkV { v });
                            let (tw, tx, ty, tu, tv) = (self.term(w), self.term(x_idx), self.term(right), self.term(u), self.term(v));
                            assert(tf == fork(fork(tw, tx), ty));
                            assert(ta == fork(tu, tv));
                            lemma_triage_fork(tw, tx, ty, tu, tv);
                            assert(p1 + seq![] =~= p1);
                            lemma_transfer(x, p1, seq![], Focus::Pending(ty, tu), seq![Cont::ForkV(tv)], top_f, top_z);
                        }
                        (Step::Tail(right, u), Ghost(g))
                    },
                },
            },
        }
    }

    /// A frame with valid indices keeps the stack valid.
    proof fn lemma_stack_push_ok(&self, st: Seq<EvalFrame>, fr: EvalFrame)
        requires
            stack_ok(self.entries@, st),
            frame_ok(fr, self.entries@.len() as int),
            self.eval_stack@ == st.push(fr),
        ensures
            stack_ok(self.entries@, self.eval_stack@),
    {
        assert forall|j: int| 0 <= j < self.eval_stack@.len() implies frame_ok(
            #[trigger] self.eval_stack@[j],
            self.entries@.len() as int,
        ) by {
            if j < st.len() {
                assert(self.eval_stack@[j] == st[j]);
            }
        }
    }

    /// After appending `Stem(arg)`: the old terms, the stack and the invariant are kept.
    proof fn lemma_after_raw_stem(&self, old: &Trees, r: TreeIndex, arg: TreeIndex, x: Focus, top_f: Term, top_z: Term)
        requires
            old.reducing_ok(),
            old.valid(arg),
            self.well_shaped(),
            self.tables_ok(),
            self.entries@ == old.entries@.push(TreeEntry::stem_spec(arg)),
            self.eval_stack@ == old.eval_stack@,
            r@ == old.entries@.len(),
            machine_ok(x, old.pending(), top_f, top_z),
        ensures
            self.reducing_ok(),
            grows(old.entries@, self.entries@),
            self.valid(r),
            self.term(r) == stem(old.term(arg)),
            self.pending() == old.pending(),
            forall|i: TreeIndex| old.valid(i) ==> #[trigger] self.term(i) == old.term(i),
    {
        let es = old.entries@;
        let es2 = self.entries@;
        assert(grows(es, es2));
        lemma_conts_grows(es, es2, old.eval_stack@);
        lemma_term_grows(es, es2, arg@ as int);
        assert forall|i: TreeIndex| old.valid(i) implies #[trigger] self.term(i) == old.term(i) by {
            lemma_term_grows(es, es2, i@ as int);
        }
    }

    /// After appending `Fork(a, arg)`: the old terms, the stack and the invariant are kept.
    proof fn lemma_after_raw_fork(
        &self,
        old: &Trees,
        r: TreeIndex,
        a: TreeIndex,
        arg: TreeIndex,
        x: Focus,
        top_f: Term,
        top_z: Term,
    )
        requires
            old.reducing_ok(),
            old.valid(a),
            old.valid(arg),
            self.well_shaped(),
            self.tables_ok(),
            self.entries@ == old.entries@.push(TreeEntry::fork_spec(a, arg)),
            self.eval_stack@ == old.eval_stack@,
            r@ == old.entries@.len(),
            machine_ok(x, old.pending(), top_f, top_z),
        ensures
            self.reducing_ok(),
            grows(old.entries@, self.entries@),
            self.valid(r),
            self.term(r) == fork(old.term(a), old.term(arg)),
            self.pending() == old.pending(),
            forall|i: TreeIndex| old.valid(i) ==> #[trigger] self.term(i) == old.term(i),
    {
        let es = old.entries@;
        let es2 = self.entries@;
        assert(grows(es, es2));
        lemma_conts_grows(es, es2, old.eval_stack@);
        lemma_term_grows(es, es2, arg@ as int);
        lemma_term_grows(es, es2, a@ as int);
        assert forall|i: TreeIndex| old.valid(i) implies #[trigger] self.term(i) == old.term(i) by {
            lemma_term_grows(es, es2, i@ as int);
        }
    }

    /// Feeds the value `result` to the stack: records it in the cache frames on top, and gives
    /// the next application to compute, or `None` when nothing is left to do.
    fn unwind(&mut self, result: TreeIndex, Ghost(top_f): Ghost<Term>, Ghost(top_z): Ghost<Term>) -> (res: Option<
        (TreeIndex, TreeIndex),
    >)
        requires
            old(self).reducing_ok(),
            old(self).valid(result),
            machine_ok(Focus::Value(old(self).term(result)), old(self).pending(), top_f, top_z),
        ensures
            final(self).reducing_ok(),
            final(self).entries == old(self).entries,
            final(self).indexed_trees == old(self).indexed_trees,
            old(self).cache().dom().subset_of(final(self).cache().dom()),
            final(self).cache() == recorded(old(self).cache(), old(self).eval_stack@, result@),
            (final(self).machine(), res) == m_unwind(old(self).machine(), result),
            ({
                let rest = below_cache(old(self).eval_stack@);
                if rest.len() == 0 {
                    res is None
                } else {
                    match rest.last() {
                        EvalFrame::SRight { y, b } => res == Some((y, b)) && final(self).eval_stack@
                            == rest.drop_last().push(EvalFrame::SApply { left_result: result }),
                        EvalFrame::SApply { left_result } => res == Some((left_result, result))
                            && final(self).eval_stack@ == rest.drop_last(),
                        EvalFrame::ForkV { v } => res == Some((result, v)) && final(self).eval_stack@
                            == rest.drop_last(),
                        EvalFrame::Cache { .. } => false,
                    }
                }
            }),
            match res {
                None => {
                    &&& final(self).eval_stack@.len() == 0
                    &&& reduces(top_f, top_z, old(self).term(result))
                    &&& forall|m: nat| #[trigger] run(Focus::Value(old(self).term(result)), old(self).pending(), m)
                        == Some((old(self).term(result), m))
                },
                Some((nf, na)) => {
                    &&& final(self).valid(nf)
                    &&& final(self).valid(na)
                    &&& machine_ok(Focus::Pending(final(self).term(nf), final(self).term(na)), final(self).pending(), top_f, top_z)
                    &&& forall|m: nat| #[trigger] run(Focus::Pending(final(self).term(nf), final(self).term(na)), final(self).pending(), m)
                        == run(Focus::Value(old(self).term(result)), old(self).pending(), m)
                },
            },
    {
        let ghost r = self.term(result);
        loop
            invariant
                self.reducing_ok(),
                self.entries == old(self).entries,
                self.indexed_trees == old(self).indexed_trees,
                old(self).cache().dom().subset_of(self.cache().dom()),
                recorded(self.cache(), self.eval_stack@, result@) == recorded(old(self).cache(), old(self).eval_stack@, result@),
                below_cache(self.eval_stack@) == below_cache(old(self).eval_stack@),
                self.valid(result),
                r == self.term(result),
                machine_ok(Focus::Value(r), self.pending(), top_f, top_z),
                forall|m: nat| #[trigger] run(Focus::Value(r), self.pending(), m)
                    == run(Focus::Value(r), old(self).pending(), m),
            decreases self.eval_stack@.len(),
        {
            let ghost st = self.eval_stack@;
            let ghost p = self.pending();
            proof {
                if st.len() > 0 {
                    lemma_conts_pop(self.entries@, st);
                    assert(frame_ok(st.last(), self.entries@.len() as int));
                }
            }
            match self.eval_stack.pop() {
                None => {
                    proof {
                        assert(p =~= Seq::<Cont>::empty());
                        assert(self.eval_stack@ =~= Seq::<EvalFrame>::empty());
                        crate::machine::lemma_finish(r, top_f, top_z);
                        assert forall|m: nat| #[trigger] run(Focus::Value(r), old(self).pending(), m) == Some((r, m)) by {
                            assert(run(Focus::Value(r), self.pending(), m) == run(Focus::Value(r), old(self).pending(), m));
                        }
                    }
                    return None;
                },
                Some(EvalFrame::Cache { a, b }) => {
                    proof {
                        lemma_pop_cache(r, self.term(a), self.term(b), self.pending(), top_f, top_z);
                        self.lemma_stack_pop_ok(st);
                    }
                    pair_map_insert(&mut self.cached_applications, (a.raw(), b.raw()), result.raw());
                    proof {
                        let es = self.entries@;
                        let c = pair_map_contents(self.cached_applications);
                        assert forall|k: (u32, u32)| #[trigger] c.contains_key(k) implies {
                            &&& 1 <= k.0 < es.len()
                            &&& 1 <= k.1 < es.len()
                            &&& 1 <= c[k] < es.len()
                            &&& reduces(term_at(es, k.0 as int), term_at(es, k.1 as int), term_at(es, c[k] as int))
                        } by {
                            if k != (a@, b@) {
                                assert(pair_map_contents(old(self).cached_applications).contains_key(k)
                                    || old(self).cached_applications != self.cached_applications);
                            }
                        }
                    }
                },
                Some(EvalFrame::SRight { y, b }) => {
                    let ghost st1 = self.eval_stack@;
                    proof {
                        self.lemma_stack_pop_ok(st);
                    }
                    self.eval_stack.push(EvalFrame::SApply { left_result: result });
                    proof {
                        lemma_conts_push(self.entries@, st1, EvalFrame::SApply { left_result: result });
                        self.lemma_stack_push_ok(st1, EvalFrame::SApply { left_result: result });
                        let q = conts(self.entries@, st1);
                        lemma_pop_sright(r, self.term(y), self.term(b));
                        lemma_transfer(
                            Focus::Value(r),
                            q,
                            seq![Cont::SRight(self.term(y), self.term(b))],
                            Focus::Pending(self.term(y), self.term(b)),
                            seq![Cont::SApply(r)],
                            top_f,
                            top_z,
                        );
                    }
                    return Some((y, b));
                },
                Some(EvalFrame::SApply { left_result }) => {
                    proof {
                        self.lemma_stack_pop_ok(st);
                        let q = self.pending();
                        assert(q + seq![] =~= q);
                        lemma_pop_sapply(r, self.term(left_result));
                        lemma_transfer(
                            Focus::Value(r),
                            q,
                            seq![Cont::SApply(self.term(left_result))],
                            Focus::Pending(self.term(left_result), r),
                            seq![],
                            top_f,
                            top_z,
                        );
                    }
                    return Some((left_result, result));
                },
                Some(EvalFrame::ForkV { v }) => {
                    proof {
                        self.lemma_stack_pop_ok(st);
                        let q = self.pending();
                        assert(q + seq![] =~= q);
                        lemma_pop_forkv(r, self.term(v));
                        lemma_transfer(
                            Focus::Value(r),
                            q,
                            seq![Cont::ForkV(self.term(v))],
                            Focus::Pending(r, self.term(v)),
                            seq![],
                            top_f,
                            top_z,
                        );
                    }
                    return Some((result, v));
                },
            }
        }
    }

    /// Popping keeps the stack valid.
    proof fn lemma_stack_pop_ok(&self, st: Seq<EvalFrame>)
        requires
            stack_ok(self.entries@, st),
            st.len() > 0,
            self.eval_stack@ == st.drop_last(),
        ensures
            stack_ok(self.entries@, self.eval_stack@),
    {
        assert forall|j: int| 0 <= j < self.eval_stack@.len() implies frame_ok(
            #[trigger] self.eval_stack@[j],
            self.entries@.len() as int,
        ) by {
            assert(self.eval_stack@[j] == st[j]);
        }
    }
}


/// The arena grows by at most the fuel a reduction uses up, and then at most doubles when
/// the result is interned.
proof fn lemma_growth_bound(top_f: Term, top_z: Term, big: nat, g: nat, len: nat, len0: nat)
    requires
        halts_within(top_f, top_z, big),
        g == eval(top_f, top_z, big).unwrap().1,
        len < 2 * (len0 + big - g),
    ensures
        forall|n: nat| #[trigger] halts_within(top_f, top_z, n) ==> len < 2 * (len0 + spent(top_f, top_z, n)),
{
    assert forall|n: nat| #[trigger] halts_within(top_f, top_z, n) implies len < 2 * (len0 + spent(top_f, top_z, n)) by {
        law_spent_is_fixed(top_f, top_z, n, big);
    }
}

/// The machine counts no more applications than the reduction enters.
proof fn lemma_steps_bound(top_f: Term, top_z: Term, big: nat, g: nat, ok: bool, s0: nat, steps: nat, max_steps: nat)
    requires
        ok == (s0 < max_steps && halts_within(top_f, top_z, big)),
        s0 < max_steps ==> big == max_steps - s0 - 1,
        ok ==> g == eval(top_f, top_z, big).unwrap().1,
        ok ==> steps + g <= s0 + big,
        steps < max_steps,
        s0 < steps,
    ensures
        forall|n: nat| #[trigger] halts_within(top_f, top_z, n) ==> steps <= s0 + spent(top_f, top_z, n),
{
    assert forall|n: nat| #[trigger] halts_within(top_f, top_z, n) implies steps <= s0 + spent(top_f, top_z, n) by {
        if ok {
            law_spent_is_fixed(top_f, top_z, n, big);
        } else {
            crate::term::lemma_eval_spends(top_f, top_z, n);
            if spent(top_f, top_z, n) <= big {
                if n <= big {
                    crate::term::lemma_eval_more_fuel(top_f, top_z, n, (big - n) as nat);
                } else {
                    crate::term::lemma_eval_less_fuel(top_f, top_z, n, (n - big) as nat);
                }
            }
        }
    }
}

impl Trees {
    /// Entering the pending application `f arg`: one unit of fuel.
    proof fn lemma_entering(&self, f: TreeIndex, arg: TreeIndex, top_f: Term, top_z: Term)
        requires
            machine_ok(Focus::Pending(self.term(f), self.term(arg)), self.pending(), top_f, top_z),
        ensures
            machine_ok(Focus::Entered(self.term(f), self.term(arg)), self.pending(), top_f, top_z),
            forall|m: nat| #[trigger] run(Focus::Entered(self.term(f), self.term(arg)), self.pending(), m)
                == run(Focus::Pending(self.term(f), self.term(arg)), self.pending(), m + 1),
    {
        let (tf, ta) = (self.term(f), self.term(arg));
        let p = self.pending();
        lemma_enter(tf, ta);
        assert(p + seq![] =~= p);
        lemma_transfer(Focus::Pending(tf, ta), p, seq![], Focus::Entered(tf, ta), seq![], top_f, top_z);
    }

    /// The result of a reduction, interned: the one index of its tree whose nodes are all
    /// registered. The arena at most doubles.
    fn intern_result(&mut self, result: TreeIndex) -> (r: TreeIndex)
        requires
            old(self).wf(),
            old(self).valid(result),
            2 * old(self).arena_len() <= u32::MAX,
        ensures
            final(self).wf(),
            final(self).extends(old(self)),
            final(self).cache() == old(self).cache(),
            final(self).valid(r),
            final(self).interned(r),
            final(self).term(r) == old(self).term(result),
            final(self).arena_len() < 2 * old(self).arena_len(),
            (final(self).machine(), r) == intern_term(old(self).machine(), old(self).term(result)),
    {
        let ghost l0 = self.arena_len() as int;
        let mut memo = pair_map_with_capacity(64);
        let (r, Ghost(seen)) = self.intern_deep(result, &mut memo, Ghost(l0), Ghost(Set::empty()));
        proof {
            vstd::set_lib::lemma_int_range(1, l0);
            assert(seen.subset_of(vstd::set_lib::set_int_range(1, l0)));
            vstd::set_lib::lemma_len_subset(seen, vstd::set_lib::set_int_range(1, l0));
        }
        r
    }

    /// Extending is transitive.
    proof fn lemma_extends_trans(&self, mid: &Trees, old: &Trees)
        requires
            mid.extends(old),
            self.extends(mid),
        ensures
            self.extends(old),
    {
        assert forall|i: TreeIndex| old.valid(i) implies #[trigger] self.term(i) == old.term(i) by {
            assert(mid.valid(i));
            assert(self.term(i) == mid.term(i));
        }
        assert forall|i: TreeIndex| old.valid(i) implies #[trigger] self.node(i) == old.node(i) by {
            assert(mid.valid(i));
            assert(self.node(i) == mid.node(i));
        }
        assert forall|i: TreeIndex| old.valid(i) implies #[trigger] self.spine(i) == old.spine(i) by {
            assert(mid.valid(i));
            assert(self.spine(i) == mid.spine(i));
        }
        assert forall|i: TreeIndex| old.valid(i) && old.registered(i) implies #[trigger] self.registered(i) by {
            assert(mid.valid(i));
            assert(mid.registered(i));
        }
        assert forall|i: TreeIndex| old.valid(i) && old.interned(i) implies #[trigger] self.interned(i) by {
            assert(mid.valid(i));
            assert(mid.interned(i));
        }
    }

    /// The memo of `intern_deep`: it maps `(p, 0)` for each position `p` of `seen`, all below
    /// `l0`, to an interned index of the same tree.
    spec fn memo_ok(&self, memo: Map<(u32, u32), u32>, l0: int, seen: Set<int>) -> bool {
        &&& seen.finite()
        &&& forall|p: int| #[trigger] seen.contains(p) ==> 1 <= p < l0
        &&& forall|k: (u32, u32)| #[trigger] memo.contains_key(k) <==> (k.1 == 0 && seen.contains(k.0 as int))
        &&& forall|k: (u32, u32)| #[trigger] memo.contains_key(k) ==> {
            let v = TreeIndex { idx: memo[k] };
            let p = TreeIndex { idx: k.0 };
            &&& self.valid(v)
            &&& self.interned(v)
            &&& self.valid(p)
            &&& self.term(v) == self.term(p)
        }
    }

    /// The memo stays valid while the arena is extended.
    proof fn lemma_memo_extends(&self, old: &Trees, memo: Map<(u32, u32), u32>, l0: int, seen: Set<int>)
        requires
            old.memo_ok(memo, l0, seen),
            self.extends(old),
        ensures
            self.memo_ok(memo, l0, seen),
    {
        assert forall|k: (u32, u32)| #[trigger] memo.contains_key(k) implies {
            let v = TreeIndex { idx: memo[k] };
            let p = TreeIndex { idx: k.0 };
            &&& self.valid(v)
            &&& self.interned(v)
            &&& self.valid(p)
            &&& self.term(v) == self.term(p)
        } by {
            let v = TreeIndex { idx: memo[k] };
            let p = TreeIndex { idx: k.0 };
            assert(old.valid(v) && old.valid(p));
            assert(self.term(v) == old.term(v));
            assert(self.term(p) == old.term(p));
            assert(self.interned(v));
        }
    }

    /// A set of positions in `[1, l0)` that misses one of them has at most `l0 - 2` elements.
    proof fn lemma_seen_bound(seen: Set<int>, l0: int, i: int)
        requires
            seen.finite(),
            forall|p: int| #[trigger] seen.contains(p) ==> 1 <= p < l0,
            !seen.contains(i),
            1 <= i < l0,
        ensures
            seen.len() + 1 <= l0 - 1,
    {
        let s2 = seen.insert(i);
        vstd::set_lib::lemma_int_range(1, l0);
        assert(s2.subset_of(vstd::set_lib::set_int_range(1, l0)));
        vstd::set_lib::lemma_len_subset(s2, vstd::set_lib::set_int_range(1, l0));
        vstd::set::axiom_set_insert_len(seen, i);
    }

    /// Rebuilds the tree `i` from registered nodes only, bottom up, so that the result is the
    /// one interned index of its tree. `memo` remembers the positions already rebuilt; only
    /// positions below `l0` are visited, and each adds at most one entry to the arena.
    fn intern_deep(
        &mut self,
        i: TreeIndex,
        memo: &mut PairMap,
        Ghost(l0): Ghost<int>,
        Ghost(seen): Ghost<Set<int>>,
    ) -> (res: (TreeIndex, Ghost<Set<int>>))
        requires
            old(self).wf(),
            1 <= i@ < l0,
            l0 <= old(self).arena_len(),
            2 * l0 <= u32::MAX,
            old(self).memo_ok(pair_map_contents(*old(memo)), l0, seen),
            old(self).arena_len() <= l0 + seen.len(),
        ensures
            final(self).wf(),
            final(self).extends(old(self)),
            final(self).cache() == old(self).cache(),
            final(self).valid(res.0),
            final(self).interned(res.0),
            final(self).term(res.0) == old(self).term(i),
            (final(self).machine(), res.0) == intern_term(old(self).machine(), old(self).term(i)),
            final(self).memo_ok(pair_map_contents(*final(memo)), l0, res.1@),
            final(self).arena_len() <= l0 + res.1@.len(),
            seen.subset_of(res.1@),
            forall|p: int| #[trigger] res.1@.contains(p) ==> seen.contains(p) || p <= i@,
        decreases i@,
    {
        let key = (i.raw(), 0u32);
        match pair_map_get(memo, key) {
            Some(v) => {
                proof {
                    assert(pair_map_contents(*memo).contains_key(key));
                    lemma_intern_present(self.machine(), v as int);
                }
                return (TreeIndex::new(v), Ghost(seen));
            },
            None => {},
        }
        proof {
            assert(!seen.contains(i@ as int)) by {
                if seen.contains(i@ as int) {
                    assert(pair_map_contents(*memo).contains_key(key));
                }
            }
        }
        let ghost t0 = *self;
        let ghost memo0 = pair_map_contents(*memo);
        let (r, Ghost(seen2)) = match self.index(i) {
            Tree::Leaf => {
                let r = self.leaf();
                (r, Ghost(seen))
            },
            Tree::Stem(c) => {
                let (c2, Ghost(s1)) = self.intern_deep(c, memo, Ghost(l0), Ghost(seen));
                proof {
                    Self::lemma_seen_bound(s1, l0, i@ as int);
                }
                let ghost t1 = *self;
                let r = self.insert(TreeEntry::stem(c2));
                proof {
                    self.lemma_node(r);
                    self.lemma_stem_consing(&t1, r, c2);
                    self.lemma_memo_extends(&t1, pair_map_contents(*memo), l0, s1);
                }
                (r, Ghost(s1))
            },
            Tree::Fork(left, right) => {
                let (l2, Ghost(s1)) = self.intern_deep(left, memo, Ghost(l0), Ghost(seen));
                let ghost t1 = *self;
                let (r2, Ghost(s2)) = self.intern_deep(right, memo, Ghost(l0), Ghost(s1));
                proof {
                    Self::lemma_seen_bound(s2, l0, i@ as int);
                    assert(self.interned(l2));
                    assert(t1.term(right) == t0.term(right));
                }
                let ghost t2 = *self;
                let r = self.insert(TreeEntry::fork(l2, r2));
                proof {
                    self.lemma_node(r);
                    self.lemma_fork_consing(&t2, r, l2, r2);
                    self.lemma_memo_extends(&t2, pair_map_contents(*memo), l0, s2);
                }
                (r, Ghost(s2))
            },
        };
        let ghost memo2 = pair_map_contents(*memo);
        pair_map_insert(memo, key, r.raw());
        let ghost seen3 = seen2.insert(i@ as int);
        proof {
            vstd::set::axiom_set_insert_len(seen2, i@ as int);
            let m3 = pair_map_contents(*memo);
            assert(self.term(i) == t0.term(i));
            assert forall|k: (u32, u32)| #[trigger] m3.contains_key(k) implies {
                let v = TreeIndex { idx: m3[k] };
                let p = TreeIndex { idx: k.0 };
                &&& self.valid(v)
                &&& self.interned(v)
                &&& self.valid(p)
                &&& self.term(v) == self.term(p)
            } by {
                if k != key {
                    assert(memo2.contains_key(k));
                } else {
                    lemma_index_eq(TreeIndex { idx: k.0 }, i);
                    lemma_index_eq(TreeIndex { idx: m3[k] }, r);
                }
            }
            assert forall|k: (u32, u32)| #[trigger] m3.contains_key(k) <==> (k.1 == 0 && seen3.contains(k.0 as int)) by {
                if k != key {
                    assert(m3.contains_key(k) == memo2.contains_key(k));
                }
            }
        }
        (r, Ghost(seen3))
    }

    /// The reduction machine: enters applications, applies their rules, and feeds values to the
    /// stack until nothing is left to do. Ghost fuel `g`, enough for the whole reduction, goes
    /// down with every application entered, which is why the loops end.
    fn apply_inner(&mut self, f0: TreeIndex, arg0: TreeIndex) -> (r: TreeIndex)
        requires
            old(self).wf(),
            old(self).valid(f0),
            old(self).valid(arg0),
            exists|n: nat| halts_within(old(self).term(f0), old(self).term(arg0), n)
                && 2 * (old(self).arena_len() + n) <= u32::MAX,
        ensures
            final(self).wf(),
            final(self).extends(old(self)),
            final(self).valid(r),
            final(self).interned(r),
            reduces(old(self).term(f0), old(self).term(arg0), final(self).term(r)),
            old(self).cache().dom().subset_of(final(self).cache().dom()),
            exists|c: nat| #[trigger] run_outer(old(self).machine(), f0, arg0, 0, c + 1)
                == (Ok::<TreeIndex, TreeIndex>(r), c, final(self).machine()),
            forall|n: nat| #[trigger] halts_within(old(self).term(f0), old(self).term(arg0), n)
                ==> final(self).arena_len() < 2 * (old(self).arena_len() + spent(old(self).term(f0), old(self).term(arg0), n)),
    {
        let ghost top_f = self.term(f0);
        let ghost top_z = self.term(arg0);
        let ghost big: nat = choose|n: nat| halts_within(top_f, top_z, n) && 2 * (self.arena_len() + n) <= u32::MAX;
        let ghost answer = eval(top_f, top_z, big);
        let ghost len0 = self.entries@.len();
        let mut f = f0;
        let mut arg = arg0;
        let ghost mut g: nat = big;
        let ghost mx: nat = big + 2;
        let ghost mut cnt: nat = 0;
        let ghost goal = run_outer(self.machine(), f0, arg0, 0, mx);
        proof {
            lemma_start(top_f, top_z);
            assert(self.pending() =~= Seq::<Cont>::empty());
            assert(grows(self.entries@, self.entries@));
        }
        loop
            invariant
                self.reducing_ok(),
                grows(old(self).entries@, self.entries@),
                self.indexed_trees == old(self).indexed_trees,
                self.valid(f),
                self.valid(arg),
                machine_ok(Focus::Pending(self.term(f), self.term(arg)), self.pending(), top_f, top_z),
                run(Focus::Pending(self.term(f), self.term(arg)), self.pending(), g) == answer,
                answer is Some,
                answer == eval(top_f, top_z, big),
                self.entries@.len() + g <= len0 + big,
                2 * (len0 + big) <= u32::MAX,
                old(self).cache().dom().subset_of(self.cache().dom()),
                cnt + g <= big,
                mx == big + 2,
                run_outer(self.machine(), f, arg, cnt, mx) == goal,
                goal == run_outer(old(self).machine(), f0, arg0, 0, mx),
                len0 == old(self).entries@.len(),
                top_f == old(self).term(f0),
                top_z == old(self).term(arg0),
            decreases g,
        {
            let ghost g_top = g;
            proof {
                self.lemma_entering(f, arg, top_f, top_z);
                assert(g > 0);
                assert(run_outer(self.machine(), f, arg, cnt, mx) == run_inner(self.machine(), f, arg, cnt + 1, mx));
                g = (g - 1) as nat;
                cnt = cnt + 1;
            }
            let mut result = f;
            loop
                invariant_except_break
                    self.valid(f),
                    self.valid(arg),
                    machine_ok(Focus::Entered(self.term(f), self.term(arg)), self.pending(), top_f, top_z),
                    run(Focus::Entered(self.term(f), self.term(arg)), self.pending(), g) == answer,
                    self.entries@.len() + g + 1 <= len0 + big,
                    run_inner(self.machine(), f, arg, cnt, mx) == goal,
                invariant
                    cnt + g <= big,
                    mx == big + 2,
                    goal == run_outer(old(self).machine(), f0, arg0, 0, mx),
                    self.reducing_ok(),
                    grows(old(self).entries@, self.entries@),
                    self.indexed_trees == old(self).indexed_trees,
                    answer is Some,
                    answer == eval(top_f, top_z, big),
                    2 * (len0 + big) <= u32::MAX,
                    old(self).cache().dom().subset_of(self.cache().dom()),
                    len0 == old(self).entries@.len(),
                    g < g_top,
                ensures
                    self.valid(result),
                    machine_ok(Focus::Value(self.term(result)), self.pending(), top_f, top_z),
                    run(Focus::Value(self.term(result)), self.pending(), g) == answer,
                    self.entries@.len() + g <= len0 + big,
                    run_value(self.machine(), result, cnt, mx) == goal,
                decreases g,
            {
                let ghost es = self.entries@;
                let ghost m_in = self.machine();
                let ghost (f_in, a_in) = (f, arg);
                let ghost x_old = Focus::Entered(self.term(f), self.term(arg));
                let ghost p_old = self.pending();
                let (st, Ghost(g2)) = self.dispatch(f, arg, Ghost(top_f), Ghost(top_z), Ghost(g));
                proof {
                    assert(grows(old(self).entries@, self.entries@)) by {
                        assert(grows(es, self.entries@));
                    }
                }
                match st {
                    Step::Value(v) => {
                        proof {
                            g = g2;
                            assert(run_inner(m_in, f_in, a_in, cnt, mx) == goal);
                        }
                        result = v;
                        break;
                    },
                    Step::Tail(nf, na) => {
                        f = nf;
                        arg = na;
                        proof {
                            assert(run(Focus::Pending(self.term(nf), self.term(na)), self.pending(), g) == run(x_old, p_old, g));
                            if g == 0 {
                                assert(eval(self.term(nf), self.term(na), 0) is None);
                            }
                            self.lemma_entering(f, arg, top_f, top_z);
                            assert(g > 0);
                            assert(run_inner(m_in, f_in, a_in, cnt, mx) == goal);
                            g = (g - 1) as nat;
                            cnt = cnt + 1;
                        }
                        let ghost m_mid = self.machine();
                        let (hit, Ghost(g3)) = self.check_cache(f, arg, Ghost(top_f), Ghost(top_z), Ghost(g));
                        if let Some(cached) = hit {
                            proof {
                                g = g3;
                            }
                            result = cached;
                            break;
                        }
                        proof {
                            assert(m_check(m_mid, f, arg).1 is None);
                        }
                    },
                }
            }
            let ghost m_val = self.machine();
            proof {
                assert(run_value(m_val, result, cnt, mx) == goal);
            }
            match self.unwind(result, Ghost(top_f), Ghost(top_z)) {
                Some((nf, na)) => {
                    f = nf;
                    arg = na;
                },
                None => {
                    proof {
                        assert(run(Focus::Value(self.term(result)), Seq::<Cont>::empty(), g) == answer);
                    }
                    let ghost mid = *self;
                    proof {
                        assert(pair_map_contents(self.indexed_trees).submap_of(pair_map_contents(self.indexed_trees)));
                        self.lemma_extends(&*old(self));
                    }
                    let r = self.intern_result(result);
                    proof {
                        self.lemma_extends_trans(&mid, &*old(self));
                        lemma_growth_bound(top_f, top_z, big, g, self.arena_len(), len0);
                        assert(goal == (Ok::<TreeIndex, TreeIndex>(r), cnt, self.machine()));
                        lemma_outer_settles(old(self).machine(), f0, arg0, 0, mx, cnt + 1);
                        assert(run_outer(old(self).machine(), f0, arg0, 0, cnt + 1)
                            == (Ok::<TreeIndex, TreeIndex>(r), cnt, self.machine()));
                    }
                    return r;
                },
            }
        }
    }
}


/// A bounded reduction about to count the entry of `f a`: where it ends, as its result, the
/// count of applications entered, and the state. It stops with `Err(f)` when the count
/// reaches `max`.
spec fn run_outer(m: Machine, f: TreeIndex, a: TreeIndex, steps: nat, max: nat) -> (Result<TreeIndex, TreeIndex>, nat, Machine)
    decreases (if steps < max { (max - steps) as nat } else { 0nat }), 0nat,
{
    if steps + 1 >= max {
        (Err(f), steps + 1, m_set(m, m.cache, Seq::empty()))
    } else {
        run_inner(m, f, a, steps + 1, max)
    }
}

/// A bounded reduction with `f a` entered and counted.
spec fn run_inner(m: Machine, f: TreeIndex, a: TreeIndex, steps: nat, max: nat) -> (Result<TreeIndex, TreeIndex>, nat, Machine)
    decreases (if steps < max { (max - steps) as nat } else { 0nat }), 2nat,
{
    let (m1, st) = m_dispatch(m, f, a);
    match st {
        Step::Value(v) => run_value(m1, v, steps, max),
        Step::Tail(nf, na) => if steps + 1 >= max {
            (Err(nf), steps + 1, m_set(m1, m1.cache, Seq::empty()))
        } else {
            let (m2, hit) = m_check(m1, nf, na);
            match hit {
                Some(c) => run_value(m2, c, steps + 1, max),
                None => run_inner(m2, nf, na, steps + 1, max),
            }
        },
    }
}

/// A bounded reduction with the value `v` to feed to the stack; once the stack is empty, the
/// value is interned.
spec fn run_value(m: Machine, v: TreeIndex, steps: nat, max: nat) -> (Result<TreeIndex, TreeIndex>, nat, Machine)
    decreases (if steps < max { (max - steps) as nat } else { 0nat }), 1nat,
{
    let (m1, next) = m_unwind(m, v);
    match next {
        Some((nf, na)) => run_outer(m1, nf, na, steps, max),
        None => {
            let (m2, r) = intern_term(m1, term_at(m1.es, v.idx as int));
            (Ok(r), steps, m2)
        },
    }
}

/// What `apply_bounded` does from the state `m`, with `steps` counted and a budget of `max`:
/// its result, the count of applications it has entered at the end, and the state it leaves.
pub closed spec fn bounded_run(m: Machine, f: TreeIndex, a: TreeIndex, steps: nat, max: nat) -> (Result<TreeIndex, TreeIndex>, nat, Machine) {
    run_outer(m, f, a, steps, max)
}

/// A successful run counts at least what it started with, and any budget above its final
/// count gives the same run.
proof fn lemma_outer_settles(m: Machine, f: TreeIndex, a: TreeIndex, steps: nat, mx: nat, my: nat)
    requires
        run_outer(m, f, a, steps, mx).0 is Ok,
        run_outer(m, f, a, steps, mx).1 < my,
    ensures
        run_outer(m, f, a, steps, my) == run_outer(m, f, a, steps, mx),
        run_outer(m, f, a, steps, mx).1 >= steps + 1,
        run_outer(m, f, a, steps, mx).1 < mx,
    decreases (if steps < mx { (mx - steps) as nat } else { 0nat }), 0nat,
{
    lemma_inner_settles(m, f, a, steps + 1, mx, my);
}

proof fn lemma_inner_settles(m: Machine, f: TreeIndex, a: TreeIndex, steps: nat, mx: nat, my: nat)
    requires
        run_inner(m, f, a, steps, mx).0 is Ok,
        run_inner(m, f, a, steps, mx).1 < my,
    ensures
        run_inner(m, f, a, steps, my) == run_inner(m, f, a, steps, mx),
        run_inner(m, f, a, steps, mx).1 >= steps,
        steps < mx ==> run_inner(m, f, a, steps, mx).1 < mx,
    decreases (if steps < mx { (mx - steps) as nat } else { 0nat }), 2nat,
{
    let (m1, st) = m_dispatch(m, f, a);
    match st {
        Step::Value(v) => {
            lemma_value_settles(m1, v, steps, mx, my);
        },
        Step::Tail(nf, na) => {
            if steps + 1 < mx {
                let (m2, hit) = m_check(m1, nf, na);
                match hit {
                    Some(c) => {
                        lemma_value_settles(m2, c, steps + 1, mx, my);
                    },
                    None => {
                        lemma_inner_settles(m2, nf, na, steps + 1, mx, my);
                    },
                }
            }
        },
    }
}

proof fn lemma_value_settles(m: Machine, v: TreeIndex, steps: nat, mx: nat, my: nat)
    requires
        run_value(m, v, steps, mx).0 is Ok,
        run_value(m, v, steps, mx).1 < my,
    ensures
        run_value(m, v, steps, my) == run_value(m, v, steps, mx),
        run_value(m, v, steps, mx).1 >= steps,
        steps < mx ==> run_value(m, v, steps, mx).1 < mx,
    decreases (if steps < mx { (mx - steps) as nat } else { 0nat }), 1nat,
{
    let (m1, next) = m_unwind(m, v);
    match next {
        Some((nf, na)) => {
            lemma_outer_settles(m1, nf, na, steps, mx, my);
        },
        None => {},
    }
}

/// A bounded run that succeeds has settled: every budget above its final count, larger or
/// smaller than the one it had, gives the same result, the same count and the same state.
pub proof fn law_budget_settles(m: Machine, f: TreeIndex, a: TreeIndex, steps: nat, mx: nat, my: nat)
    requires
        bounded_run(m, f, a, steps, mx).0 is Ok,
        bounded_run(m, f, a, steps, mx).1 < my,
    ensures
        bounded_run(m, f, a, steps, my) == bounded_run(m, f, a, steps, mx),
        steps < bounded_run(m, f, a, steps, mx).1 < mx,
{
    lemma_outer_settles(m, f, a, steps, mx, my);
}

/// Two budgets under which a bounded run succeeds give the same run: the same result, the
/// same count and the same state. In particular a successful bounded run does what `apply`
/// does from the same state.
pub proof fn law_budget_agree(m: Machine, f: TreeIndex, a: TreeIndex, steps: nat, m1: nat, m2: nat)
    requires
        bounded_run(m, f, a, steps, m1).0 is Ok,
        bounded_run(m, f, a, steps, m2).0 is Ok,
    ensures
        bounded_run(m, f, a, steps, m1) == bounded_run(m, f, a, steps, m2),
{
    lemma_outer_settles(m, f, a, steps, m1, run_outer(m, f, a, steps, m1).1 + 1);
    lemma_outer_settles(m, f, a, steps, m2, run_outer(m, f, a, steps, m2).1 + 1);
    lemma_outer_settles(m, f, a, steps, m1, m1 + m2);
    lemma_outer_settles(m, f, a, steps, m2, m1 + m2);
}

/// When the budget runs out right after the rule of `f a` sends the reduction on to a new
/// application, the run stops with `Err` of that application's function, not its argument:
/// `x` for the S rule `Fork(Stem(x), y) a`, `x` for `Fork(Fork(w, x), y) Stem(u)`, and `y`
/// for `Fork(Fork(w, x), y) Fork(u, v)`. (When the cache holds `f a`, its value is used instead.)
pub proof fn law_budget_stops_at_next_function(t: &Trees, f: TreeIndex, a: TreeIndex, steps: nat)
    requires
        t.wf(),
        t.valid(f),
        t.valid(a),
        !t.cache().contains_key((f@, a@)),
    ensures
        match t.node(f) {
            Tree::Fork(l, y) => match t.node(l) {
                Tree::Stem(x) => bounded_run(t.machine(), f, a, steps, steps + 2).0 == Err::<TreeIndex, TreeIndex>(x),
                Tree::Fork(w, x) => match t.node(a) {
                    Tree::Stem(u) => bounded_run(t.machine(), f, a, steps, steps + 2).0 == Err::<TreeIndex, TreeIndex>(x),
                    Tree::Fork(u, v) => bounded_run(t.machine(), f, a, steps, steps + 2).0 == Err::<TreeIndex, TreeIndex>(y),
                    Tree::Leaf => true,
                },
                Tree::Leaf => true,
            },
            _ => true,
        },
{
    let m = t.machine();
    assert(run_outer(m, f, a, steps, steps + 2) == run_inner(m, f, a, steps + 1, steps + 2));
    assert(m_node(m, f) == t.node(f));
    match t.node(f) {
        Tree::Fork(l, y) => {
            assert(m_node(m, l) == t.node(l));
            assert(m_node(m, a) == t.node(a));
            assert(m_check(m, f, a).1 is None);
        },
        _ => {},
    }
}

impl Trees {
    /// The reduction machine of `apply_inner`, counting the applications it enters in `*steps`
    /// and stopping when the count reaches `max_steps`. Where the budget is enough for the
    /// reduction (`ok`), the ghost fuel shows that the count never reaches it.
    fn apply_bounded_inner(
        &mut self,
        f0: TreeIndex,
        arg0: TreeIndex,
        steps: &mut usize,
        max_steps: usize,
    ) -> (res: Result<TreeIndex, TreeIndex>)
        requires
            old(self).wf(),
            old(self).valid(f0),
            old(self).valid(arg0),
            *old(steps) < usize::MAX,
            old(self).bounded_fits(f0, arg0, *old(steps) as nat, max_steps as nat),
        ensures
            (res, *final(steps) as nat, final(self).machine())
                == run_outer(old(self).machine(), f0, arg0, *old(steps) as nat, max_steps as nat),
            final(self).wf(),
            final(self).extends(old(self)),
            old(self).cache().dom().subset_of(final(self).cache().dom()),
            match res {
                Ok(r) => {
                    &&& final(self).valid(r)
                    &&& final(self).interned(r)
                    &&& reduces(old(self).term(f0), old(self).term(arg0), final(self).term(r))
                    &&& *old(steps) < *final(steps) < max_steps
                    &&& final(self).arena_len() < 2 * (old(self).arena_len() + *final(steps) - *old(steps))
                },
                Err(i) => {
                    &&& final(self).valid(i)
                    &&& *final(steps) == if *old(steps) < max_steps {
                        max_steps as int
                    } else {
                        *old(steps) + 1
                    }
                    &&& final(self).arena_len() + *old(steps) < old(self).arena_len() + *final(steps)
                },
            },
            *old(steps) + 1 >= max_steps ==> res == Err::<TreeIndex, TreeIndex>(f0),
            *old(steps) < max_steps && halts_within(
                old(self).term(f0),
                old(self).term(arg0),
                (max_steps - *old(steps) - 1) as nat,
            ) ==> res is Ok,
            res is Ok ==> forall|n: nat| #[trigger] halts_within(old(self).term(f0), old(self).term(arg0), n)
                ==> *final(steps) <= *old(steps) + spent(old(self).term(f0), old(self).term(arg0), n),
    {
        let ghost top_f = self.term(f0);
        let ghost top_z = self.term(arg0);
        let ghost s0: nat = *steps as nat;
        let ghost big: nat = if s0 < max_steps {
            (max_steps - s0 - 1) as nat
        } else {
            0
        };
        let ghost ok: bool = s0 < max_steps && halts_within(top_f, top_z, big);
        let ghost room: nat = if ok {
            spent(top_f, top_z, big)
        } else if s0 < max_steps {
            (max_steps - s0) as nat
        } else {
            0
        };
        let ghost answer = eval(top_f, top_z, big);
        let ghost len0 = self.entries@.len();
        let ghost goal = run_outer(self.machine(), f0, arg0, s0, max_steps as nat);
        let mut f = f0;
        let mut arg = arg0;
        let ghost mut g: nat = big;
        proof {
            lemma_start(top_f, top_z);
            assert(self.pending() =~= Seq::<Cont>::empty());
            assert(grows(self.entries@, self.entries@));
        }
        loop
            invariant
                self.reducing_ok(),
                grows(old(self).entries@, self.entries@),
                self.indexed_trees == old(self).indexed_trees,
                self.valid(f),
                self.valid(arg),
                machine_ok(Focus::Pending(self.term(f), self.term(arg)), self.pending(), top_f, top_z),
                ok ==> run(Focus::Pending(self.term(f), self.term(arg)), self.pending(), g) == answer,
                ok ==> answer is Some,
                ok ==> *steps + g <= s0 + big,
                s0 <= *steps,
                *steps < max_steps || *steps == s0,
                *steps == s0 ==> f == f0,
                run_outer(self.machine(), f, arg, *steps as nat, max_steps as nat) == goal,
                goal == run_outer(old(self).machine(), f0, arg0, s0, max_steps as nat),
                self.entries@.len() + s0 <= len0 + *steps,
                s0 < max_steps ==> 2 * (len0 + room) <= u32::MAX,
                room == (if ok { spent(top_f, top_z, big) } else if s0 < max_steps { (max_steps - s0) as nat } else { 0 }),
                old(self).cache().dom().subset_of(self.cache().dom()),
                s0 < usize::MAX,
                s0 == *old(steps),
                big == (if s0 < max_steps { (max_steps - s0 - 1) as nat } else { 0 }),
                ok == (s0 < max_steps && halts_within(top_f, top_z, big)),
                answer == eval(top_f, top_z, big),
                len0 == old(self).entries@.len(),
                top_f == old(self).term(f0),
                top_z == old(self).term(arg0),
            decreases (if *steps < max_steps {
                max_steps - *steps
            } else {
                0
            }),
        {
            proof {
                if ok && g == 0 {
                    assert(eval(self.term(f), self.term(arg), 0) is None);
                }
                if ok {
                    assert(g > 0);
                    assert(s0 + big == max_steps - 1);
                }
            }
            let ghost m_top = self.machine();
            let ghost s_top = *steps as nat;
            *steps += 1;
            if *steps >= max_steps {
                self.eval_stack.clear();
                proof {
                    self.lemma_extends(&*old(self));
                    assert(self.eval_stack@ =~= Seq::<EvalFrame>::empty());
                    assert(run_outer(m_top, f, arg, s_top, max_steps as nat) == goal);
                }
                return Err(f);
            }
            let ghost steps_top = *steps;
            proof {
                assert(run_outer(m_top, f, arg, s_top, max_steps as nat) == run_inner(m_top, f, arg, s_top + 1, max_steps as nat));
            }
            proof {
                self.lemma_entering(f, arg, top_f, top_z);
                if ok {
                    g = (g - 1) as nat;
                }
            }
            let mut result = f;
            loop
                invariant_except_break
                    self.valid(f),
                    self.valid(arg),
                    machine_ok(Focus::Entered(self.term(f), self.term(arg)), self.pending(), top_f, top_z),
                    ok ==> run(Focus::Entered(self.term(f), self.term(arg)), self.pending(), g) == answer,
                    self.entries@.len() + s0 + 1 <= len0 + *steps,
                    run_inner(self.machine(), f, arg, *steps as nat, max_steps as nat) == goal,
                invariant
                    goal == run_outer(old(self).machine(), f0, arg0, s0, max_steps as nat),
                    self.reducing_ok(),
                    grows(old(self).entries@, self.entries@),
                    self.indexed_trees == old(self).indexed_trees,
                    ok ==> answer is Some,
                    ok ==> *steps + g <= s0 + big,
                    s0 < *steps < max_steps,
                    steps_top <= *steps,
                    s0 < max_steps ==> 2 * (len0 + room) <= u32::MAX,
                room == (if ok { spent(top_f, top_z, big) } else if s0 < max_steps { (max_steps - s0) as nat } else { 0 }),
                old(self).cache().dom().subset_of(self.cache().dom()),
                    s0 == *old(steps),
                    big == (if s0 < max_steps { (max_steps - s0 - 1) as nat } else { 0 }),
                    ok == (s0 < max_steps && halts_within(top_f, top_z, big)),
                    answer == eval(top_f, top_z, big),
                    len0 == old(self).entries@.len(),
                    top_f == old(self).term(f0),
                    top_z == old(self).term(arg0),
                ensures
                    self.valid(result),
                    machine_ok(Focus::Value(self.term(result)), self.pending(), top_f, top_z),
                    ok ==> run(Focus::Value(self.term(result)), self.pending(), g) == answer,
                    self.entries@.len() + s0 <= len0 + *steps,
                    run_value(self.machine(), result, *steps as nat, max_steps as nat) == goal,
                decreases max_steps - *steps,
            {
                let ghost es = self.entries@;
                let ghost m_in = self.machine();
                let ghost (f_in, a_in, s_in) = (f, arg, *steps as nat);
                let ghost x_old = Focus::Entered(self.term(f), self.term(arg));
                let ghost p_old = self.pending();
                proof {
                    if ok {
                        crate::machine::lemma_run_spends(x_old, p_old, g);
                    }
                }
                let (st, Ghost(g2)) = self.dispatch(f, arg, Ghost(top_f), Ghost(top_z), Ghost(g));
                proof {
                    assert(grows(old(self).entries@, self.entries@)) by {
                        assert(grows(es, self.entries@));
                    }
                }
                match st {
                    Step::Value(v) => {
                        proof {
                            if ok {
                                g = g2;
                            }
                            assert(run_inner(m_in, f_in, a_in, s_in, max_steps as nat) == goal);
                        }
                        result = v;
                        break;
                    },
                    Step::Tail(nf, na) => {
                        f = nf;
                        arg = na;
                        proof {
                            assert(run(Focus::Pending(self.term(nf), self.term(na)), self.pending(), g) == run(x_old, p_old, g));
                            if ok && g == 0 {
                                assert(eval(self.term(nf), self.term(na), 0) is None);
                            }
                            if ok {
                                assert(g > 0);
                                assert(s0 + big == max_steps - 1);
                            }
                        }
                        let ghost m_mid = self.machine();
                        *steps += 1;
                        if *steps >= max_steps {
                            self.eval_stack.clear();
                            proof {
                                self.lemma_extends(&*old(self));
                                assert(self.eval_stack@ =~= Seq::<EvalFrame>::empty());
                                assert(run_inner(m_in, f_in, a_in, s_in, max_steps as nat) == goal);
                            }
                            return Err(f);
                        }
                        proof {
                            assert(run_inner(m_in, f_in, a_in, s_in, max_steps as nat) == goal);
                        }
                        proof {
                            self.lemma_entering(f, arg, top_f, top_z);
                            if ok {
                                g = (g - 1) as nat;
                            }
                        }
                        let (hit, Ghost(g3)) = self.check_cache(f, arg, Ghost(top_f), Ghost(top_z), Ghost(g));
                        if let Some(cached) = hit {
                            proof {
                                if ok {
                                    g = g3;
                                }
                            }
                            result = cached;
                            break;
                        }
                        proof {
                            assert(m_check(m_mid, f, arg).1 is None);
                        }
                    },
                }
            }
            let ghost m_val = self.machine();
            proof {
                assert(run_value(m_val, result, *steps as nat, max_steps as nat) == goal);
            }
            match self.unwind(result, Ghost(top_f), Ghost(top_z)) {
                Some((nf, na)) => {
                    f = nf;
                    arg = na;
                },
                None => {
                    let ghost mid = *self;
                    proof {
                        if ok {
                            assert(g == answer.unwrap().1);
                        }
                        lemma_steps_bound(top_f, top_z, big, g, ok, s0, *steps as nat, max_steps as nat);
                        assert(pair_map_contents(self.indexed_trees).submap_of(pair_map_contents(self.indexed_trees)));
                        self.lemma_extends(&*old(self));
                    }
                    let r = self.intern_result(result);
                    proof {
                        self.lemma_extends_trans(&mid, &*old(self));
                    }
                    return Ok(r);
                },
            }
        }
    }
}


impl Trees {
    /// Enough fuel exists for `f arg` to reach its normal form, and the arena has room for
    /// the nodes that this many rule applications may append and for interning the result,
    /// which can double the arena.
    pub open spec fn reduction_fits(&self, f: TreeIndex, arg: TreeIndex) -> bool {
        exists|n: nat| halts_within(self.term(f), self.term(arg), n) && 2 * (self.arena_len() + n) <= u32::MAX
    }

    /// The arena has room for a bounded reduction of `f arg` that has counted `steps` of
    /// `max_steps`: for the fuel the reduction uses up where it halts within the budget,
    /// else for the whole budget, and then for interning the result.
    pub open spec fn bounded_fits(&self, f: TreeIndex, arg: TreeIndex, steps: nat, max_steps: nat) -> bool {
        steps < max_steps ==> if halts_within(self.term(f), self.term(arg), (max_steps - steps - 1) as nat) {
            2 * (self.arena_len() + spent(self.term(f), self.term(arg), (max_steps - steps - 1) as nat))
                <= u32::MAX
        } else {
            2 * (self.arena_len() + (max_steps - steps)) <= u32::MAX
        }
    }

    /// Applies `f` to `arg` and reduces to normal form. The result is interned, so it is
    /// `==` to every other interned index of the same tree.
    pub fn apply(&mut self, f: TreeIndex, arg: TreeIndex) -> (r: TreeIndex)
        requires
            old(self).wf(),
            old(self).valid(f),
            old(self).valid(arg),
            old(self).reduction_fits(f, arg),
        ensures
            final(self).wf(),
            final(self).extends(old(self)),
            final(self).valid(r),
            final(self).interned(r),
            reduces(old(self).term(f), old(self).term(arg), final(self).term(r)),
            old(self).cache().dom().subset_of(final(self).cache().dom()),
            exists|c: nat| #[trigger] bounded_run(old(self).machine(), f, arg, 0, c + 1)
                == (Ok::<TreeIndex, TreeIndex>(r), c, final(self).machine()),
            forall|n: nat| #[trigger] halts_within(old(self).term(f), old(self).term(arg), n)
                ==> final(self).arena_len() < 2 * (old(self).arena_len() + spent(old(self).term(f), old(self).term(arg), n)),
    {
        let ghost m0 = self.machine();
        let r = self.apply_inner(f, arg);
        proof {
            let c = choose|c: nat| #[trigger] run_outer(m0, f, arg, 0, c + 1)
                == (Ok::<TreeIndex, TreeIndex>(r), c, self.machine());
            assert(bounded_run(m0, f, arg, 0, c + 1) == (Ok::<TreeIndex, TreeIndex>(r), c, self.machine()));
        }
        r
    }

    /// Applies `f` to `arg` with a budget: `*steps` counts the applications entered, and
    /// when it reaches `max_steps` the reduction stops with `Err` of the function it was
    /// about to apply. A result is interned, as with `apply`. The result, the count and the
    /// arena it leaves are those of `bounded_run`, a function of the arena it starts from.
    pub fn apply_bounded(
        &mut self,
        f: TreeIndex,
        arg: TreeIndex,
        steps: &mut usize,
        max_steps: usize,
    ) -> (res: Result<TreeIndex, TreeIndex>)
        requires
            old(self).wf(),
            old(self).valid(f),
            old(self).valid(arg),
            *old(steps) < usize::MAX,
            old(self).bounded_fits(f, arg, *old(steps) as nat, max_steps as nat),
        ensures
            (res, *final(steps) as nat, final(self).machine())
                == bounded_run(old(self).machine(), f, arg, *old(steps) as nat, max_steps as nat),
            final(self).wf(),
            final(self).extends(old(self)),
            old(self).cache().dom().subset_of(final(self).cache().dom()),
            match res {
                Ok(r) => {
                    &&& final(self).valid(r)
                    &&& final(self).interned(r)
                    &&& reduces(old(self).term(f), old(self).term(arg), final(self).term(r))
                    &&& *old(steps) < *final(steps) < max_steps
                    &&& final(self).arena_len() < 2 * (old(self).arena_len() + *final(steps) - *old(steps))
                },
                Err(i) => {
                    &&& final(self).valid(i)
                    &&& *final(steps) == if *old(steps) < max_steps {
                        max_steps as int
                    } else {
                        *old(steps) + 1
                    }
                    &&& final(self).arena_len() + *old(steps) < old(self).arena_len() + *final(steps)
                },
            },
            *old(steps) + 1 >= max_steps ==> res == Err::<TreeIndex, TreeIndex>(f),
            *old(steps) < max_steps && halts_within(
                old(self).term(f),
                old(self).term(arg),
                (max_steps - *old(steps) - 1) as nat,
            ) ==> res is Ok,
            res is Ok ==> forall|n: nat| #[trigger] halts_within(old(self).term(f), old(self).term(arg), n)
                ==> *final(steps) <= *old(steps) + spent(old(self).term(f), old(self).term(arg), n),
    {
        self.apply_bounded_inner(f, arg, steps, max_steps)
    }
}

} // verus!
