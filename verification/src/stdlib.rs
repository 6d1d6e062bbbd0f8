//! Standard library of tree calculus combinators and data encodings.
use vstd::prelude::*;
use crate::term::{eval, fork, term_depth, term_size, lemma_eval_more_fuel, lemma_eval_spends, reduces, reduces_within, stem, Term};
use crate::text::push_char;
use crate::tree::{Tree, TreeIndex, Trees};

verus! {

// SKI combinators ----------------------------------------------------------------

/// `K = Stem(Leaf)`: `K a b = a`.
pub open spec fn k_term() -> Term {
    stem(Term::Leaf)
}

/// `S = Fork(Stem(Fork(Leaf, Leaf)), Leaf)`: `S x y z = (x z) (y z)`.
pub open spec fn s_term() -> Term {
    fork(stem(fork(Term::Leaf, Term::Leaf)), Term::Leaf)
}

/// `I = Fork(Stem(K), K)`: `I x = x`.
pub open spec fn i_term() -> Term {
    fork(stem(k_term()), k_term())
}

/// False is the leaf.
pub open spec fn false_term() -> Term {
    Term::Leaf
}

/// True is `Stem(Leaf)`.
pub open spec fn true_term() -> Term {
    stem(Term::Leaf)
}

/// Negation: a triage that maps the leaf to true and a stem to false.
pub open spec fn not_term() -> Term {
    fork(fork(true_term(), fork(Term::Leaf, false_term())), Term::Leaf)
}

/// The triage of three cases: applied to a leaf, a stem or a fork, it picks the case.
pub open spec fn triage_term(leaf_case: Term, stem_case: Term, fork_case: Term) -> Term {
    fork(fork(leaf_case, stem_case), fork_case)
}

/// `K a b = a`.
pub proof fn law_k(a: Term, b: Term)
    ensures
        reduces_within(k_term(), a, fork(Term::Leaf, a), 1),
        reduces_within(fork(Term::Leaf, a), b, a, 1),
        reduces(k_term(), a, fork(Term::Leaf, a)),
        reduces(fork(Term::Leaf, a), b, a),
{
    assert(reduces_within(k_term(), a, fork(Term::Leaf, a), 1));
    assert(reduces_within(fork(Term::Leaf, a), b, a, 1));
}

/// `I x = x`.
pub proof fn law_i(x: Term)
    ensures
        reduces_within(i_term(), x, x, 4),
        reduces(i_term(), x, x),
{
    let kx = fork(Term::Leaf, x);
    assert(eval(k_term(), x, 3) == Some((kx, 2nat)));
    assert(eval(k_term(), x, 2) == Some((kx, 1nat)));
    assert(eval(kx, kx, 1) == Some((x, 0nat)));
    assert(reduces_within(i_term(), x, x, 4));
}

/// `S K K = I`, so `S K K x = x`.
pub proof fn law_skk(x: Term)
    ensures
        reduces_within(s_term(), k_term(), stem(stem(k_term())), 4),
        reduces_within(stem(stem(k_term())), k_term(), i_term(), 1),
        reduces_within(i_term(), x, x, 4),
        reduces(s_term(), k_term(), stem(stem(k_term()))),
        reduces(stem(stem(k_term())), k_term(), i_term()),
        reduces(i_term(), x, x),
{
    let ll = fork(Term::Leaf, Term::Leaf);
    let k = k_term();
    assert(eval(ll, k, 3) == Some((Term::Leaf, 2nat)));
    assert(eval(Term::Leaf, k, 2) == Some((stem(k), 1nat)));
    assert(eval(Term::Leaf, stem(k), 1) == Some((stem(stem(k)), 0nat)));
    assert(reduces_within(s_term(), k, stem(stem(k)), 4));
    assert(reduces_within(stem(stem(k)), k, i_term(), 1));
    law_i(x);
}

/// `not false = true` and `not true = false`.
pub proof fn law_not()
    ensures
        reduces_within(not_term(), false_term(), true_term(), 1),
        reduces_within(not_term(), true_term(), false_term(), 2),
        reduces(not_term(), false_term(), true_term()),
        reduces(not_term(), true_term(), false_term()),
{
    assert(reduces_within(not_term(), false_term(), true_term(), 1));
    let kf = fork(Term::Leaf, false_term());
    assert(eval(kf, Term::Leaf, 1) == Some((false_term(), 0nat)));
    assert(reduces_within(not_term(), true_term(), false_term(), 2));
}

/// A triage picks its leaf case for a leaf, applies its stem case to the inside of a stem,
/// and applies its fork case to both children of a fork.
pub proof fn law_triage(a: Term, b: Term, c: Term, u: Term, v: Term, r: Term, cu: Term)
    ensures
        reduces_within(triage_term(a, b, c), Term::Leaf, a, 1),
        reduces(triage_term(a, b, c), Term::Leaf, a),
        reduces(b, u, r) ==> reduces(triage_term(a, b, c), stem(u), r),
        reduces(c, u, cu) && reduces(cu, v, r) ==> reduces(triage_term(a, b, c), fork(u, v), r),
{
    let t = triage_term(a, b, c);
    assert(reduces_within(t, Term::Leaf, a, 1));
    if reduces(b, u, r) {
        let n = choose|n: nat| reduces_within(b, u, r, n);
        assert(reduces_within(t, stem(u), r, n + 1));
    }
    if reduces(c, u, cu) && reduces(cu, v, r) {
        let n1 = choose|n: nat| reduces_within(c, u, cu, n);
        let n2 = choose|n: nat| reduces_within(cu, v, r, n);
        let k1 = eval(c, u, n1).unwrap().1;
        lemma_eval_spends(c, u, n1);
        lemma_eval_more_fuel(c, u, n1, n2);
        lemma_eval_more_fuel(cu, v, n2, k1);
        assert(eval(c, u, n1 + n2) == Some((cu, k1 + n2)));
        assert(eval(t, fork(u, v), n1 + n2 + 1) == eval(cu, v, k1 + n2));
        assert(reduces_within(t, fork(u, v), r, n1 + n2 + 1));
    }
}

/// The K combinator.
pub fn k(trees: &mut Trees) -> (r: TreeIndex)
    requires
        old(trees).wf(),
        old(trees).has_room(1),
    ensures
        final(trees).wf(),
        final(trees).extends(old(trees)),
        final(trees).valid(r),
        final(trees).interned(r),
        final(trees).term(r) == k_term(),
        final(trees).arena_len() <= old(trees).arena_len() + 1,
{
    let l = trees.leaf();
    trees.stem(l)
}

/// The S combinator.
pub fn s(trees: &mut Trees) -> (r: TreeIndex)
    requires
        old(trees).wf(),
        old(trees).has_room(3),
    ensures
        final(trees).wf(),
        final(trees).extends(old(trees)),
        final(trees).valid(r),
        final(trees).interned(r),
        final(trees).term(r) == s_term(),
        final(trees).arena_len() <= old(trees).arena_len() + 3,
{
    let l = trees.leaf();
    let ll = trees.fork(l, l);
    let s_left = trees.stem(ll);
    trees.fork(s_left, l)
}

/// The I combinator.
pub fn i(trees: &mut Trees) -> (r: TreeIndex)
    requires
        old(trees).wf(),
        old(trees).has_room(3),
    ensures
        final(trees).wf(),
        final(trees).extends(old(trees)),
        final(trees).valid(r),
        final(trees).interned(r),
        final(trees).term(r) == i_term(),
        final(trees).arena_len() <= old(trees).arena_len() + 3,
{
    let k_val = k(trees);
    let sk = trees.stem(k_val);
    trees.fork(sk, k_val)
}

// Booleans ----------------------------------------------------------------

/// False.
pub fn tree_false(trees: &mut Trees) -> (r: TreeIndex)
    requires
        old(trees).wf(),
    ensures
        *final(trees) == *old(trees),
        final(trees).valid(r),
        final(trees).interned(r),
        final(trees).term(r) == false_term(),
{
    trees.leaf()
}

/// True.
pub fn tree_true(trees: &mut Trees) -> (r: TreeIndex)
    requires
        old(trees).wf(),
        old(trees).has_room(1),
    ensures
        final(trees).wf(),
        final(trees).extends(old(trees)),
        final(trees).valid(r),
        final(trees).interned(r),
        final(trees).term(r) == true_term(),
        final(trees).arena_len() <= old(trees).arena_len() + 1,
{
    let l = trees.leaf();
    trees.stem(l)
}

/// Negation.
pub fn tree_not(trees: &mut Trees) -> (r: TreeIndex)
    requires
        old(trees).wf(),
        old(trees).has_room(4),
    ensures
        final(trees).wf(),
        final(trees).extends(old(trees)),
        final(trees).valid(r),
        final(trees).interned(r),
        final(trees).term(r) == not_term(),
        final(trees).arena_len() <= old(trees).arena_len() + 4,
{
    let t = tree_true(trees);
    let f = tree_false(trees);
    let l = trees.leaf();
    let inner = trees.fork(l, f);
    let left = trees.fork(t, inner);
    trees.fork(left, l)
}

// Triage ----------------------------------------------------------------

/// The triage of the three cases.
pub fn triage(trees: &mut Trees, leaf_case: TreeIndex, stem_case: TreeIndex, fork_case: TreeIndex) -> (r: TreeIndex)
    requires
        old(trees).wf(),
        old(trees).valid(leaf_case),
        old(trees).valid(stem_case),
        old(trees).valid(fork_case),
        old(trees).has_room(2),
    ensures
        final(trees).wf(),
        final(trees).extends(old(trees)),
        final(trees).valid(r),
        final(trees).term(r) == triage_term(
            old(trees).term(leaf_case),
            old(trees).term(stem_case),
            old(trees).term(fork_case),
        ),
        old(trees).interned(leaf_case) && old(trees).interned(stem_case) && old(trees).interned(fork_case)
            ==> final(trees).interned(r),
        final(trees).arena_len() <= old(trees).arena_len() + 2,
{
    let left = trees.fork(leaf_case, stem_case);
    trees.fork(left, fork_case)
}


// Number encoding ----------------------------------------------------------------

/// The number of binary digits of `n`; zero has none.
pub open spec fn bit_length(n: nat) -> nat
    decreases n,
{
    if n == 0 {
        0
    } else {
        1 + bit_length(n / 2)
    }
}

/// `n` as a tree: the leaf for zero, else a fork of its lowest bit (leaf or `Stem(Leaf)`)
/// and the tree of the other bits.
pub open spec fn number_term(n: nat) -> Term
    decreases n,
{
    if n == 0 {
        Term::Leaf
    } else {
        fork(if n % 2 == 1 { stem(Term::Leaf) } else { Term::Leaf }, number_term(n / 2))
    }
}

/// The number a tree stands for, if it stands for one.
pub open spec fn number_of(t: Term) -> Option<nat>
    decreases t,
{
    match t {
        Term::Leaf => Some(0),
        Term::Fork(bit, rest) => {
            let b: Option<nat> = match *bit {
                Term::Leaf => Some(0),
                Term::Stem(inner) => if *inner == Term::Leaf {
                    Some(1)
                } else {
                    None
                },
                _ => None,
            };
            match (b, number_of(*rest)) {
                (Some(b), Some(r)) => Some(b + 2 * r),
                _ => None,
            }
        },
        Term::Stem(_) => None,
    }
}

/// A number as a `usize`, wrapping around past `usize::MAX`.
pub open spec fn wrap_usize(n: nat) -> usize {
    (n % (usize::MAX as nat + 1)) as usize
}

/// What `of_number` gives for a tree: its number, wrapped, if it stands for one.
pub open spec fn wrapped_number_of(t: Term) -> Option<usize> {
    match number_of(t) {
        Some(n) => Some(wrap_usize(n)),
        None => None,
    }
}

/// Reading back the tree of a number gives the number.
pub proof fn law_number_roundtrip(n: nat)
    ensures
        number_of(number_term(n)) == Some(n),
    decreases n,
{
    if n > 0 {
        law_number_roundtrip(n / 2);
    }
}

/// Reading back the tree of a `usize` gives the `usize`: `of_number(to_number(n)) == Some(n)`.
pub proof fn law_number_codec(n: usize)
    ensures
        wrapped_number_of(number_term(n as nat)) == Some(n),
{
    law_number_roundtrip(n as nat);
    vstd::arithmetic::div_mod::lemma_small_mod(n as nat, usize::MAX as nat + 1);
}

/// The low bit and the rest of a `usize`.
proof fn lemma_usize_bits(n: usize)
    ensures
        n & 1 == n % 2,
        n >> 1 == n / 2,
{
    assert(n & 1 == n % 2) by (bit_vector);
    assert(n >> 1 == n / 2) by (bit_vector);
}

/// Builds the tree of `n`.
pub fn to_number(trees: &mut Trees, n: usize) -> (r: TreeIndex)
    requires
        old(trees).wf(),
        old(trees).has_room(2 * bit_length(n as nat)),
    ensures
        final(trees).wf(),
        final(trees).extends(old(trees)),
        final(trees).valid(r),
        final(trees).interned(r),
        final(trees).term(r) == number_term(n as nat),
        final(trees).arena_len() <= old(trees).arena_len() + 2 * bit_length(n as nat),
    decreases n,
{
    if n == 0 {
        return trees.leaf();
    }
    proof {
        lemma_usize_bits(n);
    }
    let l = trees.leaf();
    let bit = if n & 1 == 1 {
        trees.stem(l)
    } else {
        l
    };
    let rest = to_number(trees, n >> 1);
    trees.fork(bit, rest)
}

/// One step of reading a number: `b + 2 r`, wrapped, from `r` wrapped.
fn shift_in_bit(b: usize, r: usize, Ghost(big_r): Ghost<nat>) -> (v: usize)
    requires
        b <= 1,
        r == wrap_usize(big_r),
    ensures
        v == wrap_usize((b + 2 * big_r) as nat),
{
    let ghost m: int = usize::MAX as int + 1;
    let twice = r.wrapping_mul(2);
    proof {
        let q = (2 * r) / m;
        assert(twice as int == (2 * r) % m);
        vstd::arithmetic::div_mod::lemma_fundamental_div_mod(2 * r, m);
        assert(m % 2 == 0);
        assert(twice as int % 2 == 0) by (nonlinear_arith)
            requires
                2 * r == m * q + twice as int,
                m % 2 == 0,
                0 <= twice < m,
        {
            assert((m * q) % 2 == 0) by {
                vstd::arithmetic::div_mod::lemma_mod_multiples_vanish(q * (m / 2), 0, 2);
                assert(m * q == 2 * (q * (m / 2)));
            }
        }
        vstd::arithmetic::div_mod::lemma_add_mod_noop_right(b as int, 2 * big_r as int, m);
        vstd::arithmetic::div_mod::lemma_mul_mod_noop_right(2, big_r as int, m);
        assert((b + twice) % m == (b + 2 * big_r) % m) by {
            vstd::arithmetic::div_mod::lemma_add_mod_noop_right(b as int, 2 * r, m);
        }
    }
    b + twice
}

/// The number that the tree `idx` stands for, wrapped into a `usize`.
pub fn of_number(trees: &Trees, idx: TreeIndex) -> (r: Option<usize>)
    requires
        trees.well_shaped(),
        trees.valid(idx),
    ensures
        r == wrapped_number_of(trees.term(idx)),
    decreases idx@,
{
    match trees.index(idx) {
        Tree::Leaf => Some(0),
        Tree::Fork(bit, rest) => {
            let b: usize = match trees.index(bit) {
                Tree::Leaf => 0,
                Tree::Stem(inner) => {
                    if trees.index(inner) == Tree::Leaf {
                        1
                    } else {
                        return None;
                    }
                },
                _ => return None,
            };
            match of_number(trees, rest) {
                Some(r) => Some(shift_in_bit(b, r, Ghost(number_of(trees.term(rest))->Some_0))),
                None => None,
            }
        },
        _ => None,
    }
}

// List encoding ----------------------------------------------------------------

/// The list of `items`: forks of each item and the rest, ending in a leaf.
pub open spec fn list_term(items: Seq<Term>) -> Term
    decreases items.len(),
{
    if items.len() == 0 {
        Term::Leaf
    } else {
        fork(items[0], list_term(items.skip(1)))
    }
}

/// The items of a list, if the tree is one.
pub open spec fn list_of(t: Term) -> Option<Seq<Term>>
    decreases t,
{
    match t {
        Term::Leaf => Some(Seq::<Term>::empty()),
        Term::Fork(h, rest) => match list_of(*rest) {
            Some(items) => Some(seq![*h] + items),
            None => None,
        },
        Term::Stem(_) => None,
    }
}

/// Reading back the tree of a list gives the list.
pub proof fn law_list_roundtrip(items: Seq<Term>)
    ensures
        list_of(list_term(items)) == Some(items),
    decreases items.len(),
{
    if items.len() > 0 {
        law_list_roundtrip(items.skip(1));
        assert(seq![items[0]] + items.skip(1) =~= items);
    }
}

/// The trees of indices.
pub open spec fn terms_of(trees: &Trees, items: Seq<TreeIndex>) -> Seq<Term> {
    items.map_values(|i: TreeIndex| trees.term(i))
}

/// The list items of an index are the list items of its tree.
pub proof fn lemma_spine_list(trees: &Trees, i: TreeIndex)
    requires
        trees.well_shaped(),
        trees.valid(i),
    ensures
        trees.spine(i) is Some <==> list_of(trees.term(i)) is Some,
        trees.spine(i) matches Some(items) ==> list_of(trees.term(i)) == Some(terms_of(trees, items)),
        trees.spine(i) matches Some(items) ==> forall|j: int| 0 <= j < items.len() ==> trees.valid(#[trigger] items[j]),
    decreases i@,
{
    trees.lemma_spine(i);
    trees.lemma_node(i);
    match trees.node(i) {
        Tree::Fork(h, t) => {
            lemma_spine_list(trees, t);
            if let Some(rest) = trees.spine(t) {
                assert(terms_of(trees, seq![h] + rest) =~= seq![trees.term(h)] + terms_of(trees, rest));
                let items = seq![h] + rest;
                assert forall|j: int| 0 <= j < items.len() implies trees.valid(#[trigger] items[j]) by {
                    if j > 0 {
                        assert(items[j] == rest[j - 1]);
                    }
                }
            }
        },
        Tree::Leaf => {
            assert(terms_of(trees, Seq::<TreeIndex>::empty()) =~= Seq::<Term>::empty());
        },
        _ => {},
    }
}

/// Builds the list of `items`.
pub fn to_list(trees: &mut Trees, items: &[TreeIndex]) -> (r: TreeIndex)
    requires
        old(trees).wf(),
        forall|j: int| 0 <= j < items@.len() ==> old(trees).valid(#[trigger] items@[j]),
        old(trees).has_room(items@.len()),
    ensures
        final(trees).wf(),
        final(trees).extends(old(trees)),
        final(trees).valid(r),
        final(trees).spine(r) == Some(items@),
        final(trees).term(r) == list_term(terms_of(old(trees), items@)),
        (forall|j: int| 0 <= j < items@.len() ==> old(trees).interned(#[trigger] items@[j]))
            ==> final(trees).interned(r),
        final(trees).arena_len() <= old(trees).arena_len() + items@.len(),
{
    let ghost all_interned = forall|j: int| 0 <= j < items@.len() ==> old(trees).interned(#[trigger] items@[j]);
    let mut acc = trees.leaf();
    let mut i = items.len();
    proof {
        trees.lemma_spine(acc);
        assert(items@.subrange(i as int, items@.len() as int) =~= Seq::<TreeIndex>::empty());
        assert(terms_of(old(trees), Seq::<TreeIndex>::empty()) =~= Seq::<Term>::empty());
    }
    while i > 0
        invariant
            trees.wf(),
            trees.extends(old(trees)),
            i <= items@.len(),
            trees.valid(acc),
            trees.spine(acc) == Some(items@.subrange(i as int, items@.len() as int)),
            trees.term(acc) == list_term(terms_of(old(trees), items@.subrange(i as int, items@.len() as int))),
            all_interned ==> trees.interned(acc),
            trees.arena_len() + i <= old(trees).arena_len() + items@.len(),
            all_interned == forall|j: int| 0 <= j < items@.len() ==> old(trees).interned(#[trigger] items@[j]),
            forall|j: int| 0 <= j < items@.len() ==> old(trees).valid(#[trigger] items@[j]),
            old(trees).has_room(items@.len()),
        decreases i,
    {
        i -= 1;
        let item = items[i];
        proof {
            assert(old(trees).valid(items@[i as int]));
        }
        let ghost before = *trees;
        acc = trees.fork(item, acc);
        proof {
            trees.lemma_spine(acc);
            let rest = items@.subrange(i + 1, items@.len() as int);
            let all = items@.subrange(i as int, items@.len() as int);
            assert(all =~= seq![item] + rest);
            assert(terms_of(old(trees), all) =~= seq![old(trees).term(item)] + terms_of(old(trees), rest));
            assert(terms_of(old(trees), all).skip(1) =~= terms_of(old(trees), rest));
            if all_interned {
                assert(old(trees).interned(items@[i as int]));
            }
        }
    }
    proof {
        assert(items@.subrange(0, items@.len() as int) =~= items@);
    }
    acc
}

/// The items of the list `idx`, if it is one.
pub fn of_list(trees: &Trees, idx: TreeIndex) -> (r: Option<Vec<TreeIndex>>)
    requires
        trees.well_shaped(),
        trees.valid(idx),
    ensures
        match r {
            Some(v) => trees.spine(idx) == Some(v@),
            None => trees.spine(idx) is None,
        },
        r is Some <==> list_of(trees.term(idx)) is Some,
        r matches Some(v) ==> list_of(trees.term(idx)) == Some(terms_of(trees, v@)),
        r matches Some(v) ==> forall|j: int| 0 <= j < v@.len() ==> trees.valid(#[trigger] v@[j]),
{
    proof {
        lemma_spine_list(trees, idx);
    }
    let mut res: Vec<TreeIndex> = Vec::new();
    let mut curr = idx;
    loop
        invariant
            trees.well_shaped(),
            trees.valid(curr),
            trees.spine(idx) == match trees.spine(curr) {
                Some(rest) => Some(res@ + rest),
                None => None::<Seq<TreeIndex>>,
            },
            trees.spine(idx) is Some <==> list_of(trees.term(idx)) is Some,
            trees.spine(idx) matches Some(items) ==> list_of(trees.term(idx)) == Some(terms_of(trees, items)),
            trees.spine(idx) matches Some(items) ==> forall|j: int| 0 <= j < items.len() ==> trees.valid(#[trigger] items[j]),
        decreases curr@,
    {
        proof {
            trees.lemma_spine(curr);
        }
        match trees.index(curr) {
            Tree::Leaf => {
                proof {
                    assert(res@ + Seq::<TreeIndex>::empty() =~= res@);
                }
                return Some(res);
            },
            Tree::Fork(head, tail) => {
                proof {
                    if let Some(rest) = trees.spine(tail) {
                        assert(res@ + (seq![head] + rest) =~= res@.push(head) + rest);
                    }
                }
                res.push(head);
                curr = tail;
            },
            _ => return None,
        }
    }
}

// Peano encoding ----------------------------------------------------------------

/// `n` stems over a leaf.
pub open spec fn peano_term(n: nat) -> Term
    decreases n,
{
    if n == 0 {
        Term::Leaf
    } else {
        stem(peano_term((n - 1) as nat))
    }
}

/// The encoding of `n` has `n + 1` nodes on one path of length `n`, so it is `n` stems over a
/// leaf, and the encoding of `n + 1` is the stem over that of `n`.
pub proof fn law_peano_shape(n: nat)
    ensures
        term_size(peano_term(n)) == n + 1,
        term_depth(peano_term(n)) == n,
        peano_term(n + 1) == stem(peano_term(n)),
    decreases n,
{
    if n > 0 {
        law_peano_shape((n - 1) as nat);
    }
}

/// Different numbers have different encodings.
pub proof fn law_peano_injective(n: nat, m: nat)
    requires
        peano_term(n) == peano_term(m),
    ensures
        n == m,
{
    law_peano_shape(n);
    law_peano_shape(m);
}

/// Builds `n` stems over a leaf.
pub fn peano(trees: &mut Trees, n: usize) -> (r: TreeIndex)
    requires
        old(trees).wf(),
        old(trees).has_room(n as nat),
    ensures
        final(trees).wf(),
        final(trees).extends(old(trees)),
        final(trees).valid(r),
        final(trees).interned(r),
        final(trees).term(r) == peano_term(n as nat),
        final(trees).arena_len() <= old(trees).arena_len() + n,
    decreases n,
{
    if n == 0 {
        trees.leaf()
    } else {
        let inner = peano(trees, n - 1);
        trees.stem(inner)
    }
}


// String encoding ----------------------------------------------------------------

/// The character with the code `u`, if `u` is a Unicode scalar value.
pub open spec fn char_of(u: u32) -> Option<char> {
    if u <= 0xD7FF || (0xE000 <= u && u <= 0x10FFFF) {
        Some(u as char)
    } else {
        None
    }
}

/// Calls `char::from_u32`: the character with the code `n`, which exists exactly for the
/// Unicode scalar values (below `0xD800`, and from `0xE000` to `0x10FFFF`).
#[verifier::external_body]
fn char_from_u32(n: u32) -> (r: Option<char>)
    ensures
        r == char_of(n),
{
    char::from_u32(n)
}

/// The character a tree stands for: its number, as a `usize` cut down to a `u32`, as a code.
pub open spec fn char_of_term(t: Term) -> Option<char> {
    match wrapped_number_of(t) {
        Some(w) => char_of(w as u32),
        None => None,
    }
}

/// The characters of trees, if each stands for one.
pub open spec fn chars_of(ts: Seq<Term>) -> Option<Seq<char>> {
    if forall|k: int| 0 <= k < ts.len() ==> #[trigger] char_of_term(ts[k]) is Some {
        Some(Seq::new(ts.len(), |k: int| char_of_term(ts[k])->Some_0))
    } else {
        None
    }
}

/// What Verus knows of a `char` value.
proof fn lemma_char_range(c: char)
    ensures
        c as nat <= 0xD7FF || (0xE000 <= c as nat && c as nat <= 0x10FFFF),
        ((c as nat) as u32) as char == c,
{
}

/// A string as a tree: the list of its characters' codes.
pub open spec fn string_term(s: Seq<char>) -> Term {
    list_term(s.map_values(|c: char| number_term(c as nat)))
}

/// The string a tree stands for, if it stands for one.
pub open spec fn string_of(t: Term) -> Option<Seq<char>> {
    match list_of(t) {
        Some(ts) => chars_of(ts),
        None => None,
    }
}

/// Reading back the tree of a string gives the string.
pub proof fn law_string_roundtrip(s: Seq<char>)
    ensures
        string_of(string_term(s)) == Some(s),
{
    let ts = s.map_values(|c: char| number_term(c as nat));
    law_list_roundtrip(ts);
    assert forall|k: int| 0 <= k < ts.len() implies #[trigger] char_of_term(ts[k]) == Some(s[k]) by {
        lemma_char_range(s[k]);
        let n = s[k] as nat;
        law_number_roundtrip(n);
        assert(ts[k] == number_term(n));
        vstd::arithmetic::div_mod::lemma_small_mod(n, usize::MAX as nat + 1);
        assert(wrap_usize(n) == n as usize);
    }
    assert(Seq::new(ts.len(), |k: int| char_of_term(ts[k])->Some_0) =~= s);
}

/// `2^k`.
pub open spec fn two_to(k: nat) -> nat
    decreases k,
{
    if k == 0 {
        1
    } else {
        2 * two_to((k - 1) as nat)
    }
}

/// A number below `2^k` has at most `k` binary digits.
proof fn lemma_bit_length_below(n: nat, k: nat)
    requires
        n < two_to(k),
    ensures
        bit_length(n) <= k,
    decreases k,
{
    if n > 0 {
        lemma_bit_length_below(n / 2, (k - 1) as nat);
    }
}

/// A character code has at most 21 binary digits.
proof fn lemma_char_bits(c: char)
    ensures
        bit_length(c as nat) <= 21,
{
    reveal_with_fuel(two_to, 22);
    assert(two_to(21) == 0x200000);
    lemma_bit_length_below(c as nat, 21);
}

/// Builds the tree of the string `s`.
pub fn to_string_tree(trees: &mut Trees, s: &str) -> (r: TreeIndex)
    requires
        old(trees).wf(),
        old(trees).has_room(43 * s@.len()),
    ensures
        final(trees).wf(),
        final(trees).extends(old(trees)),
        final(trees).valid(r),
        final(trees).interned(r),
        final(trees).term(r) == string_term(s@),
{
    broadcast use vstd::string::group_string_axioms;

    let mut chars: Vec<TreeIndex> = Vec::new();
    for c in it: s.chars()
        invariant
            it.seq() == s@,
            trees.wf(),
            trees.extends(old(trees)),
            chars@.len() == it.index(),
            forall|j: int| 0 <= j < chars@.len() ==> trees.valid(#[trigger] chars@[j]),
            forall|j: int| 0 <= j < chars@.len() ==> trees.interned(#[trigger] chars@[j]),
            forall|j: int| 0 <= j < chars@.len() ==> trees.term(#[trigger] chars@[j]) == number_term(s@[j] as nat),
            trees.arena_len() <= old(trees).arena_len() + 42 * it.index(),
            old(trees).has_room(43 * s@.len()),
    {
        let ghost k = chars@.len() as int;
        proof {
            lemma_char_bits(c);
            lemma_char_range(c);
            assert(c == s@[k]);
            assert((c as usize) as nat == c as nat);
        }
        let ghost before = *trees;
        let ghost before_chars = chars@;
        let n = to_number(trees, c as usize);
        chars.push(n);
        proof {
            assert forall|j: int| 0 <= j < chars@.len() implies trees.valid(#[trigger] chars@[j])
                && trees.interned(chars@[j]) && trees.term(chars@[j]) == number_term(s@[j] as nat) by {
                if j < k {
                    assert(chars@[j] == before_chars[j]);
                    assert(before.valid(chars@[j]));
                }
            }
        }
    }
    let ghost mid = *trees;
    proof {
        assert(chars@.len() == s@.len());
        assert(terms_of(&mid, chars@) =~= s@.map_values(|c: char| number_term(c as nat)));
    }
    to_list(trees, chars.as_slice())
}

/// The string that the tree `idx` stands for, if it stands for one.
pub fn of_string_tree(trees: &Trees, idx: TreeIndex) -> (r: Option<String>)
    requires
        trees.well_shaped(),
        trees.valid(idx),
    ensures
        match r {
            Some(s) => string_of(trees.term(idx)) == Some(s@),
            None => string_of(trees.term(idx)) is None,
        },
{
    let items = of_list(trees, idx)?;
    let ghost ts = terms_of(trees, items@);
    let mut out = String::new();
    let mut i: usize = 0;
    while i < items.len()
        invariant
            trees.well_shaped(),
            ts == terms_of(trees, items@),
            list_of(trees.term(idx)) == Some(ts),
            forall|j: int| 0 <= j < items@.len() ==> trees.valid(#[trigger] items@[j]),
            i <= items@.len(),
            forall|k: int| 0 <= k < i ==> #[trigger] char_of_term(ts[k]) is Some,
            out@ == Seq::new(i as nat, |k: int| char_of_term(ts[k])->Some_0),
        decreases items@.len() - i,
    {
        proof {
            assert(ts[i as int] == trees.term(items@[i as int]));
        }
        match of_number(trees, items[i]) {
            Some(n) => match char_from_u32(n as u32) {
                Some(c) => push_char(&mut out, c),
                None => {
                    proof {
                        assert(char_of_term(ts[i as int]) is None);
                    }
                    return None;
                },
            },
            None => {
                proof {
                    assert(char_of_term(ts[i as int]) is None);
                }
                return None;
            },
        }
        i += 1;
        proof {
            assert(out@ =~= Seq::new(i as nat, |k: int| char_of_term(ts[k])->Some_0));
        }
    }
    Some(out)
}

} // verus!
