//! Trees of triage calculus as mathematical values, and the reduction rules.
//!
//! `eval(f, z, fuel)` applies `f` to `z` by the five rules of triage calculus,
//! entering at most `fuel` applications; it gives the normal form and the fuel
//! left over, or `None` when the fuel runs out.
use vstd::prelude::*;

verus! {

/// A binary tree: the only kind of value in triage calculus.
pub enum Term {
    Leaf,
    Stem(Box<Term>),
    Fork(Box<Term>, Box<Term>),
}

/// `Stem(t)`.
pub open spec fn stem(t: Term) -> Term {
    Term::Stem(Box::new(t))
}

/// `Fork(l, r)`.
pub open spec fn fork(l: Term, r: Term) -> Term {
    Term::Fork(Box::new(l), Box::new(r))
}

/// Enters one application of `f` to `z`: it costs one unit of fuel.
pub open spec fn eval(f: Term, z: Term, fuel: nat) -> Option<(Term, nat)>
    decreases fuel, 0nat,
{
    if fuel == 0 {
        None
    } else {
        rule(f, z, (fuel - 1) as nat)
    }
}

/// Applies the rule that matches `f` and `z`, with `fuel` left for the applications it needs.
///
/// - `Leaf z = Stem(z)`, `Stem(a) z = Fork(a, z)`
/// - `Fork(Leaf, y) z = y`
/// - `Fork(Stem(x), y) z = (x z) (y z)`
/// - `Fork(Fork(w, x), y) Leaf = w`, `... Stem(u) = x u`, `... Fork(u, v) = (y u) v`
pub open spec fn rule(f: Term, z: Term, fuel: nat) -> Option<(Term, nat)>
    decreases fuel, 1nat,
{
    match f {
        Term::Leaf => Some((stem(z), fuel)),
        Term::Stem(a) => Some((fork(*a, z), fuel)),
        Term::Fork(l, y) => match *l {
            Term::Leaf => Some((*y, fuel)),
            Term::Stem(x) => match eval(*x, z, fuel) {
                Some((xz, f1)) => if f1 <= fuel {
                    match eval(*y, z, f1) {
                        Some((yz, f2)) => if f2 <= f1 {
                            eval(xz, yz, f2)
                        } else {
                            None
                        },
                        None => None,
                    }
                } else {
                    None
                },
                None => None,
            },
            Term::Fork(w, x) => match z {
                Term::Leaf => Some((*w, fuel)),
                Term::Stem(u) => eval(*x, *u, fuel),
                Term::Fork(u, v) => match eval(*y, *u, fuel) {
                    Some((yu, f1)) => if f1 <= fuel {
                        eval(yu, *v, f1)
                    } else {
                        None
                    },
                    None => None,
                },
            },
        },
    }
}

/// `f z` reaches the normal form `r` within `fuel` applications.
pub open spec fn reduces_within(f: Term, z: Term, r: Term, fuel: nat) -> bool {
    eval(f, z, fuel) is Some && eval(f, z, fuel).unwrap().0 == r
}

/// `f z` reduces to the normal form `r`.
pub open spec fn reduces(f: Term, z: Term, r: Term) -> bool {
    exists|fuel: nat| reduces_within(f, z, r, fuel)
}

/// `f z` reaches a normal form within `fuel` applications.
pub open spec fn halts_within(f: Term, z: Term, fuel: nat) -> bool {
    eval(f, z, fuel) is Some
}

/// Entering an application costs fuel: what is left is less than what was given.
pub proof fn lemma_eval_spends(f: Term, z: Term, fuel: nat)
    ensures
        eval(f, z, fuel) matches Some((_, left)) ==> left < fuel,
    decreases fuel, 0nat,
{
    if fuel > 0 {
        lemma_rule_spends(f, z, (fuel - 1) as nat);
    }
}

/// A rule leaves at most the fuel it was given.
pub proof fn lemma_rule_spends(f: Term, z: Term, fuel: nat)
    ensures
        rule(f, z, fuel) matches Some((_, left)) ==> left <= fuel,
    decreases fuel, 1nat,
{
    match f {
        Term::Leaf => {},
        Term::Stem(_) => {},
        Term::Fork(l, y) => match *l {
            Term::Leaf => {},
            Term::Stem(x) => {
                lemma_eval_spends(*x, z, fuel);
                if let Some((xz, f1)) = eval(*x, z, fuel) {
                    lemma_eval_spends(*y, z, f1);
                    if let Some((yz, f2)) = eval(*y, z, f1) {
                        lemma_eval_spends(xz, yz, f2);
                    }
                }
            },
            Term::Fork(_, x) => match z {
                Term::Leaf => {},
                Term::Stem(u) => {
                    lemma_eval_spends(*x, *u, fuel);
                },
                Term::Fork(u, v) => {
                    lemma_eval_spends(*y, *u, fuel);
                    if let Some((yu, f1)) = eval(*y, *u, fuel) {
                        lemma_eval_spends(yu, *v, f1);
                    }
                },
            },
        },
    }
}

/// More fuel gives the same normal form, with the extra fuel left over.
pub proof fn lemma_eval_more_fuel(f: Term, z: Term, fuel: nat, extra: nat)
    requires
        eval(f, z, fuel) is Some,
    ensures
        eval(f, z, fuel + extra) == Some(
            (eval(f, z, fuel).unwrap().0, eval(f, z, fuel).unwrap().1 + extra),
        ),
    decreases fuel, 0nat,
{
    lemma_rule_more_fuel(f, z, (fuel - 1) as nat, extra);
    assert((fuel + extra - 1) as nat == (fuel - 1) as nat + extra);
}

/// More fuel for a rule gives the same normal form, with the extra fuel left over.
pub proof fn lemma_rule_more_fuel(f: Term, z: Term, fuel: nat, extra: nat)
    requires
        rule(f, z, fuel) is Some,
    ensures
        rule(f, z, fuel + extra) == Some(
            (rule(f, z, fuel).unwrap().0, rule(f, z, fuel).unwrap().1 + extra),
        ),
    decreases fuel, 1nat,
{
    match f {
        Term::Leaf => {},
        Term::Stem(_) => {},
        Term::Fork(l, y) => match *l {
            Term::Leaf => {},
            Term::Stem(x) => {
                let (xz, f1) = eval(*x, z, fuel).unwrap();
                lemma_eval_more_fuel(*x, z, fuel, extra);
                let (yz, f2) = eval(*y, z, f1).unwrap();
                lemma_eval_more_fuel(*y, z, f1, extra);
                lemma_eval_more_fuel(xz, yz, f2, extra);
            },
            Term::Fork(_, x) => match z {
                Term::Leaf => {},
                Term::Stem(u) => {
                    lemma_eval_more_fuel(*x, *u, fuel, extra);
                },
                Term::Fork(u, v) => {
                    let (yu, f1) = eval(*y, *u, fuel).unwrap();
                    lemma_eval_more_fuel(*y, *u, fuel, extra);
                    lemma_eval_more_fuel(yu, *v, f1, extra);
                },
            },
        },
    }
}

/// Reduction is deterministic: two runs that both finish agree on the normal form.
pub proof fn lemma_eval_deterministic(f: Term, z: Term, n1: nat, n2: nat)
    requires
        eval(f, z, n1) is Some,
        eval(f, z, n2) is Some,
    ensures
        eval(f, z, n1).unwrap().0 == eval(f, z, n2).unwrap().0,
{
    if n1 <= n2 {
        lemma_eval_more_fuel(f, z, n1, (n2 - n1) as nat);
    } else {
        lemma_eval_more_fuel(f, z, n2, (n1 - n2) as nat);
    }
}

/// The fuel that reaching the normal form of `f z` uses up, when `fuel` is enough.
pub open spec fn spent(f: Term, z: Term, fuel: nat) -> nat {
    (fuel - eval(f, z, fuel).unwrap().1) as nat
}

/// The fuel a reduction uses up does not depend on the fuel it was given.
pub proof fn law_spent_is_fixed(f: Term, z: Term, n1: nat, n2: nat)
    requires
        halts_within(f, z, n1),
        halts_within(f, z, n2),
    ensures
        spent(f, z, n1) == spent(f, z, n2),
        spent(f, z, n1) <= n1,
{
    lemma_eval_spends(f, z, n1);
    if n1 <= n2 {
        lemma_eval_more_fuel(f, z, n1, (n2 - n1) as nat);
    } else {
        lemma_eval_more_fuel(f, z, n2, (n1 - n2) as nat);
    }
}

/// An application has at most one normal form.
pub proof fn law_normal_form_unique(f: Term, z: Term, r1: Term, r2: Term)
    requires
        reduces(f, z, r1),
        reduces(f, z, r2),
    ensures
        r1 == r2,
{
    let n1 = choose|n: nat| reduces_within(f, z, r1, n);
    let n2 = choose|n: nat| reduces_within(f, z, r2, n);
    lemma_eval_deterministic(f, z, n1, n2);
}


/// The number of nodes of a tree.
pub open spec fn term_size(t: Term) -> nat
    decreases t,
{
    match t {
        Term::Leaf => 1,
        Term::Stem(c) => 1 + term_size(*c),
        Term::Fork(l, r) => 1 + term_size(*l) + term_size(*r),
    }
}

/// The length of the longest path from the root to a leaf.
pub open spec fn term_depth(t: Term) -> nat
    decreases t,
{
    match t {
        Term::Leaf => 0,
        Term::Stem(c) => 1 + term_depth(*c),
        Term::Fork(l, r) => {
            let dl = term_depth(*l);
            let dr = term_depth(*r);
            1 + if dl >= dr { dl } else { dr }
        },
    }
}

/// The tree written as `t`, `(t x)` and `(t x y)`.
pub open spec fn show(t: Term) -> Seq<char>
    decreases t,
{
    match t {
        Term::Leaf => "t"@,
        Term::Stem(c) => "(t "@ + show(*c) + ")"@,
        Term::Fork(l, r) => "(t "@ + show(*l) + " "@ + show(*r) + ")"@,
    }
}

/// The tree written as `Leaf`, `Stem(x)` and `Fork(x, y)`.
pub open spec fn show_debug(t: Term) -> Seq<char>
    decreases t,
{
    match t {
        Term::Leaf => "Leaf"@,
        Term::Stem(c) => "Stem("@ + show_debug(*c) + ")"@,
        Term::Fork(l, r) => "Fork("@ + show_debug(*l) + ", "@ + show_debug(*r) + ")"@,
    }
}


/// Fuel that a reduction leaves over can be withheld: it finishes with that much less.
pub proof fn lemma_eval_less_fuel(f: Term, z: Term, fuel: nat, less: nat)
    requires
        eval(f, z, fuel) is Some,
        less <= eval(f, z, fuel).unwrap().1,
    ensures
        eval(f, z, (fuel - less) as nat) == Some(
            (eval(f, z, fuel).unwrap().0, (eval(f, z, fuel).unwrap().1 - less) as nat),
        ),
    decreases fuel, 0nat,
{
    lemma_eval_spends(f, z, fuel);
    lemma_rule_less_fuel(f, z, (fuel - 1) as nat, less);
    assert((fuel - less - 1) as nat == (fuel - 1 - less) as nat);
}

/// Fuel that a rule leaves over can be withheld: it finishes with that much less.
pub proof fn lemma_rule_less_fuel(f: Term, z: Term, fuel: nat, less: nat)
    requires
        rule(f, z, fuel) is Some,
        less <= rule(f, z, fuel).unwrap().1,
    ensures
        rule(f, z, (fuel - less) as nat) == Some(
            (rule(f, z, fuel).unwrap().0, (rule(f, z, fuel).unwrap().1 - less) as nat),
        ),
    decreases fuel, 1nat,
{
    lemma_rule_spends(f, z, fuel);
    match f {
        Term::Leaf => {},
        Term::Stem(_) => {},
        Term::Fork(l, y) => match *l {
            Term::Leaf => {},
            Term::Stem(x) => {
                let (xz, f1) = eval(*x, z, fuel).unwrap();
                let (yz, f2) = eval(*y, z, f1).unwrap();
                let (r, f3) = eval(xz, yz, f2).unwrap();
                lemma_eval_spends(xz, yz, f2);
                lemma_eval_spends(*y, z, f1);
                lemma_eval_less_fuel(*x, z, fuel, less);
                lemma_eval_less_fuel(*y, z, f1, less);
                lemma_eval_less_fuel(xz, yz, f2, less);
            },
            Term::Fork(_, x) => match z {
                Term::Leaf => {},
                Term::Stem(u) => {
                    lemma_eval_less_fuel(*x, *u, fuel, less);
                },
                Term::Fork(u, v) => {
                    let (yu, f1) = eval(*y, *u, fuel).unwrap();
                    lemma_eval_spends(yu, *v, f1);
                    lemma_eval_less_fuel(*y, *u, fuel, less);
                    lemma_eval_less_fuel(yu, *v, f1, less);
                },
            },
        },
    }
}


/// A reduction that halts has a fixed cost: it halts within exactly the fuels that cover it.
pub proof fn law_fuel_threshold(f: Term, z: Term, n: nat, m: nat)
    requires
        halts_within(f, z, n),
    ensures
        halts_within(f, z, m) <==> spent(f, z, n) <= m,
{
    lemma_eval_spends(f, z, n);
    if spent(f, z, n) <= m {
        if n <= m {
            lemma_eval_more_fuel(f, z, n, (m - n) as nat);
        } else {
            lemma_eval_less_fuel(f, z, n, (n - m) as nat);
        }
    } else if halts_within(f, z, m) {
        law_spent_is_fixed(f, z, m, n);
    }
}

/// The subtree reached from the root of `t` by the path `p`: `false` steps to the only child
/// of a stem or the left child of a fork, `true` to the right child of a fork.
pub open spec fn subtree_at(t: Term, p: Seq<bool>) -> Option<Term>
    decreases p.len(),
{
    if p.len() == 0 {
        Some(t)
    } else {
        match t {
            Term::Leaf => None,
            Term::Stem(c) => if !p[0] {
                subtree_at(*c, p.drop_first())
            } else {
                None
            },
            Term::Fork(l, r) => if !p[0] {
                subtree_at(*l, p.drop_first())
            } else {
                subtree_at(*r, p.drop_first())
            },
        }
    }
}

/// No path from the root of a tree is longer than its depth.
pub proof fn law_depth_bounds_paths(t: Term, p: Seq<bool>)
    requires
        subtree_at(t, p) is Some,
    ensures
        p.len() <= term_depth(t),
    decreases p.len(),
{
    if p.len() > 0 {
        match t {
            Term::Leaf => {},
            Term::Stem(c) => {
                law_depth_bounds_paths(*c, p.drop_first());
            },
            Term::Fork(l, r) => {
                if !p[0] {
                    law_depth_bounds_paths(*l, p.drop_first());
                } else {
                    law_depth_bounds_paths(*r, p.drop_first());
                }
            },
        }
    }
}

/// Some path from the root of a tree as long as its depth ends at a leaf: the depth is the
/// length of the longest path.
pub proof fn law_depth_is_reached(t: Term) -> (p: Seq<bool>)
    ensures
        subtree_at(t, p) == Some(Term::Leaf),
        p.len() == term_depth(t),
    decreases t,
{
    match t {
        Term::Leaf => Seq::<bool>::empty(),
        Term::Stem(c) => {
            let q = law_depth_is_reached(*c);
            let p = seq![false] + q;
            assert(p.drop_first() =~= q);
            p
        },
        Term::Fork(l, r) => {
            if term_depth(*l) >= term_depth(*r) {
                let q = law_depth_is_reached(*l);
                let p = seq![false] + q;
                assert(p.drop_first() =~= q);
                p
            } else {
                let q = law_depth_is_reached(*r);
                let p = seq![true] + q;
                assert(p.drop_first() =~= q);
                p
            }
        },
    }
}

/// The text of a tree starts with `t` for a leaf and with `(` otherwise.
proof fn lemma_show_first(t: Term)
    ensures
        show(t).len() >= 1,
        show(t)[0] == (if t is Leaf { 't' } else { '(' }),
{
    reveal_strlit("t");
    reveal_strlit("(t ");
}

/// A prefix can be cancelled.
proof fn lemma_cancel_prefix(p: Seq<char>, x: Seq<char>, y: Seq<char>)
    requires
        p + x == p + y,
    ensures
        x == y,
{
    assert(x =~= (p + x).subrange(p.len() as int, (p + x).len() as int));
    assert(y =~= (p + y).subrange(p.len() as int, (p + y).len() as int));
}

/// What follows `(t ` in the text of a stem or fork `t`, and then `s`.
spec fn show_rest(t: Term, s: Seq<char>) -> Seq<char> {
    match t {
        Term::Stem(c) => show(*c) + (")"@ + s),
        Term::Fork(l, r) => show(*l) + (" "@ + show(*r) + ")"@ + s),
        Term::Leaf => s,
    }
}

/// The text of a stem or fork opens with `(t `.
proof fn lemma_show_open(t: Term, s: Seq<char>)
    requires
        !(t is Leaf),
    ensures
        show(t) + s == "(t "@ + show_rest(t, s),
{
    match t {
        Term::Stem(c) => {
            assert(show(t) + s =~= "(t "@ + (show(*c) + (")"@ + s)));
        },
        Term::Fork(l, r) => {
            assert(show(t) + s =~= "(t "@ + (show(*l) + (" "@ + show(*r) + ")"@ + s)));
        },
        Term::Leaf => {},
    }
}

/// Text that starts with the writing of a tree can be read back one way only.
proof fn lemma_show_prefix(a: Term, b: Term, s1: Seq<char>, s2: Seq<char>)
    requires
        show(a) + s1 == show(b) + s2,
    ensures
        a == b,
        s1 == s2,
    decreases a,
{
    reveal_strlit("t");
    reveal_strlit("(t ");
    reveal_strlit(" ");
    reveal_strlit(")");
    lemma_show_first(a);
    lemma_show_first(b);
    assert((show(a) + s1)[0] == show(a)[0]);
    assert((show(b) + s2)[0] == show(b)[0]);
    if a is Leaf {
        lemma_cancel_prefix(show(a), s1, s2);
    } else {
        lemma_show_open(a, s1);
        lemma_show_open(b, s2);
        lemma_cancel_prefix("(t "@, show_rest(a, s1), show_rest(b, s2));
        let (ca, ta) = match a {
            Term::Stem(c) => (*c, ")"@ + s1),
            Term::Fork(l, r) => (*l, " "@ + show(*r) + ")"@ + s1),
            Term::Leaf => (a, s1),
        };
        let (cb, tb) = match b {
            Term::Stem(c) => (*c, ")"@ + s2),
            Term::Fork(l, r) => (*l, " "@ + show(*r) + ")"@ + s2),
            Term::Leaf => (b, s2),
        };
        assert(show_rest(a, s1) == show(ca) + ta);
        assert(show_rest(b, s2) == show(cb) + tb);
        lemma_show_prefix(ca, cb, ta, tb);
        assert(ta[0] == tb[0]);
        match (a, b) {
            (Term::Stem(_), Term::Stem(_)) => {
                lemma_cancel_prefix(")"@, s1, s2);
            },
            (Term::Fork(_, ra), Term::Fork(_, rb)) => {
                assert(ta == " "@ + (show(*ra) + (")"@ + s1))) by {
                    assert(ta =~= " "@ + (show(*ra) + (")"@ + s1)));
                }
                assert(tb == " "@ + (show(*rb) + (")"@ + s2))) by {
                    assert(tb =~= " "@ + (show(*rb) + (")"@ + s2)));
                }
                lemma_cancel_prefix(" "@, show(*ra) + (")"@ + s1), show(*rb) + (")"@ + s2));
                lemma_show_prefix(*ra, *rb, ")"@ + s1, ")"@ + s2);
                lemma_cancel_prefix(")"@, s1, s2);
            },
            _ => {},
        }
    }
}

/// Different trees are written differently: the text of a tree determines the tree.
pub proof fn law_show_injective(a: Term, b: Term)
    requires
        show(a) == show(b),
    ensures
        a == b,
{
    assert(show(a) + Seq::<char>::empty() =~= show(b) + Seq::<char>::empty());
    lemma_show_prefix(a, b, Seq::<char>::empty(), Seq::<char>::empty());
}

/// The debug text of a tree starts with `L`, `S` or `F` after its kind.
proof fn lemma_show_debug_first(t: Term)
    ensures
        show_debug(t).len() >= 1,
        show_debug(t)[0] == (match t {
            Term::Leaf => 'L',
            Term::Stem(_) => 'S',
            Term::Fork(_, _) => 'F',
        }),
{
    reveal_strlit("Leaf");
    reveal_strlit("Stem(");
    reveal_strlit("Fork(");
}

/// Text that starts with the debug writing of a tree can be read back one way only.
proof fn lemma_show_debug_prefix(a: Term, b: Term, s1: Seq<char>, s2: Seq<char>)
    requires
        show_debug(a) + s1 == show_debug(b) + s2,
    ensures
        a == b,
        s1 == s2,
    decreases a,
{
    reveal_strlit("Leaf");
    reveal_strlit("Stem(");
    reveal_strlit("Fork(");
    reveal_strlit(", ");
    reveal_strlit(")");
    lemma_show_debug_first(a);
    lemma_show_debug_first(b);
    assert((show_debug(a) + s1)[0] == show_debug(a)[0]);
    assert((show_debug(b) + s2)[0] == show_debug(b)[0]);
    match (a, b) {
        (Term::Leaf, Term::Leaf) => {
            lemma_cancel_prefix(show_debug(a), s1, s2);
        },
        (Term::Stem(ca), Term::Stem(cb)) => {
            assert(show_debug(a) + s1 =~= "Stem("@ + (show_debug(*ca) + (")"@ + s1)));
            assert(show_debug(b) + s2 =~= "Stem("@ + (show_debug(*cb) + (")"@ + s2)));
            lemma_cancel_prefix("Stem("@, show_debug(*ca) + (")"@ + s1), show_debug(*cb) + (")"@ + s2));
            lemma_show_debug_prefix(*ca, *cb, ")"@ + s1, ")"@ + s2);
            lemma_cancel_prefix(")"@, s1, s2);
        },
        (Term::Fork(la, ra), Term::Fork(lb, rb)) => {
            let ta = ", "@ + (show_debug(*ra) + (")"@ + s1));
            let tb = ", "@ + (show_debug(*rb) + (")"@ + s2));
            assert(show_debug(a) + s1 =~= "Fork("@ + (show_debug(*la) + ta));
            assert(show_debug(b) + s2 =~= "Fork("@ + (show_debug(*lb) + tb));
            lemma_cancel_prefix("Fork("@, show_debug(*la) + ta, show_debug(*lb) + tb);
            lemma_show_debug_prefix(*la, *lb, ta, tb);
            lemma_cancel_prefix(", "@, show_debug(*ra) + (")"@ + s1), show_debug(*rb) + (")"@ + s2));
            lemma_show_debug_prefix(*ra, *rb, ")"@ + s1, ")"@ + s2);
            lemma_cancel_prefix(")"@, s1, s2);
        },
        _ => {},
    }
}

/// Different trees have different debug texts: the debug text of a tree determines the tree.
pub proof fn law_show_debug_injective(a: Term, b: Term)
    requires
        show_debug(a) == show_debug(b),
    ensures
        a == b,
{
    assert(show_debug(a) + Seq::<char>::empty() =~= show_debug(b) + Seq::<char>::empty());
    lemma_show_debug_prefix(a, b, Seq::<char>::empty(), Seq::<char>::empty());
}

} // verus!
