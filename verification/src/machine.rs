//! The reduction machine, as mathematics: a focus (an application about to be
//! entered, an application entered, or a value) and a stack of what is left to do.
//!
//! `run(x, s, fuel)` finishes the computation that the machine state stands for.
//! The machine's invariant, `machine_ok(x, s, f, z)`, says that whatever the state
//! finishes with is the normal form of `f z`, and that each cache frame on the stack
//! will receive the normal form of the application it records.
use vstd::prelude::*;
use crate::term::{eval, fork, lemma_eval_spends, lemma_rule_more_fuel, reduces, reduces_within, rule, stem, Term};

verus! {

/// What is left to do once the focus has become a value `r`.
pub enum Cont {
    /// `r` is `x b` of an S-rule; next compute `y b`, then `r (y b)`.
    SRight(Term, Term),
    /// `r` is `y b` of an S-rule; next compute `l r`.
    SApply(Term),
    /// `r` is `y u` of a fork-triage; next compute `r v`.
    ForkV(Term),
    /// `r` is the normal form of `a b`: record it.
    Cache(Term, Term),
}

/// What the machine is looking at.
pub enum Focus {
    /// The application `f z`, not yet entered.
    Pending(Term, Term),
    /// The application `f z`, entered: its rule is next.
    Entered(Term, Term),
    /// A normal form.
    Value(Term),
}

/// Feeds the value `r` to the stack `s`, top (last) first.
pub open spec fn resume(s: Seq<Cont>, r: Term, fuel: nat) -> Option<(Term, nat)>
    decreases s.len(),
{
    if s.len() == 0 {
        Some((r, fuel))
    } else {
        let rest = s.drop_last();
        match s.last() {
            Cont::Cache(_, _) => resume(rest, r, fuel),
            Cont::SRight(y, b) => match eval(y, b, fuel) {
                Some((yb, f1)) => match eval(r, yb, f1) {
                    Some((r2, f2)) => resume(rest, r2, f2),
                    None => None,
                },
                None => None,
            },
            Cont::SApply(l) => match eval(l, r, fuel) {
                Some((r2, f2)) => resume(rest, r2, f2),
                None => None,
            },
            Cont::ForkV(v) => match eval(r, v, fuel) {
                Some((r2, f2)) => resume(rest, r2, f2),
                None => None,
            },
        }
    }
}

/// Finishes the computation of the state `x` with stack `s`.
pub open spec fn run(x: Focus, s: Seq<Cont>, fuel: nat) -> Option<(Term, nat)> {
    match x {
        Focus::Pending(f, z) => match eval(f, z, fuel) {
            Some((r, m)) => resume(s, r, m),
            None => None,
        },
        Focus::Entered(f, z) => match rule(f, z, fuel) {
            Some((r, m)) => resume(s, r, m),
            None => None,
        },
        Focus::Value(r) => resume(s, r, fuel),
    }
}

/// The state finishes with `t` when given `fuel`.
pub open spec fn gives(x: Focus, s: Seq<Cont>, fuel: nat, t: Term) -> bool {
    run(x, s, fuel) is Some && run(x, s, fuel).unwrap().0 == t
}

/// Whatever the state finishes with is the normal form of `a b`.
pub open spec fn sound_for(x: Focus, s: Seq<Cont>, a: Term, b: Term) -> bool {
    forall|t: Term, m: nat| #[trigger] gives(x, s, m, t) ==> reduces(a, b, t)
}

/// The cache frame at `i`, if it is one, receives the normal form of its application.
pub open spec fn frame_sound(x: Focus, s: Seq<Cont>, i: int) -> bool {
    match s[i] {
        Cont::Cache(a, b) => sound_for(x, s.subrange(i + 1, s.len() as int), a, b),
        _ => true,
    }
}

/// Every cache frame on the stack receives the normal form of its application.
pub open spec fn frames_sound(x: Focus, s: Seq<Cont>) -> bool {
    forall|i: int| 0 <= i < s.len() ==> #[trigger] frame_sound(x, s, i)
}

/// The machine's invariant for the computation of `f z`.
pub open spec fn machine_ok(x: Focus, s: Seq<Cont>, f: Term, z: Term) -> bool {
    sound_for(x, s, f, z) && frames_sound(x, s)
}

/// Each result of `x2` on top of `tn` is also a result of `x` on top of `to`, whatever lies below.
pub open spec fn simulates(x2: Focus, tn: Seq<Cont>, x: Focus, to: Seq<Cont>) -> bool {
    forall|s0: Seq<Cont>, m: nat, t: Term| #[trigger]
        gives(x2, s0 + tn, m, t) ==> exists|m2: nat| gives(x, s0 + to, m2, t)
}

/// The value of `s + [c]` for the resume of a value.
pub proof fn lemma_push_parts(s: Seq<Cont>, c: Cont)
    ensures
        (s + seq![c]).drop_last() == s,
        (s + seq![c]).last() == c,
        (s + seq![c]).len() == s.len() + 1,
{
    assert((s + seq![c]).drop_last() =~= s);
}

/// A transition whose new state computes exactly what the old one does, with `d` fuel spent.
pub proof fn lemma_simulates_by_equality(x2: Focus, tn: Seq<Cont>, x: Focus, to: Seq<Cont>, d: nat)
    requires
        forall|s0: Seq<Cont>, m: nat| #[trigger] run(x2, s0 + tn, m) == run(x, s0 + to, m + d),
    ensures
        simulates(x2, tn, x, to),
{
    assert forall|s0: Seq<Cont>, m: nat, t: Term| #[trigger]
        gives(x2, s0 + tn, m, t) implies exists|m2: nat| gives(x, s0 + to, m2, t) by {
        assert(run(x2, s0 + tn, m) == run(x, s0 + to, m + d));
        assert(gives(x, s0 + to, m + d, t));
    }
}

/// The invariant carries over a transition that changes only the top of the stack.
pub proof fn lemma_transfer(
    x: Focus,
    p: Seq<Cont>,
    to: Seq<Cont>,
    x2: Focus,
    tn: Seq<Cont>,
    f: Term,
    z: Term,
)
    requires
        machine_ok(x, p + to, f, z),
        simulates(x2, tn, x, to),
        forall|j: int| 0 <= j < tn.len() ==> !(#[trigger] tn[j] is Cache),
    ensures
        machine_ok(x2, p + tn, f, z),
{
    assert forall|t: Term, m: nat| #[trigger] gives(x2, p + tn, m, t) implies reduces(f, z, t) by {
        let m2 = choose|m2: nat| gives(x, p + to, m2, t);
    }
    let s2 = p + tn;
    let s1 = p + to;
    assert forall|i: int| 0 <= i < s2.len() implies #[trigger] frame_sound(x2, s2, i) by {
        if i < p.len() {
            let q = p.subrange(i + 1, p.len() as int);
            assert(s2.subrange(i + 1, s2.len() as int) =~= q + tn);
            assert(s1.subrange(i + 1, s1.len() as int) =~= q + to);
            assert(frame_sound(x, s1, i));
            assert(s1[i] == s2[i]);
            match s2[i] {
                Cont::Cache(a, b) => {
                    assert forall|t: Term, m: nat| #[trigger] gives(x2, q + tn, m, t) implies reduces(a, b, t) by {
                        let m2 = choose|m2: nat| gives(x, q + to, m2, t);
                    }
                },
                _ => {},
            }
        } else {
            assert(s2[i] == tn[i - p.len()]);
        }
    }
}

/// Entering an application spends one unit of fuel.
pub proof fn lemma_enter(f: Term, z: Term)
    ensures
        forall|s: Seq<Cont>, m: nat| #[trigger] run(Focus::Entered(f, z), s, m) == run(Focus::Pending(f, z), s, m + 1),
        simulates(Focus::Entered(f, z), seq![], Focus::Pending(f, z), seq![]),
{
    assert forall|s: Seq<Cont>, m: nat| #[trigger] run(Focus::Entered(f, z), s, m) == run(Focus::Pending(f, z), s, m + 1) by {
        assert((m + 1 - 1) as nat == m);
    }
    assert forall|s0: Seq<Cont>, m: nat| #[trigger] run(Focus::Entered(f, z), s0 + seq![], m)
        == run(Focus::Pending(f, z), s0 + seq![], m + 1) by {
        assert(s0 + seq![] =~= s0);
    }
    lemma_simulates_by_equality(Focus::Entered(f, z), seq![], Focus::Pending(f, z), seq![], 1);
}


/// The rules that give a value at once: `Leaf z`, `Stem(a) z`, `Fork(Leaf, y) z` and `Fork(Fork(w, x), y) Leaf`.
pub open spec fn immediate(f: Term, z: Term) -> Option<Term> {
    match f {
        Term::Leaf => Some(stem(z)),
        Term::Stem(a) => Some(fork(*a, z)),
        Term::Fork(l, y) => match *l {
            Term::Leaf => Some(*y),
            Term::Stem(_) => None,
            Term::Fork(w, _) => match z {
                Term::Leaf => Some(*w),
                _ => None,
            },
        },
    }
}

/// An immediate rule turns the entered application into its value, spending nothing.
pub proof fn lemma_immediate(f: Term, z: Term, r: Term)
    requires
        immediate(f, z) == Some(r),
    ensures
        forall|s: Seq<Cont>, m: nat| #[trigger] run(Focus::Value(r), s, m) == run(Focus::Entered(f, z), s, m),
        simulates(Focus::Value(r), seq![], Focus::Entered(f, z), seq![]),
{
    assert forall|s0: Seq<Cont>, m: nat| #[trigger] run(Focus::Value(r), s0 + seq![], m)
        == run(Focus::Entered(f, z), s0 + seq![], m + 0) by {
        assert(s0 + seq![] =~= s0);
    }
    lemma_simulates_by_equality(Focus::Value(r), seq![], Focus::Entered(f, z), seq![], 0);
}

/// S-rule: `Fork(Stem(x), y) z` continues with `x z`, keeping `y z` for later.
pub proof fn lemma_s_rule(x: Term, y: Term, z: Term)
    ensures
        forall|s: Seq<Cont>, m: nat| #[trigger] run(Focus::Pending(x, z), s + seq![Cont::SRight(y, z)], m)
            == run(Focus::Entered(fork(stem(x), y), z), s, m),
        simulates(Focus::Pending(x, z), seq![Cont::SRight(y, z)], Focus::Entered(fork(stem(x), y), z), seq![]),
{
    let f = fork(stem(x), y);
    assert forall|s: Seq<Cont>, m: nat| #[trigger] run(Focus::Pending(x, z), s + seq![Cont::SRight(y, z)], m)
        == run(Focus::Entered(f, z), s, m) by {
        lemma_push_parts(s, Cont::SRight(y, z));
        lemma_eval_spends(x, z, m);
        if let Some((xz, f1)) = eval(x, z, m) {
            lemma_eval_spends(y, z, f1);
        }
    }
    assert forall|s0: Seq<Cont>, m: nat| #[trigger] run(Focus::Pending(x, z), s0 + seq![Cont::SRight(y, z)], m)
        == run(Focus::Entered(f, z), s0 + seq![], m + 0) by {
        assert(s0 + seq![] =~= s0);
    }
    lemma_simulates_by_equality(Focus::Pending(x, z), seq![Cont::SRight(y, z)], Focus::Entered(f, z), seq![], 0);
}

/// Stem-triage: `Fork(Fork(w, x), y) Stem(u)` continues with `x u`.
pub proof fn lemma_triage_stem(w: Term, x: Term, y: Term, u: Term)
    ensures
        forall|s: Seq<Cont>, m: nat| #[trigger] run(Focus::Pending(x, u), s, m)
            == run(Focus::Entered(fork(fork(w, x), y), stem(u)), s, m),
        simulates(Focus::Pending(x, u), seq![], Focus::Entered(fork(fork(w, x), y), stem(u)), seq![]),
{
    let f = fork(fork(w, x), y);
    assert forall|s0: Seq<Cont>, m: nat| #[trigger] run(Focus::Pending(x, u), s0 + seq![], m)
        == run(Focus::Entered(f, stem(u)), s0 + seq![], m + 0) by {
        assert(s0 + seq![] =~= s0);
    }
    lemma_simulates_by_equality(Focus::Pending(x, u), seq![], Focus::Entered(f, stem(u)), seq![], 0);
}

/// Fork-triage: `Fork(Fork(w, x), y) Fork(u, v)` continues with `y u`, keeping `v` for later.
pub proof fn lemma_triage_fork(w: Term, x: Term, y: Term, u: Term, v: Term)
    ensures
        forall|s: Seq<Cont>, m: nat| #[trigger] run(Focus::Pending(y, u), s + seq![Cont::ForkV(v)], m)
            == run(Focus::Entered(fork(fork(w, x), y), fork(u, v)), s, m),
        simulates(Focus::Pending(y, u), seq![Cont::ForkV(v)], Focus::Entered(fork(fork(w, x), y), fork(u, v)), seq![]),
{
    let f = fork(fork(w, x), y);
    let z = fork(u, v);
    assert forall|s: Seq<Cont>, m: nat| #[trigger] run(Focus::Pending(y, u), s + seq![Cont::ForkV(v)], m)
        == run(Focus::Entered(f, z), s, m) by {
        lemma_push_parts(s, Cont::ForkV(v));
        lemma_eval_spends(y, u, m);
    }
    assert forall|s0: Seq<Cont>, m: nat| #[trigger] run(Focus::Pending(y, u), s0 + seq![Cont::ForkV(v)], m)
        == run(Focus::Entered(f, z), s0 + seq![], m + 0) by {
        assert(s0 + seq![] =~= s0);
    }
    lemma_simulates_by_equality(Focus::Pending(y, u), seq![Cont::ForkV(v)], Focus::Entered(f, z), seq![], 0);
}

/// Recording the entered application `f z` in a cache frame keeps the invariant.
pub proof fn lemma_cache_push(f: Term, z: Term, s: Seq<Cont>, a: Term, b: Term)
    requires
        machine_ok(Focus::Entered(f, z), s, a, b),
    ensures
        forall|s2: Seq<Cont>, m: nat| #[trigger] run(Focus::Entered(f, z), s2 + seq![Cont::Cache(f, z)], m)
            == run(Focus::Entered(f, z), s2, m),
        machine_ok(Focus::Entered(f, z), s + seq![Cont::Cache(f, z)], a, b),
{
    let x = Focus::Entered(f, z);
    let c = Cont::Cache(f, z);
    assert forall|s2: Seq<Cont>, m: nat| #[trigger] run(x, s2 + seq![c], m) == run(x, s2, m) by {
        lemma_push_parts(s2, c);
    }
    assert forall|s0: Seq<Cont>, m: nat| #[trigger] run(x, s0 + seq![c], m) == run(x, s0 + seq![], m + 0) by {
        assert(s0 + seq![] =~= s0);
    }
    lemma_simulates_by_equality(x, seq![c], x, seq![], 0);
    assert(s + seq![] =~= s);
    lemma_transfer_top_cache(x, s, f, z, a, b);
}

/// Helper of `lemma_cache_push`: the frame below and the new frame.
proof fn lemma_transfer_top_cache(x: Focus, s: Seq<Cont>, f: Term, z: Term, a: Term, b: Term)
    requires
        x == Focus::Entered(f, z),
        machine_ok(x, s, a, b),
        forall|s2: Seq<Cont>, m: nat| #[trigger] run(x, s2 + seq![Cont::Cache(f, z)], m) == run(x, s2, m),
    ensures
        machine_ok(x, s + seq![Cont::Cache(f, z)], a, b),
{
    let c = Cont::Cache(f, z);
    let s2 = s + seq![c];
    assert forall|t: Term, m: nat| #[trigger] gives(x, s2, m, t) implies reduces(a, b, t) by {
        assert(run(x, s2, m) == run(x, s, m));
        assert(gives(x, s, m, t));
    }
    assert forall|i: int| 0 <= i < s2.len() implies #[trigger] frame_sound(x, s2, i) by {
        if i < s.len() {
            let q = s.subrange(i + 1, s.len() as int);
            assert(s2.subrange(i + 1, s2.len() as int) =~= q + seq![c]);
            assert(frame_sound(x, s, i));
            assert(s2[i] == s[i]);
            match s[i] {
                Cont::Cache(a1, b1) => {
                    assert forall|t: Term, m: nat| #[trigger] gives(x, q + seq![c], m, t) implies reduces(a1, b1, t) by {
                        assert(run(x, q + seq![c], m) == run(x, q, m));
                        assert(gives(x, q, m, t));
                    }
                },
                _ => {},
            }
        } else {
            assert(s2[i] == c);
            assert(s2.subrange(i + 1, s2.len() as int) =~= Seq::<Cont>::empty());
            assert forall|t: Term, m: nat| #[trigger] gives(x, Seq::<Cont>::empty(), m, t) implies reduces(f, z, t) by {
                assert(eval(f, z, m + 1) == rule(f, z, m));
                assert(reduces_within(f, z, t, m + 1));
            }
        }
    }
}

/// A cached normal form `r` of the entered `f z` replaces the computation.
pub proof fn lemma_cache_hit(f: Term, z: Term, r: Term)
    requires
        reduces(f, z, r),
    ensures
        simulates(Focus::Value(r), seq![], Focus::Entered(f, z), seq![]),
        forall|s: Seq<Cont>, m: nat| rule(f, z, m) is Some ==> #[trigger] run(Focus::Entered(f, z), s, m)
            == run(Focus::Value(r), s, rule(f, z, m).unwrap().1),
{
    let n0 = choose|n: nat| reduces_within(f, z, r, n);
    assert(n0 > 0);
    let k0 = eval(f, z, n0).unwrap().1;
    assert(rule(f, z, (n0 - 1) as nat) == Some((r, k0)));
    assert forall|s0: Seq<Cont>, m: nat, t: Term| #[trigger] gives(Focus::Value(r), s0 + seq![], m, t)
        implies exists|m2: nat| gives(Focus::Entered(f, z), s0 + seq![], m2, t) by {
        assert(s0 + seq![] =~= s0);
        lemma_rule_more_fuel(f, z, (n0 - 1) as nat, m);
        lemma_resume_more_fuel(s0, r, m, k0);
        assert(resume(s0, r, m + k0) == Some((t, run(Focus::Value(r), s0, m).unwrap().1 + k0)));
        assert(gives(Focus::Entered(f, z), s0 + seq![], (n0 - 1) as nat + m, t));
    }
    assert forall|s: Seq<Cont>, m: nat| rule(f, z, m) is Some implies #[trigger] run(Focus::Entered(f, z), s, m)
        == run(Focus::Value(r), s, rule(f, z, m).unwrap().1) by {
        assert(eval(f, z, m + 1) == rule(f, z, m));
        crate::term::lemma_eval_deterministic(f, z, m + 1, n0);
    }
}

/// More fuel for the stack gives the same result, with the extra fuel left over.
pub proof fn lemma_resume_more_fuel(s: Seq<Cont>, r: Term, fuel: nat, extra: nat)
    requires
        resume(s, r, fuel) is Some,
    ensures
        resume(s, r, fuel + extra) == Some(
            (resume(s, r, fuel).unwrap().0, resume(s, r, fuel).unwrap().1 + extra),
        ),
    decreases s.len(),
{
    if s.len() > 0 {
        let rest = s.drop_last();
        match s.last() {
            Cont::Cache(_, _) => {
                lemma_resume_more_fuel(rest, r, fuel, extra);
            },
            Cont::SRight(y, b) => {
                let (yb, f1) = eval(y, b, fuel).unwrap();
                crate::term::lemma_eval_more_fuel(y, b, fuel, extra);
                let (r2, f2) = eval(r, yb, f1).unwrap();
                crate::term::lemma_eval_more_fuel(r, yb, f1, extra);
                lemma_resume_more_fuel(rest, r2, f2, extra);
            },
            Cont::SApply(l) => {
                let (r2, f2) = eval(l, r, fuel).unwrap();
                crate::term::lemma_eval_more_fuel(l, r, fuel, extra);
                lemma_resume_more_fuel(rest, r2, f2, extra);
            },
            Cont::ForkV(v) => {
                let (r2, f2) = eval(r, v, fuel).unwrap();
                crate::term::lemma_eval_more_fuel(r, v, fuel, extra);
                lemma_resume_more_fuel(rest, r2, f2, extra);
            },
        }
    }
}

/// Feeding a value to the stack leaves at most the fuel it was given.
pub proof fn lemma_resume_spends(s: Seq<Cont>, r: Term, fuel: nat)
    ensures
        resume(s, r, fuel) matches Some((_, left)) ==> left <= fuel,
    decreases s.len(),
{
    if s.len() > 0 {
        let rest = s.drop_last();
        match s.last() {
            Cont::Cache(_, _) => {
                lemma_resume_spends(rest, r, fuel);
            },
            Cont::SRight(y, b) => {
                lemma_eval_spends(y, b, fuel);
                if let Some((yb, f1)) = eval(y, b, fuel) {
                    lemma_eval_spends(r, yb, f1);
                    if let Some((r2, f2)) = eval(r, yb, f1) {
                        lemma_resume_spends(rest, r2, f2);
                    }
                }
            },
            Cont::SApply(l) => {
                lemma_eval_spends(l, r, fuel);
                if let Some((r2, f2)) = eval(l, r, fuel) {
                    lemma_resume_spends(rest, r2, f2);
                }
            },
            Cont::ForkV(v) => {
                lemma_eval_spends(r, v, fuel);
                if let Some((r2, f2)) = eval(r, v, fuel) {
                    lemma_resume_spends(rest, r2, f2);
                }
            },
        }
    }
}

/// Finishing a machine state leaves at most the fuel it was given.
pub proof fn lemma_run_spends(x: Focus, s: Seq<Cont>, fuel: nat)
    ensures
        run(x, s, fuel) matches Some((_, left)) ==> left <= fuel,
{
    match x {
        Focus::Pending(f, z) => {
            lemma_eval_spends(f, z, fuel);
            if let Some((r, m)) = eval(f, z, fuel) {
                lemma_resume_spends(s, r, m);
            }
        },
        Focus::Entered(f, z) => {
            crate::term::lemma_rule_spends(f, z, fuel);
            if let Some((r, m)) = rule(f, z, fuel) {
                lemma_resume_spends(s, r, m);
            }
        },
        Focus::Value(r) => {
            lemma_resume_spends(s, r, fuel);
        },
    }
}

/// Popping a cache frame: the value is the normal form the frame records.
pub proof fn lemma_pop_cache(r: Term, a: Term, b: Term, s: Seq<Cont>, f: Term, z: Term)
    requires
        machine_ok(Focus::Value(r), s + seq![Cont::Cache(a, b)], f, z),
    ensures
        reduces(a, b, r),
        machine_ok(Focus::Value(r), s, f, z),
        forall|m: nat| #[trigger] run(Focus::Value(r), s, m) == run(Focus::Value(r), s + seq![Cont::Cache(a, b)], m),
{
    let x = Focus::Value(r);
    let c = Cont::Cache(a, b);
    let s2 = s + seq![c];
    assert forall|s0: Seq<Cont>, m: nat| #[trigger] run(x, s0 + seq![], m) == run(x, s0 + seq![c], m + 0) by {
        assert(s0 + seq![] =~= s0);
        lemma_push_parts(s0, c);
    }
    lemma_simulates_by_equality(x, seq![], x, seq![c], 0);
    lemma_transfer(x, s, seq![c], x, seq![], f, z);
    assert(s + seq![] =~= s);
    assert(frame_sound(x, s2, s.len() as int));
    assert(s2[s.len() as int] == c);
    assert(s2.subrange(s.len() as int + 1, s2.len() as int) =~= Seq::<Cont>::empty());
    assert(gives(x, Seq::<Cont>::empty(), 0, r));
    assert forall|m: nat| #[trigger] run(x, s, m) == run(x, s2, m) by {
        lemma_push_parts(s, c);
    }
}

/// Popping the S-rule frame after `x z`: next compute `y z`, keeping `x z` for later.
pub proof fn lemma_pop_sright(r: Term, y: Term, b: Term)
    ensures
        forall|s: Seq<Cont>, m: nat| #[trigger] run(Focus::Pending(y, b), s + seq![Cont::SApply(r)], m)
            == run(Focus::Value(r), s + seq![Cont::SRight(y, b)], m),
        simulates(Focus::Pending(y, b), seq![Cont::SApply(r)], Focus::Value(r), seq![Cont::SRight(y, b)]),
{
    assert forall|s: Seq<Cont>, m: nat| #[trigger] run(Focus::Pending(y, b), s + seq![Cont::SApply(r)], m)
        == run(Focus::Value(r), s + seq![Cont::SRight(y, b)], m + 0) by {
        lemma_push_parts(s, Cont::SApply(r));
        lemma_push_parts(s, Cont::SRight(y, b));
    }
    lemma_simulates_by_equality(Focus::Pending(y, b), seq![Cont::SApply(r)], Focus::Value(r), seq![Cont::SRight(y, b)], 0);
}

/// Popping the S-rule frame after `y z`: next compute `(x z) (y z)`.
pub proof fn lemma_pop_sapply(r: Term, l: Term)
    ensures
        forall|s: Seq<Cont>, m: nat| #[trigger] run(Focus::Pending(l, r), s, m)
            == run(Focus::Value(r), s + seq![Cont::SApply(l)], m),
        simulates(Focus::Pending(l, r), seq![], Focus::Value(r), seq![Cont::SApply(l)]),
{
    assert forall|s: Seq<Cont>, m: nat| #[trigger] run(Focus::Pending(l, r), s, m)
        == run(Focus::Value(r), s + seq![Cont::SApply(l)], m) by {
        lemma_push_parts(s, Cont::SApply(l));
    }
    assert forall|s0: Seq<Cont>, m: nat| #[trigger] run(Focus::Pending(l, r), s0 + seq![], m)
        == run(Focus::Value(r), s0 + seq![Cont::SApply(l)], m + 0) by {
        assert(s0 + seq![] =~= s0);
    }
    lemma_simulates_by_equality(Focus::Pending(l, r), seq![], Focus::Value(r), seq![Cont::SApply(l)], 0);
}

/// Popping the fork-triage frame after `y u`: next compute `(y u) v`.
pub proof fn lemma_pop_forkv(r: Term, v: Term)
    ensures
        forall|s: Seq<Cont>, m: nat| #[trigger] run(Focus::Pending(r, v), s, m)
            == run(Focus::Value(r), s + seq![Cont::ForkV(v)], m),
        simulates(Focus::Pending(r, v), seq![], Focus::Value(r), seq![Cont::ForkV(v)]),
{
    assert forall|s: Seq<Cont>, m: nat| #[trigger] run(Focus::Pending(r, v), s, m)
        == run(Focus::Value(r), s + seq![Cont::ForkV(v)], m) by {
        lemma_push_parts(s, Cont::ForkV(v));
    }
    assert forall|s0: Seq<Cont>, m: nat| #[trigger] run(Focus::Pending(r, v), s0 + seq![], m)
        == run(Focus::Value(r), s0 + seq![Cont::ForkV(v)], m + 0) by {
        assert(s0 + seq![] =~= s0);
    }
    lemma_simulates_by_equality(Focus::Pending(r, v), seq![], Focus::Value(r), seq![Cont::ForkV(v)], 0);
}

/// With nothing left to do, the value is the normal form.
pub proof fn lemma_finish(r: Term, f: Term, z: Term)
    requires
        machine_ok(Focus::Value(r), Seq::<Cont>::empty(), f, z),
    ensures
        reduces(f, z, r),
        forall|m: nat| #[trigger] run(Focus::Value(r), Seq::<Cont>::empty(), m) == Some((r, m)),
{
    assert(gives(Focus::Value(r), Seq::<Cont>::empty(), 0, r));
}

/// At the start, the machine looks at `f z` with nothing else to do.
pub proof fn lemma_start(f: Term, z: Term)
    ensures
        machine_ok(Focus::Pending(f, z), Seq::<Cont>::empty(), f, z),
        forall|m: nat| #[trigger] run(Focus::Pending(f, z), Seq::<Cont>::empty(), m) == eval(f, z, m),
{
    assert forall|t: Term, m: nat| #[trigger] gives(Focus::Pending(f, z), Seq::<Cont>::empty(), m, t)
        implies reduces(f, z, t) by {
        assert(reduces_within(f, z, t, m));
    }
}

} // verus!
