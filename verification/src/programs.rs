//! Core library programs as tree calculus values.
//!
//! `equal` (structural equality), `bf` (branch-first self-evaluator), and
//! `mirror` (self-recognition) are loaded from Rocq-proven ternary representations.
use vstd::prelude::*;
use vstd::string::StringSliceAdditionalSpecFns;
use crate::parser::{fills, lemma_fills_parses, lemma_ternary_size, parse_ternary, ternary};
use crate::term::{term_size, Term};
use crate::tree::{TreeIndex, Trees};

verus! {

pub const EQUAL_TERNARY: &'static str = "212121202120112110102121200212002120112002120112002121200212002120102120021200212120021200212010211010212010211010202120102110102020211010202120112110102121200212002120112002120112002121200212002120102120021200212120021200212010211010212010211010202120102110102020211010202120112220221020202110102020202110102121200212002120112002120112012021101021201121101021201021101020202020202110102120112011201220211010202021101021212002120021201120021201120021201120112002120112011200212011201120112002120112011201120021212002120021201021200212002120112002120112002120112011200212011201120021201120112010212120021200212011200212011200212011201021201121101021201021101020202110102021201120102121200212002120112002120112002120112010212011211010212010211010202021101020202020202021101010211010";

/// The tree that `EQUAL_TERNARY` writes.
pub open spec fn equal_term() -> Term {
    ternary(EQUAL_TERNARY.spec_bytes())->Ok_0
}

/// `EQUAL_TERNARY` is a ternary string of 780 digits.
#[verifier::rlimit(100)]
proof fn lemma_equal_ternary()
    ensures
        EQUAL_TERNARY.spec_bytes().len() == 780,
        ternary(EQUAL_TERNARY.spec_bytes()) is Ok,
        term_size(equal_term()) == 780,
{
    broadcast use vstd::string::is_ascii_spec_bytes;

    reveal_strlit("212121202120112110102121200212002120112002120112002121200212002120102120021200212120021200212010211010212010211010202120102110102020211010202120112110102121200212002120112002120112002121200212002120102120021200212120021200212010211010212010211010202120102110102020211010202120112220221020202110102020202110102121200212002120112002120112012021101021201121101021201021101020202020202110102120112011201220211010202021101021212002120021201120021201120021201120112002120112011200212011201120112002120112011201120021212002120021201021200212002120112002120112002120112011200212011201120021201120112010212120021200212011200212011200212011201021201121101021201021101020202110102021201120102121200212002120112002120112002120112010212011211010212010211010202021101020202020202021101010211010");
    assert(vstd::string::is_ascii(EQUAL_TERNARY));
    let b = EQUAL_TERNARY.spec_bytes();
    reveal_with_fuel(fills, 21);
    assert(fills(b, 780, 0));
    assert(fills(b, 760, 3));
    assert(fills(b, 740, 6));
    assert(fills(b, 720, 5));
    assert(fills(b, 700, 6));
    assert(fills(b, 680, 4));
    assert(fills(b, 660, 5));
    assert(fills(b, 640, 7));
    assert(fills(b, 620, 7));
    assert(fills(b, 600, 7));
    assert(fills(b, 580, 5));
    assert(fills(b, 560, 6));
    assert(fills(b, 540, 6));
    assert(fills(b, 520, 5));
    assert(fills(b, 500, 5));
    assert(fills(b, 480, 5));
    assert(fills(b, 460, 5));
    assert(fills(b, 440, 5));
    assert(fills(b, 420, 4));
    assert(fills(b, 400, 5));
    assert(fills(b, 380, 4));
    assert(fills(b, 360, 6));
    assert(fills(b, 340, 6));
    assert(fills(b, 320, 5));
    assert(fills(b, 300, 5));
    assert(fills(b, 280, 5));
    assert(fills(b, 260, 3));
    assert(fills(b, 240, 5));
    assert(fills(b, 220, 8));
    assert(fills(b, 200, 5));
    assert(fills(b, 180, 6));
    assert(fills(b, 160, 5));
    assert(fills(b, 140, 3));
    assert(fills(b, 120, 6));
    assert(fills(b, 100, 7));
    assert(fills(b, 80, 7));
    assert(fills(b, 60, 8));
    assert(fills(b, 40, 6));
    assert(fills(b, 20, 4));
    assert(fills(b, 0, 1));
    lemma_fills_parses(b);
    lemma_ternary_size(b, 0);
}

/// The structural equality program: applied to two trees it gives `K` when they are equal.
pub fn equal(trees: &mut Trees) -> (r: TreeIndex)
    requires
        old(trees).wf(),
        old(trees).has_room(780),
    ensures
        final(trees).wf(),
        final(trees).extends(old(trees)),
        final(trees).valid(r),
        final(trees).interned(r),
        final(trees).term(r) == equal_term(),
        term_size(equal_term()) == 780,
{
    proof {
        lemma_equal_ternary();
    }
    parse_ternary(trees, EQUAL_TERNARY).expect("EQUAL_TERNARY is a Rocq-proven constant; parse must succeed")
}

pub const BF_TERNARY: &'static str = "2121212021201121101021212002120021201120021201120021212002120021201021200212002121200212002120102110102120102110102021201021101020202110102021201121101021212002120021201120021201120021212002120021201021200212002121200212002120102110102120102110102021201021101020202110102021201200212120021201102121200212002120112002120112002120112010212011200212011200212011201120212011212022212110102002120112110102120102120021101021201120112110102120112010212120021200212010212002110102021101021101021201021101021212002120021201021200212002120102110102121200212002120102110102021101021201021212002120021201021101020211010212120021200212011200212011200212011201120021201120112002120112011201021201120112002120112120021200212010212002110102120102121200212002120102110102021101021201021201021212002120021201021212002120021201021200212002120102110102121200212002120102110102021101020211010211010";

/// The tree that `BF_TERNARY` writes.
pub open spec fn bf_term() -> Term {
    ternary(BF_TERNARY.spec_bytes())->Ok_0
}

/// `BF_TERNARY` is a ternary string of 877 digits.
#[verifier::rlimit(100)]
proof fn lemma_bf_ternary()
    ensures
        BF_TERNARY.spec_bytes().len() == 877,
        ternary(BF_TERNARY.spec_bytes()) is Ok,
        term_size(bf_term()) == 877,
{
    broadcast use vstd::string::is_ascii_spec_bytes;

    reveal_strlit("2121212021201121101021212002120021201120021201120021212002120021201021200212002121200212002120102110102120102110102021201021101020202110102021201121101021212002120021201120021201120021212002120021201021200212002121200212002120102110102120102110102021201021101020202110102021201200212120021201102121200212002120112002120112002120112010212011200212011200212011201120212011212022212110102002120112110102120102120021101021201120112110102120112010212120021200212010212002110102021101021101021201021101021212002120021201021200212002120102110102121200212002120102110102021101021201021212002120021201021101020211010212120021200212011200212011200212011201120021201120112002120112011201021201120112002120112120021200212010212002110102120102121200212002120102110102021101021201021201021212002120021201021212002120021201021200212002120102110102121200212002120102110102021101020211010211010");
    assert(vstd::string::is_ascii(BF_TERNARY));
    let b = BF_TERNARY.spec_bytes();
    reveal_with_fuel(fills, 21);
    assert(fills(b, 877, 0));
    assert(fills(b, 857, 3));
    assert(fills(b, 837, 5));
    assert(fills(b, 817, 6));
    assert(fills(b, 797, 5));
    assert(fills(b, 777, 4));
    assert(fills(b, 757, 4));
    assert(fills(b, 737, 5));
    assert(fills(b, 717, 4));
    assert(fills(b, 697, 5));
    assert(fills(b, 677, 3));
    assert(fills(b, 657, 5));
    assert(fills(b, 637, 3));
    assert(fills(b, 617, 5));
    assert(fills(b, 597, 4));
    assert(fills(b, 577, 4));
    assert(fills(b, 557, 6));
    assert(fills(b, 537, 4));
    assert(fills(b, 517, 6));
    assert(fills(b, 497, 4));
    assert(fills(b, 477, 7));
    assert(fills(b, 457, 10));
    assert(fills(b, 437, 8));
    assert(fills(b, 417, 8));
    assert(fills(b, 397, 9));
    assert(fills(b, 377, 10));
    assert(fills(b, 357, 5));
    assert(fills(b, 337, 6));
    assert(fills(b, 317, 5));
    assert(fills(b, 297, 5));
    assert(fills(b, 277, 3));
    assert(fills(b, 257, 5));
    assert(fills(b, 237, 7));
    assert(fills(b, 217, 6));
    assert(fills(b, 197, 7));
    assert(fills(b, 177, 5));
    assert(fills(b, 157, 6));
    assert(fills(b, 137, 4));
    assert(fills(b, 117, 6));
    assert(fills(b, 97, 8));
    assert(fills(b, 77, 7));
    assert(fills(b, 57, 6));
    assert(fills(b, 37, 6));
    assert(fills(b, 17, 6));
    assert(fills(b, 0, 1));
    lemma_fills_parses(b);
    lemma_ternary_size(b, 0);
}

/// The branch-first self-evaluator.
pub fn bf(trees: &mut Trees) -> (r: TreeIndex)
    requires
        old(trees).wf(),
        old(trees).has_room(877),
    ensures
        final(trees).wf(),
        final(trees).extends(old(trees)),
        final(trees).valid(r),
        final(trees).interned(r),
        final(trees).term(r) == bf_term(),
        term_size(bf_term()) == 877,
{
    proof {
        lemma_bf_ternary();
    }
    parse_ternary(trees, BF_TERNARY).expect("BF_TERNARY is a Rocq-proven constant; parse must succeed")
}

pub const MIRROR_TERNARY: &'static str = "2121212021201121101021212002120021201120021201120021212002120021201021200212002121200212002120102110102120102110102021201021101020202110102021201121101021212002120021201120021201120021212002120021201021200212002121200212002120102110102120102110102021201021101020202110102021201121212120212011211010212120021200212011200212011200212120021200212010212002120021212002120021201021101021201021101020212010211010202021101020212011211010212120021200212011200212011200212120021200212010212002120021212002120021201021101021201021101020212010211010202021101020212011222022102020211010202020211010212120021200212011200212011201202110102120112110102120102110102020202020211010212011201120122021101020202110102121200212002120112002120112002120112011200212011201120021201120112011200212011201120112002121200212002120102120021200212011200212011200212011201120021201120112002120112011201021212002120021201120021201120021201120102120112110102120102110102020211010202120112010212120021200212011200212011200212011201021201121101021201021101020202110102020202020202110101021101010211010";

/// The tree that `MIRROR_TERNARY` writes.
pub open spec fn mirror_term() -> Term {
    ternary(MIRROR_TERNARY.spec_bytes())->Ok_0
}

/// `MIRROR_TERNARY` is a ternary string of 1066 digits.
#[verifier::rlimit(100)]
proof fn lemma_mirror_ternary()
    ensures
        MIRROR_TERNARY.spec_bytes().len() == 1066,
        ternary(MIRROR_TERNARY.spec_bytes()) is Ok,
        term_size(mirror_term()) == 1066,
{
    broadcast use vstd::string::is_ascii_spec_bytes;

    reveal_strlit("2121212021201121101021212002120021201120021201120021212002120021201021200212002121200212002120102110102120102110102021201021101020202110102021201121101021212002120021201120021201120021212002120021201021200212002121200212002120102110102120102110102021201021101020202110102021201121212120212011211010212120021200212011200212011200212120021200212010212002120021212002120021201021101021201021101020212010211010202021101020212011211010212120021200212011200212011200212120021200212010212002120021212002120021201021101021201021101020212010211010202021101020212011222022102020211010202020211010212120021200212011200212011201202110102120112110102120102110102020202020211010212011201120122021101020202110102121200212002120112002120112002120112011200212011201120021201120112011200212011201120112002121200212002120102120021200212011200212011200212011201120021201120112002120112011201021212002120021201120021201120021201120102120112110102120102110102020211010202120112010212120021200212011200212011200212011201021201121101021201021101020202110102020202020202110101021101010211010");
    assert(vstd::string::is_ascii(MIRROR_TERNARY));
    let b = MIRROR_TERNARY.spec_bytes();
    reveal_with_fuel(fills, 21);
    assert(fills(b, 1066, 0));
    assert(fills(b, 1046, 6));
    assert(fills(b, 1026, 6));
    assert(fills(b, 1006, 9));
    assert(fills(b, 986, 9));
    assert(fills(b, 966, 8));
    assert(fills(b, 946, 6));
    assert(fills(b, 926, 9));
    assert(fills(b, 906, 9));
    assert(fills(b, 886, 9));
    assert(fills(b, 866, 8));
    assert(fills(b, 846, 8));
    assert(fills(b, 826, 9));
    assert(fills(b, 806, 8));
    assert(fills(b, 786, 6));
    assert(fills(b, 766, 7));
    assert(fills(b, 746, 8));
    assert(fills(b, 726, 6));
    assert(fills(b, 706, 8));
    assert(fills(b, 686, 6));
    assert(fills(b, 666, 6));
    assert(fills(b, 646, 7));
    assert(fills(b, 626, 8));
    assert(fills(b, 606, 8));
    assert(fills(b, 586, 6));
    assert(fills(b, 566, 8));
    assert(fills(b, 546, 5));
    assert(fills(b, 526, 6));
    assert(fills(b, 506, 8));
    assert(fills(b, 486, 9));
    assert(fills(b, 466, 8));
    assert(fills(b, 446, 7));
    assert(fills(b, 426, 7));
    assert(fills(b, 406, 6));
    assert(fills(b, 386, 8));
    assert(fills(b, 366, 11));
    assert(fills(b, 346, 8));
    assert(fills(b, 326, 9));
    assert(fills(b, 306, 8));
    assert(fills(b, 286, 6));
    assert(fills(b, 266, 4));
    assert(fills(b, 246, 4));
    assert(fills(b, 226, 7));
    assert(fills(b, 206, 6));
    assert(fills(b, 186, 6));
    assert(fills(b, 166, 5));
    assert(fills(b, 146, 4));
    assert(fills(b, 126, 5));
    assert(fills(b, 106, 7));
    assert(fills(b, 86, 8));
    assert(fills(b, 66, 7));
    assert(fills(b, 46, 6));
    assert(fills(b, 26, 6));
    assert(fills(b, 6, 4));
    assert(fills(b, 0, 1));
    lemma_fills_parses(b);
    lemma_ternary_size(b, 0);
}

/// The self-recognition program: it gives `K` on itself and `Fork(Leaf, I)` otherwise.
pub fn mirror(trees: &mut Trees) -> (r: TreeIndex)
    requires
        old(trees).wf(),
        old(trees).has_room(1066),
    ensures
        final(trees).wf(),
        final(trees).extends(old(trees)),
        final(trees).valid(r),
        final(trees).interned(r),
        final(trees).term(r) == mirror_term(),
        term_size(mirror_term()) == 1066,
{
    proof {
        lemma_mirror_ternary();
    }
    parse_ternary(trees, MIRROR_TERNARY).expect("MIRROR_TERNARY is a Rocq-proven constant; parse must succeed")
}

} // verus!
