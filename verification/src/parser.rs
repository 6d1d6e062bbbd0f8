//! Ternary parser for tree calculus programs.
//!
//! Ternary encoding: `0` is a leaf, `1x` is `Stem(x)`, `2xy` is `Fork(x, y)`.
use vstd::prelude::*;
use vstd::string::StringSliceAdditionalSpecFns;
use crate::term::{fork, stem, Term};
use crate::text::{decimal, push_char, push_decimal};
use crate::tree::{TreeIndex, Trees};

verus! {

/// Why a ternary string does not start with a tree.
pub enum TernaryError {
    /// A byte other than `0`, `1` and `2` where a tree should start.
    UnexpectedByte(u8),
    /// The input ends where a tree should start.
    UnexpectedEnd,
}

/// The tree written at position `i` of `b`, and the position after it.
pub open spec fn ternary_at(b: Seq<u8>, i: int) -> Result<(Term, int), TernaryError>
    decreases b.len() - i,
{
    if i < 0 || i >= b.len() {
        Err(TernaryError::UnexpectedEnd)
    } else if b[i] == 48 {
        Ok((Term::Leaf, i + 1))
    } else if b[i] == 49 {
        match ternary_at(b, i + 1) {
            Ok((t, j)) => Ok((stem(t), j)),
            Err(e) => Err(e),
        }
    } else if b[i] == 50 {
        match ternary_at(b, i + 1) {
            Ok((l, j)) => if i < j <= b.len() {
                match ternary_at(b, j) {
                    Ok((r, k)) => Ok((fork(l, r), k)),
                    Err(e) => Err(e),
                }
            } else {
                Err(TernaryError::UnexpectedEnd)
            },
            Err(e) => Err(e),
        }
    } else {
        Err(TernaryError::UnexpectedByte(b[i]))
    }
}

/// A tree read at `i` ends after `i` and within the input.
pub proof fn lemma_ternary_at_advances(b: Seq<u8>, i: int)
    ensures
        ternary_at(b, i) matches Ok((_, j)) ==> i < j <= b.len(),
    decreases b.len() - i,
{
    if 0 <= i < b.len() {
        if b[i] == 49 {
            lemma_ternary_at_advances(b, i + 1);
        } else if b[i] == 50 {
            lemma_ternary_at_advances(b, i + 1);
            if let Ok((_, j)) = ternary_at(b, i + 1) {
                if i < j <= b.len() {
                    lemma_ternary_at_advances(b, j);
                }
            }
        }
    }
}

/// The ternary writing of a tree: `0` for a leaf, `1` and the child for a stem, `2` and the
/// two children for a fork.
pub open spec fn ternary_of(t: Term) -> Seq<u8>
    decreases t,
{
    match t {
        Term::Leaf => seq![48u8],
        Term::Stem(c) => seq![49u8] + ternary_of(*c),
        Term::Fork(l, r) => seq![50u8] + ternary_of(*l) + ternary_of(*r),
    }
}

/// Reading back the writing of a tree, wherever it stands in the input, gives that tree and
/// the position just after its writing.
pub proof fn law_ternary_reads_back(t: Term, b: Seq<u8>, i: int)
    requires
        0 <= i,
        i + ternary_of(t).len() <= b.len(),
        b.subrange(i, i + ternary_of(t).len()) == ternary_of(t),
    ensures
        ternary_at(b, i) == Ok::<(Term, int), TernaryError>((t, i + ternary_of(t).len())),
    decreases t,
{
    let w = ternary_of(t);
    assert(b[i] == w[0]);
    match t {
        Term::Leaf => {},
        Term::Stem(c) => {
            let wc = ternary_of(*c);
            assert(b.subrange(i + 1, i + 1 + wc.len()) =~= wc) by {
                assert forall|k: int| 0 <= k < wc.len() implies b.subrange(i + 1, i + 1 + wc.len())[k] == wc[k] by {
                    assert(b[i + 1 + k] == w[1 + k]);
                }
            }
            law_ternary_reads_back(*c, b, i + 1);
        },
        Term::Fork(l, r) => {
            let wl = ternary_of(*l);
            let wr = ternary_of(*r);
            assert(b.subrange(i + 1, i + 1 + wl.len()) =~= wl) by {
                assert forall|k: int| 0 <= k < wl.len() implies b.subrange(i + 1, i + 1 + wl.len())[k] == wl[k] by {
                    assert(b[i + 1 + k] == w[1 + k]);
                }
            }
            law_ternary_reads_back(*l, b, i + 1);
            let j = i + 1 + wl.len();
            assert(b.subrange(j, j + wr.len()) =~= wr) by {
                assert forall|k: int| 0 <= k < wr.len() implies b.subrange(j, j + wr.len())[k] == wr[k] by {
                    assert(b[j + k] == w[1 + wl.len() + k]);
                }
            }
            law_ternary_reads_back(*r, b, j);
        },
    }
}

/// The writing of a tree takes one byte per node: its length is the number of nodes.
pub proof fn law_ternary_length_is_size(t: Term)
    ensures
        ternary_of(t).len() == crate::term::term_size(t),
    decreases t,
{
    match t {
        Term::Leaf => {},
        Term::Stem(c) => {
            law_ternary_length_is_size(*c);
        },
        Term::Fork(l, r) => {
            law_ternary_length_is_size(*l);
            law_ternary_length_is_size(*r);
        },
    }
}

/// Parsing the writing of a tree, and nothing else, gives that tree.
pub proof fn law_ternary_roundtrip(t: Term)
    ensures
        ternary(ternary_of(t)) == Ok::<Term, Seq<char>>(t),
{
    let w = ternary_of(t);
    assert(w.subrange(0, w.len() as int) =~= w);
    law_ternary_reads_back(t, w, 0);
}

/// The message for a string that does not start with a tree.
pub open spec fn error_message(e: TernaryError) -> Seq<char> {
    match e {
        TernaryError::UnexpectedByte(c) => "unexpected byte in ternary: '"@ + seq![c as char] + "'"@,
        TernaryError::UnexpectedEnd => "unexpected end of ternary input"@,
    }
}

/// The message for `n` bytes left after the tree.
pub open spec fn trailing_message(n: nat) -> Seq<char> {
    "trailing input: "@ + decimal(n) + " bytes remaining"@
}

/// What parsing the bytes `b` gives: the tree they write, or the message of the first fault.
pub open spec fn ternary(b: Seq<u8>) -> Result<Term, Seq<char>> {
    match ternary_at(b, 0) {
        Ok((t, j)) => if j == b.len() {
            Ok(t)
        } else {
            Err(trailing_message((b.len() - j) as nat))
        },
        Err(e) => Err(error_message(e)),
    }
}

/// Parses the ternary string `s` into `trees`; the tree is interned.
pub fn parse_ternary(trees: &mut Trees, s: &str) -> (res: Result<TreeIndex, String>)
    requires
        old(trees).wf(),
        old(trees).has_room(s.spec_bytes().len()),
    ensures
        final(trees).wf(),
        final(trees).extends(old(trees)),
        final(trees).arena_len() <= old(trees).arena_len() + s.spec_bytes().len(),
        match res {
            Ok(r) => {
                &&& ternary(s.spec_bytes()) == Ok::<Term, Seq<char>>(final(trees).term(r))
                &&& final(trees).valid(r)
                &&& final(trees).interned(r)
            },
            Err(e) => ternary(s.spec_bytes()) == Err::<Term, Seq<char>>(e@),
        },
{
    let bytes = s.as_bytes();
    let (tree, rest) = parse_ternary_inner(trees, bytes, 0)?;
    if rest == bytes.len() {
        Ok(tree)
    } else {
        let mut m = String::from_str("trailing input: ");
        push_decimal(&mut m, bytes.len() - rest);
        m.append(" bytes remaining");
        Err(m)
    }
}

/// Parses the tree written at position `pos` of `s`, giving it and the position after it.
fn parse_ternary_inner(trees: &mut Trees, s: &[u8], pos: usize) -> (res: Result<(TreeIndex, usize), String>)
    requires
        old(trees).wf(),
        pos <= s@.len(),
        old(trees).has_room((s@.len() - pos) as nat),
    ensures
        final(trees).wf(),
        final(trees).extends(old(trees)),
        final(trees).arena_len() <= old(trees).arena_len() + (s@.len() - pos),
        match res {
            Ok((t, j)) => {
                &&& ternary_at(s@, pos as int) == Ok::<(Term, int), TernaryError>((final(trees).term(t), j as int))
                &&& final(trees).valid(t)
                &&& final(trees).interned(t)
                &&& pos < j <= s@.len()
                &&& final(trees).arena_len() <= old(trees).arena_len() + (j - pos)
            },
            Err(e) => ternary_at(s@, pos as int) matches Err(k) && e@ == error_message(k),
        },
    decreases s@.len() - pos,
{
    if pos >= s.len() {
        return Err(String::from_str("unexpected end of ternary input"));
    }
    let c = s[pos];
    if c == 48u8 {
        let l = trees.leaf();
        Ok((l, pos + 1))
    } else if c == 49u8 {
        let (child, rest) = parse_ternary_inner(trees, s, pos + 1)?;
        let r = trees.stem(child);
        Ok((r, rest))
    } else if c == 50u8 {
        let (left, rest) = parse_ternary_inner(trees, s, pos + 1)?;
        let (right, rest2) = parse_ternary_inner(trees, s, rest)?;
        let r = trees.fork(left, right);
        Ok((r, rest2))
    } else {
        let mut m = String::from_str("unexpected byte in ternary: '");
        push_char(&mut m, c as char);
        m.append("'");
        Err(m)
    }
}


/// Reading `need` more trees from position `i` of `b` uses up exactly the rest of `b`.
pub open spec fn fills(b: Seq<u8>, i: int, need: nat) -> bool
    decreases b.len() - i,
{
    if need == 0 {
        i == b.len()
    } else if i < 0 || i >= b.len() {
        false
    } else if b[i] == 48 {
        fills(b, i + 1, (need - 1) as nat)
    } else if b[i] == 49 {
        fills(b, i + 1, need)
    } else if b[i] == 50 {
        fills(b, i + 1, need + 1)
    } else {
        false
    }
}

/// Where `n + 1` trees fill the rest of `b`, a tree is written at `i` and `n` trees fill what follows it.
pub proof fn lemma_fills_reads(b: Seq<u8>, i: int, n: nat)
    requires
        fills(b, i, n + 1),
    ensures
        ternary_at(b, i) matches Ok((_, j)) && fills(b, j, n),
    decreases b.len() - i,
{
    if b[i] == 49 {
        lemma_fills_reads(b, i + 1, n);
    } else if b[i] == 50 {
        lemma_fills_reads(b, i + 1, n + 1);
        lemma_ternary_at_advances(b, i + 1);
        let j = ternary_at(b, i + 1)->Ok_0.1;
        lemma_fills_reads(b, j, n);
        lemma_ternary_at_advances(b, j);
    }
}

/// Bytes that one tree fills are a ternary string.
pub proof fn lemma_fills_parses(b: Seq<u8>)
    requires
        fills(b, 0, 1),
    ensures
        ternary(b) is Ok,
{
    lemma_fills_reads(b, 0, 0);
}

/// A tree read from ternary has one node per digit it was read from.
pub proof fn lemma_ternary_size(b: Seq<u8>, i: int)
    ensures
        ternary_at(b, i) matches Ok((t, j)) ==> crate::term::term_size(t) == j - i,
    decreases b.len() - i,
{
    if 0 <= i < b.len() {
        if b[i] == 49 {
            lemma_ternary_size(b, i + 1);
        } else if b[i] == 50 {
            lemma_ternary_size(b, i + 1);
            lemma_ternary_at_advances(b, i + 1);
            if let Ok((_, j)) = ternary_at(b, i + 1) {
                if i < j <= b.len() {
                    lemma_ternary_size(b, j);
                }
            }
        }
    }
}

} // verus!
