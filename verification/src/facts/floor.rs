//! Bits that the operators of an expression fix, whatever its symbols are: what is known of an
//! expression says at least those.

use vstd::prelude::*;
use crate::facts::known::KnownBits;
use crate::ops::{BinOp, UnOp};
use crate::term;
use crate::term::Term;

verus! {

/// Bit `i` of the term is `v`, as its constants, bitwise operators and casts show.
pub open spec fn surely(t: Term, i: int, v: bool) -> bool
    decreases t,
{
    match t {
        Term::Const(s) => 0 <= i < s.len() && s[i] == v,
        Term::Un(UnOp::Not, a) => surely(*a, i, !v),
        Term::Bin(BinOp::And, a, b) => if v {
            surely(*a, i, true) && surely(*b, i, true)
        } else {
            surely(*a, i, false) || surely(*b, i, false)
        },
        Term::Bin(BinOp::Or, a, b) => if v {
            surely(*a, i, true) || surely(*b, i, true)
        } else {
            surely(*a, i, false) && surely(*b, i, false)
        },
        Term::Bin(BinOp::Xor, a, b) => (surely(*a, i, false) && surely(*b, i, v)) || (surely(
            *a,
            i,
            true,
        ) && surely(*b, i, !v)),
        Term::Zext(a, _) => if i < term::twidth(*a) {
            surely(*a, i, v)
        } else {
            !v
        },
        Term::Sext(a, _) => if i < term::twidth(*a) {
            surely(*a, i, v)
        } else {
            surely(*a, term::twidth(*a) - 1, v)
        },
        Term::Extract(a, lo, _) => surely(*a, lo + i, v),
        Term::Concat(h, l) => if i < term::twidth(*l) {
            surely(*l, i, v)
        } else {
            surely(*h, i - term::twidth(*l), v)
        },
        Term::Select(_, a, b) => surely(*a, i, v) && surely(*b, i, v),
        _ => false,
    }
}

/// What is known says at least what the operators fix.
pub open spec fn floored(k: KnownBits, t: Term) -> bool {
    forall|i: int|
        #![trigger k.zero@[i]]
        #![trigger k.one@[i]]
        0 <= i < term::twidth(t) ==> (surely(t, i, false) ==> k.zero@[i]) && (surely(t, i, true)
            ==> k.one@[i])
}

/// The operators fix every bit of the term: it is a constant.
pub open spec fn fixed(t: Term) -> bool {
    forall|i: int|
        0 <= i < term::twidth(t) ==> #[trigger] surely(t, i, false) || surely(t, i, true)
}

/// The operators fix the bits of `m` in the term.
pub open spec fn fixed_on(t: Term, m: Seq<bool>) -> bool {
    forall|i: int|
        0 <= i < m.len() && #[trigger] m[i] ==> surely(t, i, false) || surely(t, i, true)
}

} // verus!
