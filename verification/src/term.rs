//! The meaning of expressions: a term, and its value at every assignment of its symbols.

use vstd::prelude::*;
use crate::ops;
use crate::ops::{BinOp, CmpOp, UnOp};

verus! {

/// An assignment: bit `i` of the symbol with key `k` is `env(k, i)`.
pub type Env = spec_fn(int, int) -> bool;

/// An expression as a tree.
pub enum Term {
    /// A constant.
    Const(Seq<bool>),
    /// A symbol and its width.
    Sym(int, nat),
    /// A unary operator.
    Un(UnOp, Box<Term>),
    /// A binary operator.
    Bin(BinOp, Box<Term>, Box<Term>),
    /// A comparison.
    Cmp(CmpOp, Box<Term>, Box<Term>),
    /// Zero extension.
    Zext(Box<Term>, nat),
    /// Sign extension.
    Sext(Box<Term>, nat),
    /// Bits from an offset, as many as the width.
    Extract(Box<Term>, nat, nat),
    /// The high part and the low part.
    Concat(Box<Term>, Box<Term>),
    /// A choice by a one-bit condition.
    Select(Box<Term>, Box<Term>, Box<Term>),
}

/// The width of a term.
pub open spec fn twidth(t: Term) -> nat
    decreases t,
{
    match t {
        Term::Const(s) => s.len(),
        Term::Sym(_, w) => w,
        Term::Un(_, a) => twidth(*a),
        Term::Bin(_, a, _) => twidth(*a),
        Term::Cmp(..) => 1,
        Term::Zext(_, w) => w,
        Term::Sext(_, w) => w,
        Term::Extract(_, _, n) => n,
        Term::Concat(h, l) => twidth(*h) + twidth(*l),
        Term::Select(_, a, _) => twidth(*a),
    }
}

/// Whether the widths fit together, and every width is 1 to 512.
pub open spec fn tok(t: Term) -> bool
    decreases t,
{
    &&& 1 <= twidth(t) <= 512
    &&& match t {
        Term::Const(s) => true,
        Term::Sym(_, w) => true,
        Term::Un(op, a) => tok(*a) && (op == UnOp::Bswap ==> twidth(*a) % 8 == 0),
        Term::Bin(_, a, b) => tok(*a) && tok(*b) && twidth(*a) == twidth(*b),
        Term::Cmp(_, a, b) => tok(*a) && tok(*b) && twidth(*a) == twidth(*b),
        Term::Zext(a, w) => tok(*a) && twidth(*a) <= w,
        Term::Sext(a, w) => tok(*a) && twidth(*a) <= w,
        Term::Extract(a, lo, n) => tok(*a) && lo + n <= twidth(*a),
        Term::Concat(h, l) => tok(*h) && tok(*l),
        Term::Select(c, a, b) => tok(*c) && tok(*a) && tok(*b) && twidth(*c) == 1 && twidth(*a)
            == twidth(*b),
    }
}

/// The value of a term at an assignment.
pub open spec fn value(t: Term, env: Env) -> Seq<bool>
    decreases t,
{
    match t {
        Term::Const(s) => s,
        Term::Sym(k, w) => Seq::new(w, |i: int| env(k, i)),
        Term::Un(op, a) => ops::un_value(op, value(*a, env)),
        Term::Bin(op, a, b) => ops::bin_value(op, value(*a, env), value(*b, env)),
        Term::Cmp(op, a, b) => ops::bool_bits(ops::holds(op, value(*a, env), value(*b, env))),
        Term::Zext(a, w) => ops::zext_bits(value(*a, env), w),
        Term::Sext(a, w) => ops::sext_bits(value(*a, env), w),
        Term::Extract(a, lo, n) => value(*a, env).subrange(lo as int, (lo + n) as int),
        Term::Concat(h, l) => value(*l, env) + value(*h, env),
        Term::Select(c, a, b) => if value(*c, env)[0] {
            value(*a, env)
        } else {
            value(*b, env)
        },
    }
}

/// The number of operators on the longest path.
pub open spec fn theight(t: Term) -> nat
    decreases t,
{
    match t {
        Term::Const(_) => 0,
        Term::Sym(..) => 0,
        Term::Un(_, a) => 1 + theight(*a),
        Term::Bin(_, a, b) => 1 + max2(theight(*a), theight(*b)),
        Term::Cmp(_, a, b) => 1 + max2(theight(*a), theight(*b)),
        Term::Zext(a, _) => 1 + theight(*a),
        Term::Sext(a, _) => 1 + theight(*a),
        Term::Extract(a, _, _) => 1 + theight(*a),
        Term::Concat(a, b) => 1 + max2(theight(*a), theight(*b)),
        Term::Select(a, b, c) => 1 + max2(theight(*a), max2(theight(*b), theight(*c))),
    }
}

/// The number of nodes of the tree.
pub open spec fn tsize(t: Term) -> nat
    decreases t,
{
    match t {
        Term::Const(_) => 1,
        Term::Sym(..) => 1,
        Term::Un(_, a) => 1 + tsize(*a),
        Term::Bin(_, a, b) => 1 + tsize(*a) + tsize(*b),
        Term::Cmp(_, a, b) => 1 + tsize(*a) + tsize(*b),
        Term::Zext(a, _) => 1 + tsize(*a),
        Term::Sext(a, _) => 1 + tsize(*a),
        Term::Extract(a, _, _) => 1 + tsize(*a),
        Term::Concat(a, b) => 1 + tsize(*a) + tsize(*b),
        Term::Select(a, b, c) => 1 + tsize(*a) + tsize(*b) + tsize(*c),
    }
}

/// The larger of two numbers.
pub open spec fn max2(a: nat, b: nat) -> nat {
    if a >= b {
        a
    } else {
        b
    }
}

/// A value has its term's width.
pub broadcast proof fn lemma_value_len(t: Term, env: Env)
    requires
        tok(t),
    ensures
        #[trigger] value(t, env).len() == twidth(t),
    decreases t,
{
    match t {
        Term::Un(op, a) => {
            lemma_value_len(*a, env);
        },
        Term::Bin(op, a, b) => {
            lemma_value_len(*a, env);
            lemma_value_len(*b, env);
        },
        Term::Concat(h, l) => {
            lemma_value_len(*h, env);
            lemma_value_len(*l, env);
        },
        Term::Extract(a, lo, n) => {
            lemma_value_len(*a, env);
        },
        Term::Select(c, a, b) => {
            lemma_value_len(*a, env);
            lemma_value_len(*b, env);
        },
        _ => {},
    }
}

} // verus!
