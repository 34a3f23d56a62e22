//! Operators and what they compute. Every operator is total: divisions by zero, over-wide shift
//! amounts and the like have the values SMT-LIB gives them.

use vstd::prelude::*;
use crate::bits;
use vstd::arithmetic::power2::*;

verus! {

/// Unary operators (the result has the operand's width).
#[derive(Clone, Copy, Debug, PartialEq, Eq, Hash, Structural)]
pub enum UnOp {
    /// Bitwise complement.
    Not,
    /// Two's-complement negation.
    Neg,
    /// The number of set bits.
    Popcnt,
    /// The number of leading zeros.
    Clz,
    /// The number of trailing zeros.
    Ctz,
    /// The bytes in reverse order (the width is a multiple of 8).
    Bswap,
    /// The bits in reverse order.
    BitRev,
}

/// Binary operators (both operands and the result have one width).
#[derive(Clone, Copy, Debug, PartialEq, Eq, Hash, Structural)]
pub enum BinOp {
    /// Addition.
    Add,
    /// Subtraction.
    Sub,
    /// Multiplication.
    Mul,
    /// Unsigned division; all ones when the divisor is zero.
    UDiv,
    /// Unsigned remainder; the dividend when the divisor is zero.
    URem,
    /// Signed division, truncating.
    SDiv,
    /// Signed remainder, with the sign of the dividend.
    SRem,
    /// Bitwise and.
    And,
    /// Bitwise or.
    Or,
    /// Bitwise exclusive or.
    Xor,
    /// Left shift.
    Shl,
    /// Right shift filling with zeros.
    LShr,
    /// Right shift filling with the sign bit.
    AShr,
    /// Left rotation.
    RotL,
    /// Right rotation.
    RotR,
}

/// Comparisons as they are stored (the result is one bit).
#[derive(Clone, Copy, Debug, PartialEq, Eq, Hash, Structural)]
pub enum CmpOp {
    /// Equal.
    Eq,
    /// Not equal.
    Ne,
    /// Unsigned less than.
    Ult,
    /// Unsigned at most.
    Ule,
    /// Signed less than.
    Slt,
    /// Signed at most.
    Sle,
}

/// Comparisons as they are asked for: the stored ones and their mirror images.
#[derive(Clone, Copy, Debug, PartialEq, Eq, Hash, Structural)]
pub enum CmpOpExt {
    /// Equal.
    Eq,
    /// Not equal.
    Ne,
    /// Unsigned less than.
    Ult,
    /// Unsigned at most.
    Ule,
    /// Unsigned greater than.
    Ugt,
    /// Unsigned at least.
    Uge,
    /// Signed less than.
    Slt,
    /// Signed at most.
    Sle,
    /// Signed greater than.
    Sgt,
    /// Signed at least.
    Sge,
}

/// The number of set bits.
pub open spec fn count_ones(s: Seq<bool>) -> nat
    decreases s.len(),
{
    if s.len() == 0 {
        0
    } else {
        count_ones(s.drop_last()) + bits::b2n(s.last())
    }
}

/// The number of leading zeros.
pub open spec fn leading_zeros(s: Seq<bool>) -> nat
    decreases s.len(),
{
    if s.len() == 0 || s.last() {
        0
    } else {
        1 + leading_zeros(s.drop_last())
    }
}

/// The number of trailing zeros.
pub open spec fn trailing_zeros(s: Seq<bool>) -> nat
    decreases s.len(),
{
    if s.len() == 0 || s[0] {
        0
    } else {
        1 + trailing_zeros(s.skip(1))
    }
}

/// Bitwise complement.
pub open spec fn not_bits(a: Seq<bool>) -> Seq<bool> {
    Seq::new(a.len(), |i: int| !a[i])
}

/// Bitwise and.
pub open spec fn and_bits(a: Seq<bool>, b: Seq<bool>) -> Seq<bool> {
    Seq::new(a.len(), |i: int| a[i] && b[i])
}

/// Bitwise or.
pub open spec fn or_bits(a: Seq<bool>, b: Seq<bool>) -> Seq<bool> {
    Seq::new(a.len(), |i: int| a[i] || b[i])
}

/// Bitwise exclusive or.
pub open spec fn xor_bits(a: Seq<bool>, b: Seq<bool>) -> Seq<bool> {
    Seq::new(a.len(), |i: int| a[i] != b[i])
}

/// Left shift by `k`.
pub open spec fn shl_bits(a: Seq<bool>, k: nat) -> Seq<bool> {
    Seq::new(a.len(), |i: int| i >= k && a[i - k])
}

/// Right shift by `k`, filling with `fill`.
pub open spec fn shr_bits(a: Seq<bool>, k: nat, fill: bool) -> Seq<bool> {
    Seq::new(a.len(), |i: int| if i + k < a.len() { a[i + k] } else { fill })
}

/// Left rotation by `k`.
pub open spec fn rotl_bits(a: Seq<bool>, k: nat) -> Seq<bool> {
    Seq::new(a.len(), |i: int| a[(i - k) % (a.len() as int)])
}

/// The bits in reverse order.
pub open spec fn rev_bits(a: Seq<bool>) -> Seq<bool> {
    Seq::new(a.len(), |i: int| a[a.len() - 1 - i])
}

/// Where bit `i` of a byte-swapped value of `w` bits comes from.
pub open spec fn bswap_from(i: int, w: int) -> int {
    (w / 8 - 1 - i / 8) * 8 + i % 8
}

/// The bytes in reverse order.
pub open spec fn bswap_bits(a: Seq<bool>) -> Seq<bool> {
    Seq::new(a.len(), |i: int| a[bswap_from(i, a.len() as int)])
}

/// Zero extension to `w` bits (or truncation).
pub open spec fn zext_bits(a: Seq<bool>, w: nat) -> Seq<bool> {
    Seq::new(w, |i: int| i < a.len() && a[i])
}

/// Sign extension to `w` bits (or truncation).
pub open spec fn sext_bits(a: Seq<bool>, w: nat) -> Seq<bool> {
    Seq::new(w, |i: int| if i < a.len() { a[i] } else { a.last() })
}

/// Unsigned division.
pub open spec fn udiv_bits(a: Seq<bool>, b: Seq<bool>) -> Seq<bool> {
    if bits::nat_of(b) == 0 {
        bits::ones(a.len())
    } else {
        bits::bits_of((bits::nat_of(a) / bits::nat_of(b)) as int, a.len())
    }
}

/// Unsigned remainder.
pub open spec fn urem_bits(a: Seq<bool>, b: Seq<bool>) -> Seq<bool> {
    if bits::nat_of(b) == 0 {
        a
    } else {
        bits::bits_of((bits::nat_of(a) % bits::nat_of(b)) as int, a.len())
    }
}

/// Negation.
pub open spec fn neg_bits(a: Seq<bool>) -> Seq<bool> {
    bits::bits_of(-(bits::nat_of(a) as int), a.len())
}

/// Signed division.
pub open spec fn sdiv_bits(a: Seq<bool>, b: Seq<bool>) -> Seq<bool> {
    if a.last() {
        if b.last() {
            udiv_bits(neg_bits(a), neg_bits(b))
        } else {
            neg_bits(udiv_bits(neg_bits(a), b))
        }
    } else if b.last() {
        neg_bits(udiv_bits(a, neg_bits(b)))
    } else {
        udiv_bits(a, b)
    }
}

/// Signed remainder.
pub open spec fn srem_bits(a: Seq<bool>, b: Seq<bool>) -> Seq<bool> {
    let m = if b.last() {
        neg_bits(b)
    } else {
        b
    };
    if a.last() {
        neg_bits(urem_bits(neg_bits(a), m))
    } else {
        urem_bits(a, m)
    }
}

/// What a unary operator computes.
pub open spec fn un_value(op: UnOp, a: Seq<bool>) -> Seq<bool> {
    match op {
        UnOp::Not => not_bits(a),
        UnOp::Neg => neg_bits(a),
        UnOp::Popcnt => bits::bits_of(count_ones(a) as int, a.len()),
        UnOp::Clz => bits::bits_of(leading_zeros(a) as int, a.len()),
        UnOp::Ctz => bits::bits_of(trailing_zeros(a) as int, a.len()),
        UnOp::Bswap => bswap_bits(a),
        UnOp::BitRev => rev_bits(a),
    }
}

/// What a binary operator computes.
pub open spec fn bin_value(op: BinOp, a: Seq<bool>, b: Seq<bool>) -> Seq<bool> {
    match op {
        BinOp::Add => bits::bits_of((bits::nat_of(a) + bits::nat_of(b)) as int, a.len()),
        BinOp::Sub => bits::bits_of(bits::nat_of(a) - bits::nat_of(b), a.len()),
        BinOp::Mul => bits::bits_of((bits::nat_of(a) * bits::nat_of(b)) as int, a.len()),
        BinOp::UDiv => udiv_bits(a, b),
        BinOp::URem => urem_bits(a, b),
        BinOp::SDiv => sdiv_bits(a, b),
        BinOp::SRem => srem_bits(a, b),
        BinOp::And => and_bits(a, b),
        BinOp::Or => or_bits(a, b),
        BinOp::Xor => xor_bits(a, b),
        BinOp::Shl => shl_bits(a, bits::nat_of(b)),
        BinOp::LShr => shr_bits(a, bits::nat_of(b), false),
        BinOp::AShr => shr_bits(a, bits::nat_of(b), a.last()),
        BinOp::RotL => rotl_bits(a, bits::nat_of(b)),
        BinOp::RotR => rotl_bits(a, (a.len() - bits::nat_of(b) % a.len()) as nat),
    }
}

/// Whether a comparison holds.
pub open spec fn holds(op: CmpOp, a: Seq<bool>, b: Seq<bool>) -> bool {
    match op {
        CmpOp::Eq => a == b,
        CmpOp::Ne => a != b,
        CmpOp::Ult => bits::nat_of(a) < bits::nat_of(b),
        CmpOp::Ule => bits::nat_of(a) <= bits::nat_of(b),
        CmpOp::Slt => bits::int_of(a) < bits::int_of(b),
        CmpOp::Sle => bits::int_of(a) <= bits::int_of(b),
    }
}

/// Whether a comparison as asked for holds.
pub open spec fn holds_ext(op: CmpOpExt, a: Seq<bool>, b: Seq<bool>) -> bool {
    match op {
        CmpOpExt::Eq => a == b,
        CmpOpExt::Ne => a != b,
        CmpOpExt::Ult => bits::nat_of(a) < bits::nat_of(b),
        CmpOpExt::Ule => bits::nat_of(a) <= bits::nat_of(b),
        CmpOpExt::Ugt => bits::nat_of(a) > bits::nat_of(b),
        CmpOpExt::Uge => bits::nat_of(a) >= bits::nat_of(b),
        CmpOpExt::Slt => bits::int_of(a) < bits::int_of(b),
        CmpOpExt::Sle => bits::int_of(a) <= bits::int_of(b),
        CmpOpExt::Sgt => bits::int_of(a) > bits::int_of(b),
        CmpOpExt::Sge => bits::int_of(a) >= bits::int_of(b),
    }
}

/// A truth value as one bit.
pub open spec fn bool_bits(b: bool) -> Seq<bool> {
    seq![b]
}

/// Every operator keeps the width.
pub proof fn lemma_un_len(op: UnOp, a: Seq<bool>)
    ensures
        un_value(op, a).len() == a.len(),
{
}

/// Every operator keeps the width.
pub proof fn lemma_bin_len(op: BinOp, a: Seq<bool>, b: Seq<bool>)
    requires
        a.len() == b.len(),
    ensures
        bin_value(op, a, b).len() == a.len(),
{
}

impl BinOp {
    /// Whether the operands may be exchanged.
    pub open spec fn commutes(self) -> bool {
        self == BinOp::Add || self == BinOp::Mul || self == BinOp::And || self == BinOp::Or || self
            == BinOp::Xor
    }

    /// Whether the operands may be exchanged.
    pub fn is_commutative(self) -> (r: bool)
        ensures
            r == self.commutes(),
    {
        matches!(self, BinOp::Add | BinOp::Mul | BinOp::And | BinOp::Or | BinOp::Xor)
    }
}

impl CmpOpExt {
    /// The stored comparison it is, and whether with its operands exchanged.
    pub open spec fn stored(self) -> (CmpOp, bool) {
        match self {
            CmpOpExt::Eq => (CmpOp::Eq, false),
            CmpOpExt::Ne => (CmpOp::Ne, false),
            CmpOpExt::Ult => (CmpOp::Ult, false),
            CmpOpExt::Ule => (CmpOp::Ule, false),
            CmpOpExt::Ugt => (CmpOp::Ult, true),
            CmpOpExt::Uge => (CmpOp::Ule, true),
            CmpOpExt::Slt => (CmpOp::Slt, false),
            CmpOpExt::Sle => (CmpOp::Sle, false),
            CmpOpExt::Sgt => (CmpOp::Slt, true),
            CmpOpExt::Sge => (CmpOp::Sle, true),
        }
    }

    /// The stored comparison it is, and whether with its operands exchanged.
    pub fn canonical(self) -> (r: (CmpOp, bool))
        ensures
            r == self.stored(),
    {
        match self {
            CmpOpExt::Eq => (CmpOp::Eq, false),
            CmpOpExt::Ne => (CmpOp::Ne, false),
            CmpOpExt::Ult => (CmpOp::Ult, false),
            CmpOpExt::Ule => (CmpOp::Ule, false),
            CmpOpExt::Ugt => (CmpOp::Ult, true),
            CmpOpExt::Uge => (CmpOp::Ule, true),
            CmpOpExt::Slt => (CmpOp::Slt, false),
            CmpOpExt::Sle => (CmpOp::Sle, false),
            CmpOpExt::Sgt => (CmpOp::Slt, true),
            CmpOpExt::Sge => (CmpOp::Sle, true),
        }
    }
}

/// Commutative operators do not care about the order of their operands.
pub proof fn lemma_commutes(op: BinOp, a: Seq<bool>, b: Seq<bool>)
    requires
        op.commutes(),
        a.len() == b.len(),
    ensures
        bin_value(op, a, b) == bin_value(op, b, a),
{
    match op {
        BinOp::Mul => {
            vstd::arithmetic::mul::lemma_mul_is_commutative(bits::nat_of(a) as int, bits::nat_of(b) as int);
        },
        BinOp::And => assert(and_bits(a, b) =~= and_bits(b, a)),
        BinOp::Or => assert(or_bits(a, b) =~= or_bits(b, a)),
        BinOp::Xor => assert(xor_bits(a, b) =~= xor_bits(b, a)),
        _ => {},
    }
}

/// The complement as a number.
pub proof fn lemma_not_nat(a: Seq<bool>)
    ensures
        bits::nat_of(not_bits(a)) == pow2(a.len()) - 1 - bits::nat_of(a),
    decreases a.len(),
{
    if a.len() == 0 {
        bits::lemma_pow2_zero();
    } else {
        let d = a.drop_last();
        lemma_not_nat(d);
        assert(not_bits(a).drop_last() =~= not_bits(d));
        bits::lemma_pow2_step(d.len());
        let p = pow2(d.len());
        assert(1 * p == p && 0 * p == 0);
    }
}

/// Or and and together have the value of the sum; exclusive or is their difference.
pub proof fn lemma_and_or_xor_nat(a: Seq<bool>, b: Seq<bool>)
    requires
        a.len() == b.len(),
    ensures
        bits::nat_of(or_bits(a, b)) + bits::nat_of(and_bits(a, b)) == bits::nat_of(a) + bits::nat_of(b),
        bits::nat_of(xor_bits(a, b)) + bits::nat_of(and_bits(a, b)) == bits::nat_of(or_bits(a, b)),
        bits::nat_of(and_bits(a, b)) <= bits::nat_of(a),
        bits::nat_of(and_bits(a, b)) <= bits::nat_of(b),
    decreases a.len(),
{
    if a.len() > 0 {
        let c = a.drop_last();
        let d = b.drop_last();
        lemma_and_or_xor_nat(c, d);
        assert(or_bits(a, b).drop_last() =~= or_bits(c, d));
        assert(and_bits(a, b).drop_last() =~= and_bits(c, d));
        assert(xor_bits(a, b).drop_last() =~= xor_bits(c, d));
        let p = pow2(c.len());
        assert(1 * p == p && 0 * p == 0);
    }
}

/// The sign bit tells whether the value is at least half the range.
pub proof fn lemma_sign(a: Seq<bool>)
    requires
        a.len() > 0,
    ensures
        a.last() == (bits::nat_of(a) >= pow2((a.len() - 1) as nat)),
        pow2(a.len()) == 2 * pow2((a.len() - 1) as nat),
        -(pow2((a.len() - 1) as nat) as int) <= bits::int_of(a) < pow2((a.len() - 1) as nat),
{
    bits::lemma_nat_bound(a.drop_last());
    bits::lemma_pow2_step((a.len() - 1) as nat);
    let p = pow2((a.len() - 1) as nat);
    assert(1 * p == p && 0 * p == 0);
    bits::lemma_nat_bound(a);
}

/// The signed value is congruent to the unsigned one.
pub proof fn lemma_int_injective(a: Seq<bool>, b: Seq<bool>)
    requires
        a.len() == b.len(),
        bits::int_of(a) == bits::int_of(b),
    ensures
        a == b,
{
    if a.len() > 0 {
        lemma_sign(a);
        lemma_sign(b);
        bits::lemma_nat_bound(a);
        bits::lemma_nat_bound(b);
        bits::lemma_nat_injective(a, b);
    } else {
        assert(a =~= b);
    }
}

} // verus!
