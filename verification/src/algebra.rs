//! Identities of the operators.

use vstd::prelude::*;
use crate::ops;
use crate::bits;
use vstd::arithmetic::power2::*;
use vstd::arithmetic::div_mod::*;
use vstd::arithmetic::mul::*;
use crate::ops::{BinOp, UnOp};

verus! {

/// The operator leaves its left operand alone when the right one is `b`.
pub open spec fn right_unit(op: BinOp, b: Seq<bool>) -> bool {
    match op {
        BinOp::Add | BinOp::Sub | BinOp::Or | BinOp::Xor => b == bits::zeros(b.len()),
        BinOp::Shl | BinOp::LShr | BinOp::AShr | BinOp::RotL | BinOp::RotR => b == bits::zeros(b.len()),
        BinOp::And => b == bits::ones(b.len()),
        BinOp::Mul | BinOp::UDiv => b == bits::bits_of(1, b.len()),
        _ => false,
    }
}

pub proof fn lemma_right_unit(op: BinOp, a: Seq<bool>, b: Seq<bool>)
    requires
        right_unit(op, b),
        a.len() == b.len(),
        a.len() > 0,
    ensures
        ops::bin_value(op, a, b) == a,
{
    let w = a.len();
    bits::lemma_zeros_nat(w);
    bits::lemma_bits_of_nat(a);
    match op {
        BinOp::Add | BinOp::Sub => {},
        BinOp::Or => assert(ops::or_bits(a, b) =~= a),
        BinOp::Xor => assert(ops::xor_bits(a, b) =~= a),
        BinOp::And => assert(ops::and_bits(a, b) =~= a),
        BinOp::Shl => assert(ops::shl_bits(a, 0) =~= a),
        BinOp::LShr => assert(ops::shr_bits(a, 0, false) =~= a),
        BinOp::AShr => assert(ops::shr_bits(a, 0, a.last()) =~= a),
        BinOp::RotL => {
            assert forall|i: int| 0 <= i < w implies ops::rotl_bits(a, 0)[i] == a[i] by {
                lemma_small_mod(i as nat, w);
            }
            assert(ops::rotl_bits(a, 0) =~= a);
        },
        BinOp::RotR => {
            lemma_small_mod(0, w);
            assert forall|i: int| 0 <= i < w implies ops::rotl_bits(a, w)[i] == a[i] by {
                lemma_mod_sub_multiples_vanish(i, w as int);
                lemma_small_mod(i as nat, w);
            }
            assert(ops::rotl_bits(a, w) =~= a);
        },
        BinOp::Mul | BinOp::UDiv => {
            lemma_one_nat(w);
            assert(bits::nat_of(a) * 1 == bits::nat_of(a));
        },
        _ => {},
    }
}

/// The number one.
pub proof fn lemma_one_nat(w: nat)
    requires
        w > 0,
    ensures
        bits::nat_of(bits::bits_of(1, w)) == 1,
        bits::bits_of(1, w).len() == w,
{
    bits::lemma_pow2_le(1, w);
    bits::lemma_pow2_zero();
    bits::lemma_fits(1, w);
}

/// The operator has the value of its right operand `b` whatever the left one is.
pub open spec fn right_zero(op: BinOp, b: Seq<bool>) -> bool {
    match op {
        BinOp::And | BinOp::Mul => b == bits::zeros(b.len()),
        BinOp::Or => b == bits::ones(b.len()),
        _ => false,
    }
}

pub proof fn lemma_right_zero(op: BinOp, a: Seq<bool>, b: Seq<bool>)
    requires
        right_zero(op, b),
        a.len() == b.len(),
    ensures
        ops::bin_value(op, a, b) == b,
{
    let w = a.len();
    match op {
        BinOp::And => assert(ops::and_bits(a, b) =~= b),
        BinOp::Or => assert(ops::or_bits(a, b) =~= b),
        BinOp::Mul => {
            bits::lemma_zeros_nat(w);
            assert(bits::nat_of(a) * 0 == 0);
            bits::lemma_bits_of_nat(b);
        },
        _ => {},
    }
}

pub proof fn lemma_zero_bits(w: nat)
    ensures
        bits::bits_of(0, w) == bits::zeros(w),
{
    bits::lemma_zeros_nat(w);
    bits::lemma_bits_of_nat(bits::zeros(w));
}

pub proof fn lemma_ones_bits(w: nat)
    ensures
        bits::bits_of(-1, w) == bits::ones(w),
{
    bits::lemma_ones_nat(w);
    lemma_pow2_pos(w);
    let m = pow2(w) as int;
    lemma_mod_add_multiples_vanish(-1, m);
    lemma_small_mod((m - 1) as nat, m as nat);
    bits::lemma_bits_of_unique(bits::ones(w), -1);
}

/// A value and itself.
pub proof fn lemma_self(a: Seq<bool>)
    ensures
        ops::bin_value(BinOp::Sub, a, a) == bits::zeros(a.len()),
        ops::bin_value(BinOp::Xor, a, a) == bits::zeros(a.len()),
        ops::bin_value(BinOp::And, a, a) == a,
        ops::bin_value(BinOp::Or, a, a) == a,
{
    lemma_zero_bits(a.len());
    assert(ops::xor_bits(a, a) =~= bits::zeros(a.len()));
    assert(ops::and_bits(a, a) =~= a);
    assert(ops::or_bits(a, a) =~= a);
}

/// Subtracting is adding the negation.
pub proof fn lemma_sub_is_add_neg(a: Seq<bool>, b: Seq<bool>)
    requires
        a.len() == b.len(),
    ensures
        ops::bin_value(BinOp::Sub, a, b) == ops::bin_value(BinOp::Add, a, ops::neg_bits(b)),
{
    let w = a.len();
    let m = pow2(w) as int;
    lemma_pow2_pos(w);
    bits::lemma_nat_bits_of(-(bits::nat_of(b) as int), w);
    lemma_add_mod_noop_right(bits::nat_of(a) as int, -(bits::nat_of(b) as int), m);
    bits::lemma_bits_of_congruent(
        bits::nat_of(a) - bits::nat_of(b),
        (bits::nat_of(a) + bits::nat_of(ops::neg_bits(b))) as int,
        w,
    );
}

/// Subtracting from zero is negating.
pub proof fn lemma_zero_sub(a: Seq<bool>)
    ensures
        ops::bin_value(BinOp::Sub, bits::zeros(a.len()), a) == ops::neg_bits(a),
{
    bits::lemma_zeros_nat(a.len());
}

/// Exclusive or with all ones is the complement.
pub proof fn lemma_xor_ones(a: Seq<bool>)
    ensures
        ops::bin_value(BinOp::Xor, a, bits::ones(a.len())) == ops::not_bits(a),
{
    assert(ops::xor_bits(a, bits::ones(a.len())) =~= ops::not_bits(a));
}

/// Whether an operator undoes itself.
pub open spec fn involution(op: UnOp) -> bool {
    op == UnOp::Not || op == UnOp::Neg || op == UnOp::Bswap || op == UnOp::BitRev
}

pub proof fn lemma_involution(op: UnOp, a: Seq<bool>)
    requires
        involution(op),
        op == UnOp::Bswap ==> a.len() % 8 == 0,
    ensures
        ops::un_value(op, ops::un_value(op, a)) == a,
{
    match op {
        UnOp::Not => assert(ops::not_bits(ops::not_bits(a)) =~= a),
        UnOp::Neg => {
            let w = a.len();
            let m = pow2(w) as int;
            lemma_pow2_pos(w);
            let x = -(bits::nat_of(a) as int);
            bits::lemma_nat_bits_of(x, w);
            lemma_sub_mod_noop_right(0, x, m);
            bits::lemma_nat_bound(a);
            lemma_small_mod(bits::nat_of(a), m as nat);
            bits::lemma_bits_of_unique(a, -(bits::nat_of(ops::neg_bits(a)) as int));
        },
        UnOp::Bswap => {
            let w = a.len() as int;
            assert forall|i: int| 0 <= i < w implies ops::bswap_bits(ops::bswap_bits(a))[i] == a[i] by {
                let j = ops::bswap_from(i, w);
                assert(0 <= j < w);
                assert(j / 8 == w / 8 - 1 - i / 8);
                assert(j % 8 == i % 8);
            }
            assert(ops::bswap_bits(ops::bswap_bits(a)) =~= a);
        },
        UnOp::BitRev => assert(ops::rev_bits(ops::rev_bits(a)) =~= a),
        _ => {},
    }
}

} // verus!
