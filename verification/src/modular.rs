//! Arithmetic modulo `2^w`, and what it says of bit vectors.

use vstd::prelude::*;
use crate::ops;
use crate::bits;
use vstd::arithmetic::power2::*;
use vstd::arithmetic::div_mod::*;
use crate::ops::{BinOp, UnOp};

verus! {

/// The number of a bit vector.
pub open spec fn num(s: Seq<bool>) -> int {
    bits::nat_of(s) as int
}

/// `x` and `y` are congruent modulo `2^w`.
pub open spec fn eqm(x: int, y: int, w: nat) -> bool {
    x % (pow2(w) as int) == y % (pow2(w) as int)
}

/// Sums of congruent numbers are congruent.
pub proof fn lemma_eqm_add(a: int, b: int, c: int, d: int, w: nat)
    requires
        eqm(a, b, w),
        eqm(c, d, w),
    ensures
        eqm(a + c, b + d, w),
{
    lemma_pow2_pos(w);
    lemma_add_mod_noop(a, c, pow2(w) as int);
    lemma_add_mod_noop(b, d, pow2(w) as int);
}

/// Differences of congruent numbers are congruent.
pub proof fn lemma_eqm_sub(a: int, b: int, c: int, d: int, w: nat)
    requires
        eqm(a, b, w),
        eqm(c, d, w),
    ensures
        eqm(a - c, b - d, w),
{
    lemma_pow2_pos(w);
    lemma_sub_mod_noop(a, c, pow2(w) as int);
    lemma_sub_mod_noop(b, d, pow2(w) as int);
}

/// Products of congruent numbers are congruent.
pub proof fn lemma_eqm_mul(a: int, b: int, c: int, d: int, w: nat)
    requires
        eqm(a, b, w),
        eqm(c, d, w),
    ensures
        eqm(a * c, b * d, w),
{
    lemma_pow2_pos(w);
    lemma_mul_mod_noop(a, c, pow2(w) as int);
    lemma_mul_mod_noop(b, d, pow2(w) as int);
}

/// Congruent numbers have the same low bits, and only they.
pub proof fn lemma_eqm_bits(x: int, y: int, w: nat)
    ensures
        eqm(x, y, w) <==> bits::bits_of(x, w) == bits::bits_of(y, w),
{
    bits::lemma_nat_bits_of(x, w);
    bits::lemma_nat_bits_of(y, w);
    if eqm(x, y, w) {
        bits::lemma_bits_of_congruent(x, y, w);
    }
}

/// The number of the low bits of `x` is congruent to `x`.
pub proof fn lemma_eqm_nat(x: int, w: nat)
    ensures
        eqm(num(bits::bits_of(x, w)), x, w),
{
    lemma_pow2_pos(w);
    bits::lemma_nat_bits_of(x, w);
    lemma_mod_twice(x, pow2(w) as int);
}

/// A value whose number is congruent to `x` is the low bits of `x`.
pub proof fn lemma_eqm_value(s: Seq<bool>, x: int)
    requires
        eqm(num(s), x, s.len()),
    ensures
        s == bits::bits_of(x, s.len()),
{
    lemma_eqm_bits(num(s), x, s.len());
    bits::lemma_bits_of_nat(s);
}

/// Two values of one width with congruent numbers are one.
pub proof fn lemma_eqm_same(s: Seq<bool>, t: Seq<bool>)
    requires
        s.len() == t.len(),
        eqm(num(s), num(t), s.len()),
    ensures
        s == t,
{
    lemma_eqm_value(s, num(t));
    bits::lemma_bits_of_nat(t);
}

/// `2^w` is congruent to 0.
pub proof fn lemma_eqm_modulus(w: nat, k: int)
    ensures
        eqm(k * pow2(w), 0, w),
{
    lemma_pow2_pos(w);
    lemma_mod_multiples_basic(k, pow2(w) as int);
    lemma_small_mod(0, pow2(w));
}

/// What the arithmetic operators compute, modulo `2^w`.
pub proof fn lemma_eqm_ops(a: Seq<bool>, b: Seq<bool>)
    requires
        a.len() == b.len(),
    ensures
        eqm(num(ops::bin_value(BinOp::Add, a, b)), num(a) + num(b), a.len()),
        eqm(num(ops::bin_value(BinOp::Sub, a, b)), num(a) - num(b), a.len()),
        eqm(num(ops::bin_value(BinOp::Mul, a, b)), num(a) * num(b), a.len()),
        ops::bin_value(BinOp::Add, a, b).len() == a.len(),
        ops::bin_value(BinOp::Sub, a, b).len() == a.len(),
        ops::bin_value(BinOp::Mul, a, b).len() == a.len(),
{
    lemma_eqm_nat(num(a) + num(b), a.len());
    lemma_eqm_nat(num(a) - num(b), a.len());
    lemma_eqm_nat(num(a) * num(b), a.len());
}

/// What negation and complement compute, modulo `2^w`.
pub proof fn lemma_eqm_un(a: Seq<bool>)
    ensures
        eqm(num(ops::un_value(UnOp::Neg, a)), -num(a), a.len()),
        eqm(num(ops::un_value(UnOp::Not, a)), -num(a) - 1, a.len()),
{
    lemma_eqm_nat(-num(a), a.len());
    ops::lemma_not_nat(a);
    lemma_eqm_modulus(a.len(), 1);
    let n = num(a);
    let p = pow2(a.len()) as int;
    assert(1 * p == p);
    lemma_eqm_add(1 * p, 0, -n - 1, -n - 1, a.len());
}

/// Shifting left multiplies by a power of two.
pub proof fn lemma_eqm_shl(a: Seq<bool>, k: nat)
    ensures
        eqm(num(ops::shl_bits(a, k)), num(a) * pow2(k), a.len()),
        ops::shl_bits(a, k).len() == a.len(),
    decreases k,
{
    let w = a.len();
    if k == 0 {
        bits::lemma_pow2_zero();
        assert(ops::shl_bits(a, 0) =~= a);
        assert(num(a) * 1 == num(a)) by (nonlinear_arith);
    } else {
        let b = ops::shl_bits(a, (k - 1) as nat);
        lemma_eqm_shl(a, (k - 1) as nat);
        let c = ops::shl_bits(a, k);
        // One more place.
        lemma_shl_one(b);
        assert(c =~= ops::shl_bits(b, 1));
        bits::lemma_pow2_step((k - 1) as nat);
        lemma_eqm_mul(
            num(b),
            num(a) * pow2((k - 1) as nat),
            2,
            2,
            w,
        );
        assert(num(a) * pow2((k - 1) as nat) * 2 == num(a) * pow2(k)) by (nonlinear_arith)
            requires
                pow2(k) == 2 * pow2((k - 1) as nat),
        ;
    }
}

/// Shifting left by one doubles.
pub proof fn lemma_shl_one(b: Seq<bool>)
    ensures
        eqm(num(ops::shl_bits(b, 1)), num(b) * 2, b.len()),
{
    let w = b.len();
    let c = ops::shl_bits(b, 1);
    if w == 0 {
        bits::lemma_pow2_zero();
        assert(c =~= Seq::<bool>::empty());
    } else {
        // [false] + b is c with the top bit of b behind it.
        let full = seq![false] + b;
        bits::lemma_nat_concat(seq![false], b);
        assert(num(seq![false]) == 0) by {
            bits::lemma_zeros_nat(1);
            assert(seq![false] =~= bits::zeros(1));
        }
        bits::lemma_pow2_zero();
        bits::lemma_pow2_step(0);
        assert(full.drop_last() =~= c);
        assert(full =~= c.push(b.last()));
        bits::lemma_nat_push(c, b.last());
        lemma_eqm_modulus(w, bits::b2n(b.last()) as int);
        let t = bits::b2n(b.last()) * pow2(w);
        lemma_eqm_add(t as int, 0, num(c), num(c), w);
        assert(seq![false].len() == 1);
        assert(pow2(1) == 2);
        assert(num(full) == pow2(1) * num(b));
    }
}

} // verus!
