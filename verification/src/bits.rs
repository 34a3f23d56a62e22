//! The mathematical model of a bit-vector value: a sequence of bits, the least significant
//! first, read as a natural number below `2^len` or as a two's-complement integer.

use vstd::prelude::*;
use vstd::arithmetic::power2::*;
use vstd::arithmetic::div_mod::*;
use vstd::arithmetic::mul::*;

verus! {

/// The number a bit stands for.
pub open spec fn b2n(b: bool) -> nat {
    if b {
        1
    } else {
        0
    }
}

/// The value of `s` as an unsigned number.
pub open spec fn nat_of(s: Seq<bool>) -> nat
    decreases s.len(),
{
    if s.len() == 0 {
        0
    } else {
        nat_of(s.drop_last()) + b2n(s.last()) * pow2((s.len() - 1) as nat)
    }
}

/// The value of `s` as a two's-complement number.
pub open spec fn int_of(s: Seq<bool>) -> int {
    if s.len() > 0 && s.last() {
        nat_of(s) - pow2(s.len())
    } else {
        nat_of(s) as int
    }
}

/// Bit `i` of the two's-complement representation of `n`.
pub open spec fn int_bit(n: int, i: nat) -> bool {
    (n / (pow2(i) as int)) % 2 == 1
}

/// The low `w` bits of the two's-complement representation of `n`.
pub open spec fn bits_of(n: int, w: nat) -> Seq<bool> {
    Seq::new(w, |i: int| int_bit(n, i as nat))
}

/// All bits clear.
pub open spec fn zeros(w: nat) -> Seq<bool> {
    Seq::new(w, |i: int| false)
}

/// All bits set.
pub open spec fn ones(w: nat) -> Seq<bool> {
    Seq::new(w, |i: int| true)
}

pub proof fn lemma_pow2_step(k: nat)
    ensures
        pow2(k + 1) == 2 * pow2(k),
        pow2(k) > 0,
{
    lemma_pow2_pos(k);
    lemma_pow2_unfold(k + 1);
}

pub proof fn lemma_pow2_zero()
    ensures
        pow2(0) == 1,
        pow2(1) == 2,
{
    lemma2_to64();
}

pub proof fn lemma_pow2_sum(a: nat, b: nat)
    ensures
        pow2(a + b) == pow2(a) * pow2(b),
{
    lemma_pow2_adds(a, b);
}

/// A larger exponent is a multiple.
pub proof fn lemma_pow2_le(a: nat, b: nat)
    requires
        a <= b,
    ensures
        pow2(a) <= pow2(b),
        pow2(b) == pow2((b - a) as nat) * pow2(a),
        pow2(a) > 0,
{
    lemma_pow2_sum((b - a) as nat, a);
    lemma_pow2_pos((b - a) as nat);
    lemma_pow2_pos(a);
    let x = pow2((b - a) as nat);
    let y = pow2(a);
    assert(x * y >= y) by (nonlinear_arith)
        requires
            x >= 1,
            y >= 1,
    ;
}

/// An unsigned value is below `2^len`.
pub proof fn lemma_nat_bound(s: Seq<bool>)
    ensures
        nat_of(s) < pow2(s.len()),
    decreases s.len(),
{
    if s.len() == 0 {
        lemma_pow2_zero();
    } else {
        lemma_nat_bound(s.drop_last());
        lemma_pow2_step((s.len() - 1) as nat);
    }
}

pub proof fn lemma_nat_push(s: Seq<bool>, b: bool)
    ensures
        nat_of(s.push(b)) == nat_of(s) + b2n(b) * pow2(s.len()),
{
    assert(s.push(b).drop_last() =~= s);
}

/// The value of a prefix one bit longer.
pub proof fn lemma_nat_take_step(s: Seq<bool>, i: int)
    requires
        0 <= i < s.len(),
    ensures
        nat_of(s.take(i + 1)) == nat_of(s.take(i)) + b2n(s[i]) * pow2(i as nat),
{
    assert(s.take(i + 1).drop_last() =~= s.take(i));
}

/// The value of a concatenation, the low part first.
pub proof fn lemma_nat_concat(lo: Seq<bool>, hi: Seq<bool>)
    ensures
        nat_of(lo + hi) == nat_of(lo) + pow2(lo.len()) * nat_of(hi),
    decreases hi.len(),
{
    if hi.len() == 0 {
        assert(lo + hi =~= lo);
        assert(pow2(lo.len()) * 0 == 0);
    } else {
        let h = hi.drop_last();
        lemma_nat_concat(lo, h);
        assert((lo + hi).drop_last() =~= lo + h);
        lemma_pow2_sum(lo.len(), h.len());
        let p = pow2(lo.len());
        let q = pow2(h.len());
        let b = b2n(hi.last());
        assert(b * (p * q) == p * (b * q)) by (nonlinear_arith);
        assert(p * (nat_of(h) + b * q) == p * nat_of(h) + p * (b * q)) by (nonlinear_arith);
    }
}

/// The value of a prefix is the remainder modulo its weight.
pub proof fn lemma_nat_take(s: Seq<bool>, k: int)
    requires
        0 <= k <= s.len(),
    ensures
        nat_of(s.take(k)) == nat_of(s) % pow2(k as nat),
        nat_of(s.skip(k)) == nat_of(s) / pow2(k as nat),
{
    let lo = s.take(k);
    let hi = s.skip(k);
    assert(lo + hi =~= s);
    lemma_nat_concat(lo, hi);
    lemma_nat_bound(lo);
    lemma_pow2_pos(k as nat);
    lemma_mul_is_commutative(pow2(k as nat) as int, nat_of(hi) as int);
    lemma_fundamental_div_mod_converse(
        nat_of(s) as int,
        pow2(k as nat) as int,
        nat_of(hi) as int,
        nat_of(lo) as int,
    );
}

pub proof fn lemma_zeros_nat(w: nat)
    ensures
        nat_of(zeros(w)) == 0,
        zeros(w).len() == w,
    decreases w,
{
    if w > 0 {
        lemma_zeros_nat((w - 1) as nat);
        assert(zeros(w).drop_last() =~= zeros((w - 1) as nat));
    }
}

pub proof fn lemma_ones_nat(w: nat)
    ensures
        nat_of(ones(w)) == pow2(w) - 1,
        ones(w).len() == w,
    decreases w,
{
    if w == 0 {
        lemma_pow2_zero();
    } else {
        lemma_ones_nat((w - 1) as nat);
        assert(ones(w).drop_last() =~= ones((w - 1) as nat));
        lemma_pow2_step((w - 1) as nat);
    }
}

/// The remainder modulo `2^(k+1)` is the one modulo `2^k` plus bit `k`.
pub proof fn lemma_mod_step(n: int, k: nat)
    ensures
        n % (pow2(k + 1) as int) == n % (pow2(k) as int) + b2n(int_bit(n, k)) * pow2(k),
{
    let p = pow2(k) as int;
    lemma_pow2_step(k);
    lemma_mod_breakdown_int(n, p);
    let q = n / p;
    assert(q % 2 == 0 || q % 2 == 1);
    assert(p * (q % 2) == b2n(int_bit(n, k)) * pow2(k)) by (nonlinear_arith)
        requires
            q % 2 == 0 || q % 2 == 1,
            b2n(int_bit(n, k)) == q % 2,
            pow2(k) == p,
    ;
}

/// `n mod 2p` is `p * ((n / p) mod 2) + n mod p`.
pub proof fn lemma_mod_breakdown_int(n: int, p: int)
    requires
        p > 0,
    ensures
        n % (2 * p) == p * ((n / p) % 2) + n % p,
{
    let q = n / p;
    let r = n % p;
    lemma_fundamental_div_mod(n, p);
    lemma_mod_bound(n, p);
    let h = q / 2;
    let b = q % 2;
    lemma_fundamental_div_mod(q, 2);
    assert(p * q == p * (2 * h + b));
    assert(p * (2 * h + b) == h * (2 * p) + p * b) by (nonlinear_arith);
    assert(p * b <= p) by (nonlinear_arith)
        requires
            0 <= b <= 1,
            p > 0,
    ;
    assert(p * b >= 0) by (nonlinear_arith)
        requires
            0 <= b <= 1,
            p > 0,
    ;
    assert(b == 0 ==> p * b == 0) by (nonlinear_arith);
    assert(b == 1 ==> p * b == p) by (nonlinear_arith);
    lemma_fundamental_div_mod_converse(n, 2 * p, h, p * b + r);
}

/// Reading back the bits of `n` gives `n` modulo `2^w`.
pub proof fn lemma_nat_bits_of(n: int, w: nat)
    ensures
        nat_of(bits_of(n, w)) == n % (pow2(w) as int),
        bits_of(n, w).len() == w,
    decreases w,
{
    if w == 0 {
        lemma_pow2_zero();
    } else {
        let k = (w - 1) as nat;
        lemma_nat_bits_of(n, k);
        assert(bits_of(n, w).drop_last() =~= bits_of(n, k));
        lemma_mod_step(n, k);
    }
}

/// Bits below a value's own width come back unchanged.
pub proof fn lemma_bits_of_nat(s: Seq<bool>)
    ensures
        bits_of(nat_of(s) as int, s.len()) == s,
    decreases s.len(),
{
    let n = nat_of(s) as int;
    let t = bits_of(n, s.len());
    assert forall|i: int| 0 <= i < s.len() implies t[i] == s[i] by {
        lemma_nat_take(s, i);
        lemma_nat_take(s, i + 1);
        lemma_nat_take_step(s, i);
        lemma_mod_step(n, i as nat);
        lemma_pow2_pos(i as nat);
        let p = pow2(i as nat);
        assert(b2n(s[i]) * p == b2n(int_bit(n, i as nat)) * p);
        assert(1 * p == p && 0 * p == 0);
    }
    assert(t =~= s);
}

/// Bit `i` of a value.
pub proof fn lemma_bit_of_nat(s: Seq<bool>, i: int)
    requires
        0 <= i < s.len(),
    ensures
        int_bit(nat_of(s) as int, i as nat) == s[i],
{
    lemma_bits_of_nat(s);
    assert(bits_of(nat_of(s) as int, s.len())[i] == s[i]);
}

/// Two values of one width and one number are one value.
pub proof fn lemma_nat_injective(a: Seq<bool>, b: Seq<bool>)
    requires
        a.len() == b.len(),
        nat_of(a) == nat_of(b),
    ensures
        a == b,
{
    lemma_bits_of_nat(a);
    lemma_bits_of_nat(b);
}

/// Numbers congruent modulo `2^w` have the same low `w` bits.
pub proof fn lemma_bits_of_congruent(n: int, m: int, w: nat)
    requires
        n % (pow2(w) as int) == m % (pow2(w) as int),
    ensures
        bits_of(n, w) == bits_of(m, w),
{
    lemma_nat_bits_of(n, w);
    lemma_nat_bits_of(m, w);
    lemma_nat_injective(bits_of(n, w), bits_of(m, w));
}

/// A value is the low bits of any number congruent to it.
pub proof fn lemma_bits_of_unique(s: Seq<bool>, n: int)
    requires
        nat_of(s) == n % (pow2(s.len()) as int),
    ensures
        bits_of(n, s.len()) == s,
{
    lemma_nat_bits_of(n, s.len());
    lemma_nat_injective(bits_of(n, s.len()), s);
}

/// The low bits of the bits.
pub proof fn lemma_bits_of_take(n: int, w: nat, k: int)
    requires
        0 <= k <= w,
    ensures
        bits_of(n, w).take(k) == bits_of(n, k as nat),
{
    assert(bits_of(n, w).take(k) =~= bits_of(n, k as nat));
}

/// A number that fits is its own remainder.
pub proof fn lemma_fits(n: int, w: nat)
    requires
        0 <= n < pow2(w),
    ensures
        nat_of(bits_of(n, w)) == n,
{
    lemma_nat_bits_of(n, w);
    lemma_small_mod(n as nat, pow2(w));
}

} // verus!
