//! What is known of an operator's result from what is known of its operands.

use vstd::prelude::*;
use crate::ops;
use crate::facts::known;
use crate::bits;
use vstd::arithmetic::power2::*;
use vstd::arithmetic::div_mod::*;
use vstd::arithmetic::mul::*;
use crate::bitvec::{BitVec, MAX_WIDTH};
use crate::facts::known::KnownBits;
use crate::ops::{BinOp, CmpOp, UnOp};

verus! {

/// The low bits of a product are clear when the factors' low bits are.
pub proof fn lemma_mul_low_zeros(a: Seq<bool>, b: Seq<bool>, x: nat, y: nat)
    requires
        a.len() == b.len(),
        x <= a.len(),
        y <= b.len(),
        forall|j: int| 0 <= j < x ==> !a[j],
        forall|j: int| 0 <= j < y ==> !b[j],
    ensures
        forall|j: int| 0 <= j < x + y && j < a.len() ==> !ops::bin_value(BinOp::Mul, a, b)[j],
{
    lemma_low_zeros_nat(a, x);
    lemma_low_zeros_nat(b, y);
    let p = pow2(x) as int;
    let q = pow2(y) as int;
    let c = bits::nat_of(a) as int / p;
    let d = bits::nat_of(b) as int / q;
    lemma_pow2_pos(x);
    lemma_pow2_pos(y);
    lemma_fundamental_div_mod(bits::nat_of(a) as int, p);
    lemma_fundamental_div_mod(bits::nat_of(b) as int, q);
    let t = (bits::nat_of(a) * bits::nat_of(b)) as int;
    bits::lemma_pow2_sum(x, y);
    assert(t == (c * d) * (p * q)) by (nonlinear_arith)
        requires
            t == bits::nat_of(a) * bits::nat_of(b),
            bits::nat_of(a) == p * c,
            bits::nat_of(b) == q * d,
    ;
    let r = ops::bin_value(BinOp::Mul, a, b);
    assert forall|j: int| 0 <= j < x + y && j < a.len() implies !r[j] by {
        let k = (x + y - j - 1) as nat;
        bits::lemma_pow2_sum(j as nat, (k + 1) as nat);
        bits::lemma_pow2_step(k);
        lemma_pow2_pos(j as nat);
        let m = pow2(j as nat) as int;
        let h = pow2(k) as int;
        assert(t == m * (2 * (c * d * h))) by (nonlinear_arith)
            requires
                t == (c * d) * (p * q),
                p * q == m * (2 * h),
        ;
        lemma_div_multiples_vanish(2 * (c * d * h), m);
        assert((2 * (c * d * h)) % 2 == 0);
    }
}

/// A value with clear low bits is a multiple of their weight.
pub proof fn lemma_low_zeros_nat(a: Seq<bool>, x: nat)
    requires
        x <= a.len(),
        forall|j: int| 0 <= j < x ==> !a[j],
    ensures
        bits::nat_of(a) % pow2(x) == 0,
{
    bits::lemma_nat_take(a, x as int);
    assert(a.take(x as int) =~= bits::zeros(x));
    bits::lemma_zeros_nat(x);
}

/// A value is double another when it is that one shifted up.
pub proof fn lemma_double(a: Seq<bool>)
    requires
        a.len() > 0,
    ensures
        ops::bin_value(BinOp::Add, a, a) == ops::shl_bits(a, 1),
{
    let w = a.len();
    let s = ops::shl_bits(a, 1);
    let x = 2 * bits::nat_of(a) as int;
    let m = pow2(w) as int;
    bits::lemma_pow2_step((w - 1) as nat);
    // s = 2 * (a without its top bit)
    let low = a.take(w - 1);
    assert(s.skip(1) =~= low);
    crate::bitvec::lemma_skip_step(s, 0);
    assert(s.skip(0) =~= s);
    bits::lemma_nat_take_step(a, w - 1);
    assert(a.take(w as int) =~= a);
    let top = bits::b2n(a[w - 1]) as int;
    assert(x == top * m + bits::nat_of(s)) by (nonlinear_arith)
        requires
            x == 2 * bits::nat_of(a),
            bits::nat_of(a) == bits::nat_of(low) + top * pow2((w - 1) as nat),
            bits::nat_of(s) == 2 * bits::nat_of(low),
            m == 2 * pow2((w - 1) as nat),
    ;
    bits::lemma_nat_bound(s);
    lemma_fundamental_div_mod_converse(x, m, top, bits::nat_of(s) as int);
    bits::lemma_bits_of_unique(s, x);
}

/// A value at most another has that one's clear high bits.
pub proof fn lemma_high_zeros(a: Seq<bool>, k: nat)
    requires
        k <= a.len(),
        forall|j: int| k <= j < a.len() ==> !a[j],
    ensures
        bits::nat_of(a) < pow2(k),
{
    bits::lemma_nat_take(a, k as int);
    assert(a.skip(k as int) =~= bits::zeros((a.len() - k) as nat));
    bits::lemma_zeros_nat((a.len() - k) as nat);
    lemma_pow2_pos(k);
    bits::lemma_nat_bound(a.take(k as int));
    lemma_fundamental_div_mod(bits::nat_of(a) as int, pow2(k) as int);
    assert(pow2(k) * 0 == 0);
}

pub proof fn lemma_counts(a: Seq<bool>)
    ensures
        ops::count_ones(a) <= a.len(),
        ops::leading_zeros(a) <= a.len(),
        ops::trailing_zeros(a) <= a.len(),
    decreases a.len(),
{
    if a.len() > 0 {
        lemma_counts(a.drop_last());
        lemma_counts(a.skip(1));
    }
}

/// There are at most as many set bits as bits that may be set.
pub proof fn lemma_count_le(a: Seq<bool>, m: Seq<bool>)
    requires
        a.len() == m.len(),
        forall|j: int| 0 <= j < a.len() && #[trigger] a[j] ==> m[j],
    ensures
        ops::count_ones(a) <= ops::count_ones(m),
    decreases a.len(),
{
    if a.len() > 0 {
        let c = a.drop_last();
        let d = m.drop_last();
        assert forall|j: int| 0 <= j < c.len() && #[trigger] c[j] implies d[j] by {
            assert(a[j]);
        }
        lemma_count_le(c, d);
        assert(a[a.len() - 1] ==> m[a.len() - 1]);
    }
}

/// The known bits of a shifted value.
fn shl_known(a: &KnownBits, k: usize) -> (r: KnownBits)
    requires
        a.has(a.zero@.len()),
    ensures
        r.has(a.zero@.len()),
        forall|s: Seq<bool>| #[trigger] a.admits(s) ==> r.admits(ops::shl_bits(s, k as nat)),
{
    let n = a.len();
    let low = KnownBits::zeros_below(n, k);
    let r = KnownBits { zero: a.zero.shl(k).or(&low.zero), one: a.one.shl(k) };
    proof {
        assert forall|s: Seq<bool>| #[trigger] a.admits(s) implies r.admits(
            ops::shl_bits(s, k as nat),
        ) by {
            let t = ops::shl_bits(s, k as nat);
            let l = Seq::new(n as nat, |i: int| i >= k);
            assert(low.admits(l));
            assert forall|i: int| #![trigger t[i]] 0 <= i < t.len() implies (r.zero@[i] ==> !t[i])
                && (r.one@[i] ==> t[i]) by {
                if i >= k {
                    let _ = s[i - k];
                    assert(l[i]);
                }
            }
        }
    }
    r
}

/// The known bits of a value shifted down, filled with clear bits (or the sign).
fn shr_known(a: &KnownBits, k: usize, signed: bool) -> (r: KnownBits)
    requires
        a.has(a.zero@.len()),
        a.zero@.len() > 0,
    ensures
        r.has(a.zero@.len()),
        forall|s: Seq<bool>|
            #[trigger] a.admits(s) ==> r.admits(
                ops::shr_bits(
                    s,
                    k as nat,
                    if signed {
                        s.last()
                    } else {
                        false
                    },
                ),
            ),
{
    let n = a.len();
    let fz = if signed {
        a.zero.sign()
    } else {
        true
    };
    let fo = if signed {
        a.one.sign()
    } else {
        false
    };
    let r = KnownBits { zero: a.zero.shr(k, fz), one: a.one.shr(k, fo) };
    proof {
        assert forall|s: Seq<bool>| #[trigger] a.admits(s) implies r.admits(
            ops::shr_bits(
                s,
                k as nat,
                if signed {
                    s.last()
                } else {
                    false
                },
            ),
        ) by {
            let f = if signed {
                s.last()
            } else {
                false
            };
            let t = ops::shr_bits(s, k as nat, f);
            let _ = s[s.len() - 1];
            assert forall|i: int| #![trigger t[i]] 0 <= i < t.len() implies (r.zero@[i] ==> !t[i])
                && (r.one@[i] ==> t[i]) by {
                if i + k < n {
                    let _ = s[i + k];
                }
            }
        }
    }
    r
}

/// The known bits of a rotated value.
fn rotl_known(a: &KnownBits, k: usize) -> (r: KnownBits)
    requires
        a.has(a.zero@.len()),
        a.zero@.len() > 0,
        k <= a.zero@.len(),
    ensures
        r.has(a.zero@.len()),
        forall|s: Seq<bool>| #[trigger] a.admits(s) ==> r.admits(ops::rotl_bits(s, k as nat)),
{
    let r = KnownBits { zero: a.zero.rotl(k), one: a.one.rotl(k) };
    proof {
        assert forall|s: Seq<bool>| #[trigger] a.admits(s) implies r.admits(
            ops::rotl_bits(s, k as nat),
        ) by {
            let t = ops::rotl_bits(s, k as nat);
            assert forall|i: int| #![trigger t[i]] 0 <= i < t.len() implies (r.zero@[i] ==> !t[i])
                && (r.one@[i] ==> t[i]) by {
                lemma_mod_bound(i - k, s.len() as int);
                let _ = s[(i - k) % (s.len() as int)];
            }
        }
    }
    r
}

/// A value at most one of `a`'s.
fn below_known(a: &KnownBits) -> (r: KnownBits)
    requires
        a.has(a.zero@.len()),
    ensures
        r.has(a.zero@.len()),
        forall|s: Seq<bool>, t: Seq<bool>|
            #![trigger a.admits(s), r.admits(t)]
            a.admits(s) && t.len() == s.len() && bits::nat_of(t) <= bits::nat_of(s) ==> r.admits(t),
{
    let n = a.len();
    let k = n - a.high_zeros();
    let r = KnownBits::zeros_from(n, k);
    proof {
        assert forall|s: Seq<bool>, t: Seq<bool>|
            #![trigger a.admits(s), r.admits(t)]
            a.admits(s) && t.len() == s.len() && bits::nat_of(t) <= bits::nat_of(s) implies r.admits(t) by {
            assert forall|j: int| k <= j < s.len() implies !s[j] by {
                assert(a.zero@[j]);
            }
            lemma_high_zeros(s, k as nat);
            known::lemma_small_bits(t, k as nat);
        }
    }
    r
}

/// What is known of a unary operator's result.
pub(crate) fn un_known(op: UnOp, a: &KnownBits) -> (r: KnownBits)
    requires
        a.has(a.zero@.len()),
        0 < a.zero@.len() <= MAX_WIDTH,
        op == UnOp::Bswap ==> a.zero@.len() % 8 == 0,
    ensures
        r.has(a.zero@.len()),
        forall|s: Seq<bool>| #[trigger] a.admits(s) ==> r.admits(ops::un_value(op, s)),
        op == UnOp::Not ==> r.zero@ == a.one@ && r.one@ == a.zero@,
{
    let n = a.len();
    match op {
        UnOp::Not => a.not(),
        UnOp::Neg => {
            let z = KnownBits::constant(&BitVec::fill(n, false));
            let na = a.not();
            let r = z.add_carry(&na, true);
            proof {
                assert forall|s: Seq<bool>| #[trigger] a.admits(s) implies r.admits(ops::neg_bits(s)) by {
                    let zz = Seq::new(n as nat, |i: int| false);
                    assert(z.admits(zz));
                    assert(zz =~= bits::zeros(n as nat));
                    bits::lemma_zeros_nat(n as nat);
                    assert(na.admits(ops::not_bits(s)));
                    ops::lemma_not_nat(s);
                    lemma_neg_by_not(s);
                }
            }
            r
        },
        UnOp::Popcnt => {
            let m = a.maybe_one();
            let c = m.ones_count();
            let r = KnownBits::at_most(n, c as u64);
            proof {
                assert forall|s: Seq<bool>| #[trigger] a.admits(s) implies r.admits(
                    ops::un_value(op, s),
                ) by {
                    assert forall|j: int| 0 <= j < s.len() && #[trigger] s[j] implies m@[j] by {}
                    lemma_count_le(s, m@);
                    bits::lemma_nat_bits_of(ops::count_ones(s) as int, n as nat);
                    lemma_pow2_pos(n as nat);
                    lemma_mod_decreases(ops::count_ones(s), pow2(n as nat));
                }
            }
            r
        },
        UnOp::Clz => {
            let r = KnownBits::at_most(n, n as u64);
            proof {
                assert forall|s: Seq<bool>| #[trigger] a.admits(s) implies r.admits(
                    ops::un_value(op, s),
                ) by {
                    lemma_counts(s);
                    bits::lemma_nat_bits_of(ops::leading_zeros(s) as int, n as nat);
                    lemma_pow2_pos(n as nat);
                    lemma_mod_decreases(ops::leading_zeros(s), pow2(n as nat));
                }
            }
            r
        },
        UnOp::Ctz => {
            let r = KnownBits::at_most(n, n as u64);
            proof {
                assert forall|s: Seq<bool>| #[trigger] a.admits(s) implies r.admits(
                    ops::un_value(op, s),
                ) by {
                    lemma_counts(s);
                    bits::lemma_nat_bits_of(ops::trailing_zeros(s) as int, n as nat);
                    lemma_pow2_pos(n as nat);
                    lemma_mod_decreases(ops::trailing_zeros(s), pow2(n as nat));
                }
            }
            r
        },
        UnOp::Bswap => {
            let r = KnownBits { zero: a.zero.bswap(), one: a.one.bswap() };
            proof {
                assert forall|s: Seq<bool>| #[trigger] a.admits(s) implies r.admits(
                    ops::bswap_bits(s),
                ) by {
                    let t = ops::bswap_bits(s);
                    assert forall|i: int| #![trigger t[i]] 0 <= i < t.len() implies (r.zero@[i]
                        ==> !t[i]) && (r.one@[i] ==> t[i]) by {
                        let _ = s[ops::bswap_from(i, s.len() as int)];
                    }
                }
            }
            r
        },
        UnOp::BitRev => {
            let r = KnownBits { zero: a.zero.rev(), one: a.one.rev() };
            proof {
                assert forall|s: Seq<bool>| #[trigger] a.admits(s) implies r.admits(ops::rev_bits(s)) by {
                    let t = ops::rev_bits(s);
                    assert forall|i: int| #![trigger t[i]] 0 <= i < t.len() implies (r.zero@[i]
                        ==> !t[i]) && (r.one@[i] ==> t[i]) by {
                        let _ = s[s.len() - 1 - i];
                    }
                }
            }
            r
        },
    }
}

/// Negation is the complement plus one.
pub proof fn lemma_neg_by_not(s: Seq<bool>)
    ensures
        ops::neg_bits(s) == bits::bits_of((0 + bits::nat_of(ops::not_bits(s)) + 1) as int, s.len()),
{
    ops::lemma_not_nat(s);
    let m = pow2(s.len()) as int;
    lemma_pow2_pos(s.len());
    let x = -(bits::nat_of(s) as int);
    lemma_mod_add_multiples_vanish(x, m);
    bits::lemma_bits_of_congruent(x + m, x, s.len());
}

/// What is known of a binary operator's result.
pub(crate) fn bin_known(op: BinOp, a: &KnownBits, b: &KnownBits) -> (r: KnownBits)
    requires
        a.has(a.zero@.len()),
        b.has(a.zero@.len()),
        0 < a.zero@.len() <= MAX_WIDTH,
    ensures
        r.has(a.zero@.len()),
        forall|s: Seq<bool>, t: Seq<bool>|
            #![trigger a.admits(s), b.admits(t)]
            a.admits(s) && b.admits(t) ==> r.admits(ops::bin_value(op, s, t)),
        op == BinOp::And ==> r.zero@ == ops::or_bits(a.zero@, b.zero@) && r.one@ == ops::and_bits(
            a.one@,
            b.one@,
        ),
        op == BinOp::Or ==> r.zero@ == ops::and_bits(a.zero@, b.zero@) && r.one@ == ops::or_bits(
            a.one@,
            b.one@,
        ),
        op == BinOp::Xor ==> r.zero@ == ops::or_bits(
            ops::and_bits(a.zero@, b.zero@),
            ops::and_bits(a.one@, b.one@),
        ) && r.one@ == ops::or_bits(
            ops::and_bits(a.zero@, b.one@),
            ops::and_bits(a.one@, b.zero@),
        ),
{
    let n = a.len();
    match op {
        BinOp::And => a.and(b),
        BinOp::Or => a.or(b),
        BinOp::Xor => a.xor(b),
        BinOp::Add => {
            let r = a.add_carry(b, false);
            r
        },
        BinOp::Sub => {
            let nb = b.not();
            let r = a.add_carry(&nb, true);
            proof {
                assert forall|s: Seq<bool>, t: Seq<bool>|
                    #![trigger a.admits(s), b.admits(t)]
                    a.admits(s) && b.admits(t) implies r.admits(ops::bin_value(op, s, t)) by {
                    assert(nb.admits(ops::not_bits(t)));
                    ops::lemma_not_nat(t);
                    let m = pow2(n as nat) as int;
                    lemma_pow2_pos(n as nat);
                    let d = bits::nat_of(s) - bits::nat_of(t);
                    lemma_mod_add_multiples_vanish(d, m);
                    bits::lemma_bits_of_congruent(d + m, d, n as nat);
                }
            }
            r
        },
        BinOp::Mul => {
            let x = a.low_zeros();
            let y = b.low_zeros();
            let r = KnownBits::zeros_below(n, x + y);
            proof {
                assert forall|s: Seq<bool>, t: Seq<bool>|
                    #![trigger a.admits(s), b.admits(t)]
                    a.admits(s) && b.admits(t) implies r.admits(ops::bin_value(op, s, t)) by {
                    assert forall|j: int| 0 <= j < x implies !s[j] by {
                        assert(a.zero@[j]);
                    }
                    assert forall|j: int| 0 <= j < y implies !t[j] by {
                        assert(b.zero@[j]);
                    }
                    lemma_mul_low_zeros(s, t, x as nat, y as nat);
                }
            }
            r
        },
        BinOp::UDiv => {
            // By a divisor known not to be zero, at most the dividend.
            if b.one.is_zero() {
                return KnownBits::unknown(n);
            }
            let r = below_known(a);
            proof {
                assert forall|s: Seq<bool>, t: Seq<bool>|
                    #![trigger a.admits(s), b.admits(t)]
                    a.admits(s) && b.admits(t) implies r.admits(ops::bin_value(op, s, t)) by {
                    if bits::nat_of(t) == 0 {
                        bits::lemma_zeros_nat(n as nat);
                        bits::lemma_nat_injective(t, bits::zeros(n as nat));
                        assert(b.one@ =~= bits::zeros(n as nat));
                    }
                    let q = bits::nat_of(s) / bits::nat_of(t);
                    lemma_div_nonincreasing(bits::nat_of(s) as int, bits::nat_of(t) as int);
                    bits::lemma_nat_bound(s);
                    lemma_div_pos_is_pos(bits::nat_of(s) as int, bits::nat_of(t) as int);
                    bits::lemma_fits(q as int, n as nat);
                }
            }
            r
        },
        BinOp::URem => {
            let r = below_known(a);
            proof {
                assert forall|s: Seq<bool>, t: Seq<bool>|
                    #![trigger a.admits(s), b.admits(t)]
                    a.admits(s) && b.admits(t) implies r.admits(ops::bin_value(op, s, t)) by {
                    if bits::nat_of(t) != 0 {
                        let q = bits::nat_of(s) % bits::nat_of(t);
                        lemma_mod_decreases(bits::nat_of(s), bits::nat_of(t));
                        bits::lemma_nat_bound(s);
                        bits::lemma_fits(q as int, n as nat);
                    }
                }
            }
            r
        },
        BinOp::SDiv | BinOp::SRem => KnownBits::unknown(n),
        BinOp::Shl => {
            if let Some(v) = b.as_constant() {
                let k = v.amount(n);
                let r = shl_known(a, k);
                proof {
                    assert forall|s: Seq<bool>, t: Seq<bool>|
                        #![trigger a.admits(s), b.admits(t)]
                        a.admits(s) && b.admits(t) implies r.admits(ops::bin_value(op, s, t)) by {
                        assert(ops::shl_bits(s, k as nat) =~= ops::shl_bits(s, bits::nat_of(t)));
                    }
                }
                r
            } else {
                let x = a.low_zeros();
                let r = KnownBits::zeros_below(n, x);
                proof {
                    assert forall|s: Seq<bool>, t: Seq<bool>|
                        #![trigger a.admits(s), b.admits(t)]
                        a.admits(s) && b.admits(t) implies r.admits(ops::bin_value(op, s, t)) by {
                        let u = ops::shl_bits(s, bits::nat_of(t));
                        assert forall|j: int| 0 <= j < x && j < n implies !u[j] by {
                            if j >= bits::nat_of(t) {
                                assert(a.zero@[j - bits::nat_of(t)]);
                                let _ = s[j - bits::nat_of(t)];
                            }
                        }
                    }
                }
                r
            }
        },
        BinOp::LShr => {
            if let Some(v) = b.as_constant() {
                let k = v.amount(n);
                let r = shr_known(a, k, false);
                proof {
                    assert forall|s: Seq<bool>, t: Seq<bool>|
                        #![trigger a.admits(s), b.admits(t)]
                        a.admits(s) && b.admits(t) implies r.admits(ops::bin_value(op, s, t)) by {
                        assert(ops::shr_bits(s, k as nat, false) =~= ops::shr_bits(s, bits::nat_of(t), false));
                    }
                }
                r
            } else {
                let x = a.high_zeros();
                let r = KnownBits::zeros_from(n, n - x);
                proof {
                    assert forall|s: Seq<bool>, t: Seq<bool>|
                        #![trigger a.admits(s), b.admits(t)]
                        a.admits(s) && b.admits(t) implies r.admits(ops::bin_value(op, s, t)) by {
                        let u = ops::shr_bits(s, bits::nat_of(t), false);
                        assert forall|j: int| n - x <= j < n implies !u[j] by {
                            if j + bits::nat_of(t) < n {
                                assert(a.zero@[j + bits::nat_of(t)]);
                                let _ = s[j + bits::nat_of(t)];
                            }
                        }
                    }
                }
                r
            }
        },
        BinOp::AShr => {
            if let Some(v) = b.as_constant() {
                let k = v.amount(n);
                let r = shr_known(a, k, true);
                proof {
                    assert forall|s: Seq<bool>, t: Seq<bool>|
                        #![trigger a.admits(s), b.admits(t)]
                        a.admits(s) && b.admits(t) implies r.admits(ops::bin_value(op, s, t)) by {
                        assert(ops::shr_bits(s, k as nat, s.last()) =~= ops::shr_bits(s, bits::nat_of(t), s.last()));
                    }
                }
                r
            } else {
                KnownBits::unknown(n)
            }
        },
        BinOp::RotL => {
            if let Some(v) = b.as_constant() {
                let k = v.modulo(n);
                let r = rotl_known(a, k);
                proof {
                    assert forall|s: Seq<bool>, t: Seq<bool>|
                        #![trigger a.admits(s), b.admits(t)]
                        a.admits(s) && b.admits(t) implies r.admits(ops::bin_value(op, s, t)) by {
                        crate::bitvec::lemma_rotl_mod(s, bits::nat_of(t));
                    }
                }
                r
            } else {
                KnownBits::unknown(n)
            }
        },
        BinOp::RotR => {
            if let Some(v) = b.as_constant() {
                let k = v.modulo(n);
                rotl_known(a, n - k)
            } else {
                KnownBits::unknown(n)
            }
        },
    }
}

/// Whether a comparison is decided by what is known of its operands.
pub(crate) fn rel_known(op: CmpOp, a: &KnownBits, b: &KnownBits) -> (r: Option<bool>)
    requires
        a.has(a.zero@.len()),
        b.has(a.zero@.len()),
        0 < a.zero@.len() <= MAX_WIDTH,
    ensures
        r matches Some(v) ==> forall|s: Seq<bool>, t: Seq<bool>|
            #![trigger a.admits(s), b.admits(t)]
            a.admits(s) && b.admits(t) ==> ops::holds(op, s, t) == v,
{
    match op {
        CmpOp::Eq | CmpOp::Ne => {
            // A bit set in one and clear in the other.
            let apart = a.zero.and(&b.one).or(&a.one.and(&b.zero));
            if !apart.is_zero() {
                proof {
                    assert forall|s: Seq<bool>, t: Seq<bool>|
                        #![trigger a.admits(s), b.admits(t)]
                        a.admits(s) && b.admits(t) implies s != t by {
                        if s == t {
                            assert forall|i: int| 0 <= i < apart@.len() implies !apart@[i] by {
                                let _ = s[i];
                            }
                            assert(apart@ =~= bits::zeros(apart@.len()));
                        }
                    }
                }
                return Some(op == CmpOp::Ne);
            }
            match (a.as_constant(), b.as_constant()) {
                (Some(x), Some(y)) => Some(x.same(&y) == (op == CmpOp::Eq)),
                _ => None,
            }
        },
        CmpOp::Ult => {
            if a.umax().ult(&b.umin()) {
                Some(true)
            } else if b.umax().ule(&a.umin()) {
                Some(false)
            } else {
                None
            }
        },
        CmpOp::Ule => {
            if a.umax().ule(&b.umin()) {
                Some(true)
            } else if b.umax().ult(&a.umin()) {
                Some(false)
            } else {
                None
            }
        },
        CmpOp::Slt | CmpOp::Sle => {
            proof {
                assert forall|s: Seq<bool>, t: Seq<bool>|
                    #![trigger a.admits(s), b.admits(t)]
                    a.admits(s) && b.admits(t) implies (a.one@.last() ==> s.last()) && (
                a.zero@.last() ==> !s.last()) && (b.one@.last() ==> t.last()) && (b.zero@.last()
                    ==> !t.last()) && bits::int_of(s) < pow2((s.len() - 1) as nat) && (s.last() && !t.last()
                    ==> bits::int_of(s) < bits::int_of(t)) && (t.last() && !s.last() ==> bits::int_of(t) < bits::int_of(s)) && (
                s.last() == t.last() ==> bits::int_of(s) - bits::int_of(t) == bits::nat_of(s) - bits::nat_of(t)) by {
                    ops::lemma_sign(s);
                    ops::lemma_sign(t);
                    bits::lemma_nat_bound(s);
                    bits::lemma_nat_bound(t);
                    let _ = s[s.len() - 1];
                    let _ = t[t.len() - 1];
                }
            }
            if a.one.sign() && b.zero.sign() {
                return Some(true);
            }
            if a.zero.sign() && b.one.sign() {
                return Some(false);
            }
            if (a.one.sign() && b.one.sign()) || (a.zero.sign() && b.zero.sign()) {
                if op == CmpOp::Slt {
                    if a.umax().ult(&b.umin()) {
                        return Some(true);
                    }
                    if b.umax().ule(&a.umin()) {
                        return Some(false);
                    }
                } else {
                    if a.umax().ule(&b.umin()) {
                        return Some(true);
                    }
                    if b.umax().ult(&a.umin()) {
                        return Some(false);
                    }
                }
            }
            None
        },
    }
}

} // verus!
