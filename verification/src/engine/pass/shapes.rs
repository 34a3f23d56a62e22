//! Sets of values of a term, by comparisons with constants, and what they say of the terms it is
//! a function of.

use vstd::prelude::*;
use crate::ops;
use crate::engine::pass::runs;
use crate::engine::pass::intervals;
use crate::bits;
use crate::algebra;
use vstd::arithmetic::power2::pow2;
use crate::bitvec::{BitVec, MAX_WIDTH};
use crate::engine::pass::intervals::{complement, full, intersect, just, normalize, push_cyclic, Span};
use crate::expr::{Context, Node};
use crate::ops::{BinOp, CmpOp, UnOp};
use crate::term::Env;

verus! {

broadcast use crate::term::lemma_value_len;

/// The most intervals a set keeps before its node is treated as opaque.
pub const MAX_INTERVALS: usize = 8;

/// The longest chain of terms followed.
pub const MAX_PEEL: usize = 6;

/// The values from `a` to `b`, signed.
fn signed_span(a: BitVec, b: BitVec) -> (r: Vec<Span>)
    requires
        0 < a@.len() <= MAX_WIDTH,
        a@.len() == b@.len(),
        bits::int_of(a@) <= bits::int_of(b@),
    ensures
        intervals::spans_ok(r@, a@.len()),
        r@.len() <= 2,
        forall|v: Seq<bool>|
            v.len() == a@.len() ==> (#[trigger] intervals::within(r@, bits::nat_of(v) as int)
                <==> bits::int_of(a@) <= bits::int_of(v) <= bits::int_of(b@)),
{
    let ghost w = a@.len();
    let ghost x = a@;
    let ghost y = b@;
    proof {
        ops::lemma_sign(x);
        ops::lemma_sign(y);
        bits::lemma_nat_bound(x);
        bits::lemma_nat_bound(y);
        bits::lemma_zeros_nat(w);
        bits::lemma_ones_nat(w);
    }
    let r = if a.sign() == b.sign() {
        just(a, b)
    } else {
        let zero = BitVec::fill(a.len(), false);
        let max = BitVec::fill(a.len(), true);
        assert(zero@ =~= bits::zeros(w));
        assert(max@ =~= bits::ones(w));
        let mut r: Vec<Span> = Vec::new();
        push_cyclic(&mut r, a, b);
        let out = normalize(&r, zero.len());
        proof {
            assert forall|v: Seq<bool>| v.len() == w implies (#[trigger] intervals::within(
                out@,
                bits::nat_of(v) as int,
            ) <==> bits::int_of(x) <= bits::int_of(v) <= bits::int_of(y)) by {
                bits::lemma_nat_bound(v);
                ops::lemma_sign(v);
                let _ = intervals::within(r@, bits::nat_of(v) as int);
                assert(!intervals::within(Seq::<Span>::empty(), bits::nat_of(v) as int));
            }
            let lo = bits::nat_of(x) as int;
            let hi = bits::nat_of(y) as int;
            assert forall|k: int| 0 <= k < pow2(w) implies (#[trigger] intervals::within(out@, k)
                <==> intervals::cyclic(lo, hi, k)) by {
                let v = bits::bits_of(k, w);
                bits::lemma_fits(k, w);
                ops::lemma_sign(v);
                bits::lemma_nat_bound(v);
                assert(intervals::within(out@, bits::nat_of(v) as int) <==> bits::int_of(x)
                    <= bits::int_of(v) <= bits::int_of(y));
            }
            assert(runs::runs(out@, w, lo, hi));
            assert(runs::one_run(out@, w));
            if out@.len() != 1 && out@.len() != 2 {
                runs::lemma_not_one_run(out@, w);
            }
        }
        out
    };
    proof {
        assert forall|v: Seq<bool>| v.len() == w implies (#[trigger] intervals::within(
            r@,
            bits::nat_of(v) as int,
        ) <==> bits::int_of(x) <= bits::int_of(v) <= bits::int_of(y)) by {
            bits::lemma_nat_bound(v);
            ops::lemma_sign(v);
        }
    }
    r
}

/// Whether a comparison of `v` with `c` holds, `v` on the left or not.
pub open spec fn compared(op: CmpOp, v: Seq<bool>, c: Seq<bool>, first: bool) -> bool {
    if first {
        ops::holds(op, v, c)
    } else {
        ops::holds(op, c, v)
    }
}

/// The values `x` for which `x op c` (or `c op x`) holds.
pub fn interval_of(op: CmpOp, c: &BitVec, first: bool) -> (r: Vec<Span>)
    requires
        0 < c@.len() <= MAX_WIDTH,
    ensures
        intervals::spans_ok(r@, c@.len()),
        r@.len() <= 2,
        forall|v: Seq<bool>|
            v.len() == c@.len() ==> (#[trigger] intervals::within(r@, bits::nat_of(v) as int)
                <==> compared(op, v, c@, first)),
{
    let w = c.len();
    let zero = BitVec::fill(w, false);
    let max = BitVec::fill(w, true);
    let one = BitVec::from_u64(w, 1);
    let smin = BitVec::fill(1, true).concat(&BitVec::fill(w - 1, false));
    let smax = smin.not();
    let ghost cc = c@;
    let ghost m = pow2(w as nat) as int;
    proof {
        assert(zero@ =~= bits::zeros(w as nat));
        assert(max@ =~= bits::ones(w as nat));
        bits::lemma_zeros_nat(w as nat);
        bits::lemma_ones_nat(w as nat);
        bits::lemma_nat_bound(cc);
        bits::lemma_pow2_zero();
        bits::lemma_pow2_le(1, w as nat);
        bits::lemma_fits(1, w as nat);
        ops::lemma_sign(cc);
        lemma_smin(smin@);
        lemma_smin_not(smin@, smax@);
        ops::lemma_sign(smin@);
        ops::lemma_sign(smax@);
        assert forall|v: Seq<bool>| v.len() == w && bits::nat_of(v) == bits::nat_of(cc) implies v == cc by {
            bits::lemma_nat_injective(v, cc);
        }
    }
    let r: Vec<Span> = match op {
        CmpOp::Eq => just(c.dup(), c.dup()),
        CmpOp::Ne => {
            let e = just(c.dup(), c.dup());
            let n = complement(&e, w);
            proof {
                runs::lemma_complement_count(e@, n@, w as nat);
                assert forall|v: Seq<bool>| v.len() == w implies (#[trigger] intervals::within(
                    n@,
                    bits::nat_of(v) as int,
                ) <==> compared(op, v, cc, first)) by {
                    bits::lemma_nat_bound(v);
                    let _ = intervals::within(e@, bits::nat_of(v) as int);
                }
            }
            n
        },
        CmpOp::Ult => {
            if first {
                if c.is_zero() {
                    Vec::new()
                } else {
                    proof {
                        if bits::nat_of(cc) == 0 {
                            bits::lemma_nat_injective(cc, bits::zeros(w as nat));
                        }
                        bits::lemma_fits(bits::nat_of(cc) - 1, w as nat);
                    }
                    just(zero, c.minus(&one))
                }
            } else if c.is_ones() {
                Vec::new()
            } else {
                proof {
                    if bits::nat_of(cc) == m - 1 {
                        bits::lemma_nat_injective(cc, bits::ones(w as nat));
                    }
                    bits::lemma_fits(bits::nat_of(cc) as int + 1, w as nat);
                }
                just(c.plus(&one), max)
            }
        },
        CmpOp::Ule => {
            if first {
                just(zero, c.dup())
            } else {
                just(c.dup(), max)
            }
        },
        CmpOp::Slt => {
            if first {
                if c.same(&smin) {
                    Vec::new()
                } else {
                    proof {
                        lemma_dec_signed(cc, smin@);
                    }
                    signed_span(smin, c.minus(&one))
                }
            } else if c.same(&smax) {
                Vec::new()
            } else {
                proof {
                    lemma_inc_signed(cc, smax@);
                }
                signed_span(c.plus(&one), smax)
            }
        },
        CmpOp::Sle => {
            if first {
                signed_span(smin, c.dup())
            } else {
                signed_span(c.dup(), smax)
            }
        },
    };
    proof {
        assert forall|v: Seq<bool>| v.len() == w implies (#[trigger] intervals::within(
            r@,
            bits::nat_of(v) as int,
        ) <==> compared(op, v, cc, first)) by {
            bits::lemma_nat_bound(v);
            ops::lemma_sign(v);
        }
    }
    r
}

/// The least signed value.
pub proof fn lemma_smin(s: Seq<bool>)
    requires
        s.len() > 0,
        forall|i: int| 0 <= i < s.len() ==> s[i] == (i == s.len() - 1),
    ensures
        bits::nat_of(s) == pow2((s.len() - 1) as nat),
        bits::int_of(s) == -(pow2((s.len() - 1) as nat) as int),
        s.last(),
{
    let w = s.len();
    assert(s.drop_last() =~= bits::zeros((w - 1) as nat));
    bits::lemma_zeros_nat((w - 1) as nat);
    let p = pow2((w - 1) as nat);
    assert(1 * p == p);
    bits::lemma_pow2_step((w - 1) as nat);
}

/// The greatest signed value is the complement of the least.
pub proof fn lemma_smin_not(s: Seq<bool>, t: Seq<bool>)
    requires
        s.len() > 0,
        forall|i: int| 0 <= i < s.len() ==> s[i] == (i == s.len() - 1),
        t == ops::not_bits(s),
    ensures
        bits::nat_of(t) == pow2((s.len() - 1) as nat) - 1,
        bits::int_of(t) == pow2((s.len() - 1) as nat) - 1,
        !t.last(),
{
    lemma_smin(s);
    ops::lemma_not_nat(s);
    bits::lemma_pow2_step((s.len() - 1) as nat);
}

/// One less, signed.
proof fn lemma_dec_signed(c: Seq<bool>, smin: Seq<bool>)
    requires
        c.len() > 0,
        c.len() == smin.len(),
        c != smin,
        forall|i: int| 0 <= i < smin.len() ==> smin[i] == (i == smin.len() - 1),
    ensures
        ({
            let d = bits::bits_of(bits::nat_of(c) - 1, c.len());
            d.len() == c.len() && bits::int_of(d) == bits::int_of(c) - 1
        }),
{
    let w = c.len();
    let d = bits::bits_of(bits::nat_of(c) - 1, w);
    lemma_smin(smin);
    ops::lemma_sign(c);
    bits::lemma_nat_bound(c);
    if bits::nat_of(c) == bits::nat_of(smin) {
        bits::lemma_nat_injective(c, smin);
    }
    if bits::nat_of(c) == 0 {
        bits::lemma_nat_bits_of(-1, w);
        vstd::arithmetic::div_mod::lemma_mod_add_multiples_vanish(-1, pow2(w) as int);
        vstd::arithmetic::div_mod::lemma_small_mod((pow2(w) - 1) as nat, pow2(w));
    } else {
        bits::lemma_fits(bits::nat_of(c) - 1, w);
    }
    ops::lemma_sign(d);
}

/// One more, signed.
proof fn lemma_inc_signed(c: Seq<bool>, smax: Seq<bool>)
    requires
        c.len() > 0,
        c.len() == smax.len(),
        c != smax,
        bits::nat_of(smax) == pow2((c.len() - 1) as nat) - 1,
    ensures
        ({
            let d = bits::bits_of(bits::nat_of(c) as int + 1, c.len());
            d.len() == c.len() && bits::int_of(d) == bits::int_of(c) + 1
        }),
{
    let w = c.len();
    let d = bits::bits_of(bits::nat_of(c) as int + 1, w);
    ops::lemma_sign(c);
    bits::lemma_nat_bound(c);
    if bits::nat_of(c) == bits::nat_of(smax) {
        bits::lemma_nat_injective(c, smax);
    }
    if bits::nat_of(c) == pow2(w) - 1 {
        bits::lemma_nat_bits_of(pow2(w) as int, w);
        vstd::arithmetic::div_mod::lemma_mod_self_0(pow2(w) as int);
    } else {
        bits::lemma_fits(bits::nat_of(c) as int + 1, w);
    }
    ops::lemma_sign(d);
}

/// A function of one operand `t` under which the values of `t` sent into a set of intervals
/// form one.
pub enum Shape {
    /// `t + k`.
    Shift(BitVec),
    /// `k - t`.
    Reflect(BitVec),
    /// `t & (2^j - 1)`, fewer than all bits.
    Low(u16),
    /// `t | smin`.
    SetTop,
    /// Zero extension of `t`.
    Zext,
    /// Sign extension of `t`.
    Sext,
}

/// `x + y` modulo `m`.
pub open spec fn wrap_up(x: int, y: int, m: int) -> int {
    if x + y < m {
        x + y
    } else {
        x + y - m
    }
}

/// `x - y` modulo `m`.
pub open spec fn wrap_down(x: int, y: int, m: int) -> int {
    if x >= y {
        x - y
    } else {
        x - y + m
    }
}

/// What the function sends `x` (of width `tw`) to (at width `w`).
pub open spec fn image(s: Shape, x: int, w: nat, tw: nat) -> int {
    match s {
        Shape::Shift(k) => wrap_up(x, bits::nat_of(k@) as int, pow2(w) as int),
        Shape::Reflect(k) => wrap_down(bits::nat_of(k@) as int, x, pow2(w) as int),
        Shape::Low(j) => x % (pow2(j as nat) as int),
        Shape::SetTop => if x >= pow2((w - 1) as nat) {
            x
        } else {
            x + pow2((w - 1) as nat)
        },
        Shape::Zext => x,
        Shape::Sext => if x >= pow2((tw - 1) as nat) {
            x + pow2(w) - pow2(tw)
        } else {
            x
        },
    }
}

/// The widths fit the function.
pub open spec fn shape_fits(s: Shape, w: nat, tw: nat) -> bool {
    &&& 0 < tw <= w
    &&& w <= MAX_WIDTH
    &&& match s {
        Shape::Shift(k) => k@.len() == w && tw == w,
        Shape::Reflect(k) => k@.len() == w && tw == w,
        Shape::Low(j) => 0 < j < w && tw == w,
        Shape::SetTop => tw == w,
        Shape::Zext => true,
        Shape::Sext => true,
    }
}

/// Node `e` is the function of node `t`.
pub open(crate) spec fn peels(cx: &Context, e: u32, t: u32, s: Shape) -> bool {
    &&& t < cx.n()
    &&& shape_fits(s, cx.w(e as int), cx.w(t as int))
    &&& forall|env: Env| #[trigger]
        bits::nat_of(cx.val(e as int, env)) == image(
            s,
            bits::nat_of(cx.val(t as int, env)) as int,
            cx.w(e as int),
            cx.w(t as int),
        )
}

/// A sum of two values wraps once at most.
pub proof fn lemma_wrap(x: Seq<bool>, y: Seq<bool>)
    requires
        x.len() == y.len(),
    ensures
        bits::nat_of(bits::bits_of((bits::nat_of(x) + bits::nat_of(y)) as int, x.len())) == wrap_up(
            bits::nat_of(x) as int,
            bits::nat_of(y) as int,
            pow2(x.len()) as int,
        ),
        bits::nat_of(bits::bits_of(bits::nat_of(x) - bits::nat_of(y), x.len())) == wrap_down(
            bits::nat_of(x) as int,
            bits::nat_of(y) as int,
            pow2(x.len()) as int,
        ),
{
    let a = bits::nat_of(x) as int;
    let b = bits::nat_of(y) as int;
    let m = pow2(x.len()) as int;
    bits::lemma_nat_bound(x);
    bits::lemma_nat_bound(y);
    bits::lemma_nat_bits_of(a + b, x.len());
    bits::lemma_nat_bits_of(a - b, x.len());
    if a + b < m {
        vstd::arithmetic::div_mod::lemma_small_mod((a + b) as nat, m as nat);
    } else {
        vstd::arithmetic::div_mod::lemma_mod_sub_multiples_vanish(a + b, m);
        vstd::arithmetic::div_mod::lemma_small_mod((a + b - m) as nat, m as nat);
    }
    if a >= b {
        vstd::arithmetic::div_mod::lemma_small_mod((a - b) as nat, m as nat);
    } else {
        vstd::arithmetic::div_mod::lemma_mod_add_multiples_vanish(a - b, m);
        vstd::arithmetic::div_mod::lemma_small_mod((a - b + m) as nat, m as nat);
    }
}

/// Setting or flipping the top bit.
proof fn lemma_top(x: Seq<bool>, s: Seq<bool>)
    requires
        x.len() == s.len(),
        x.len() > 0,
        forall|i: int| 0 <= i < s.len() ==> s[i] == (i == s.len() - 1),
    ensures
        bits::nat_of(ops::xor_bits(x, s)) == wrap_up(
            bits::nat_of(x) as int,
            bits::nat_of(s) as int,
            pow2(x.len()) as int,
        ),
        bits::nat_of(ops::or_bits(x, s)) == (if bits::nat_of(x) >= pow2((x.len() - 1) as nat) {
            bits::nat_of(x)
        } else {
            bits::nat_of(x) + pow2((x.len() - 1) as nat)
        }),
{
    lemma_smin(s);
    ops::lemma_sign(x);
    let d = x.drop_last();
    assert(ops::xor_bits(x, s).drop_last() =~= d);
    assert(ops::or_bits(x, s).drop_last() =~= d);
    let p = pow2((x.len() - 1) as nat);
    assert(1 * p == p && 0 * p == 0);
    bits::lemma_nat_bound(d);
}

/// Masking all but the low bits.
proof fn lemma_mask(x: Seq<bool>, k: Seq<bool>, j: nat)
    requires
        x.len() == k.len(),
        j <= x.len(),
        forall|i: int| 0 <= i < k.len() ==> k[i] == (i < j),
    ensures
        bits::nat_of(ops::and_bits(x, k)) == bits::nat_of(x) % pow2(j),
{
    let r = ops::and_bits(x, k);
    let z = bits::zeros((x.len() - j) as nat);
    assert(r =~= x.take(j as int) + z);
    bits::lemma_nat_concat(x.take(j as int), z);
    bits::lemma_zeros_nat((x.len() - j) as nat);
    assert(pow2(j) * 0 == 0);
    bits::lemma_nat_take(x, j as int);
}

/// How many low bits `k` masks, if it is a mask of some low bits but not all.
fn low_mask(k: &BitVec) -> (r: Option<u16>)
    requires
        0 < k@.len() <= MAX_WIDTH,
    ensures
        r matches Some(j) ==> 0 < j < k@.len() && forall|i: int|
            0 <= i < k@.len() ==> #[trigger] k@[i] == (i < j),
{
    let w = k.len();
    let mut j: usize = 0;
    while j < w && k.at(j)
        invariant
            w == k@.len(),
            j <= w,
            forall|i: int| 0 <= i < j ==> #[trigger] k@[i],
        decreases w - j,
    {
        j = j + 1;
    }
    let mut i: usize = j;
    while i < w
        invariant
            w == k@.len(),
            j <= i <= w,
            j < w ==> !k@[j as int],
            forall|q: int| 0 <= q < j ==> #[trigger] k@[q],
            forall|q: int| j <= q < i ==> !(#[trigger] k@[q]),
        decreases w - i,
    {
        if k.at(i) {
            return None;
        }
        i = i + 1;
    }
    if j == 0 || j == w {
        return None;
    }
    Some(j as u16)
}

/// The operand node `e` is a function of, and the function.
pub(crate) fn peel(cx: &Context, e: u32) -> (r: Option<(u32, Shape)>)
    requires
        cx.wf(),
        e < cx.n(),
    ensures
        r matches Some((t, s)) ==> peels(cx, e, t, s) && t < e,
{
    let w = cx.wid(e) as usize;
    let zero = BitVec::fill(w, false);
    let max = BitVec::fill(w, true);
    let smin = BitVec::fill(1, true).concat(&BitVec::fill(w - 1, false));
    proof {
        assert(zero@ =~= bits::zeros(w as nat));
        assert(max@ =~= bits::ones(w as nat));
        bits::lemma_zeros_nat(w as nat);
        bits::lemma_ones_nat(w as nat);
        lemma_smin(smin@);
    }
    match cx.node(e) {
        Node::Un(op, a) => {
            proof {
                assert(cx.ok_at(a as int));
            }
            if op == UnOp::Neg {
                proof {
                    assert forall|env: Env| #[trigger] bits::nat_of(cx.val(e as int, env)) == wrap_down(
                        0,
                        bits::nat_of(cx.val(a as int, env)) as int,
                        pow2(w as nat) as int,
                    ) by {
                        lemma_wrap(bits::zeros(w as nat), cx.val(a as int, env));
                    }
                }
                Some((a, Shape::Reflect(zero)))
            } else if op == UnOp::Not {
                proof {
                    assert forall|env: Env| #[trigger] bits::nat_of(cx.val(e as int, env)) == wrap_down(
                        pow2(w as nat) - 1,
                        bits::nat_of(cx.val(a as int, env)) as int,
                        pow2(w as nat) as int,
                    ) by {
                        ops::lemma_not_nat(cx.val(a as int, env));
                        bits::lemma_nat_bound(cx.val(a as int, env));
                    }
                }
                Some((a, Shape::Reflect(max)))
            } else {
                None
            }
        },
        Node::Zext(a) => {
            proof {
                assert(cx.ok_at(a as int));
                assert forall|env: Env| #[trigger] bits::nat_of(cx.val(e as int, env)) == bits::nat_of(
                    cx.val(a as int, env),
                ) by {
                    let v = cx.val(a as int, env);
                    let z = bits::zeros((w - v.len()) as nat);
                    assert(cx.val(e as int, env) =~= v + z);
                    bits::lemma_nat_concat(v, z);
                    bits::lemma_zeros_nat((w - v.len()) as nat);
                    assert(pow2(v.len()) * 0 == 0);
                }
            }
            Some((a, Shape::Zext))
        },
        Node::Sext(a) => {
            proof {
                assert(cx.ok_at(a as int));
                let tw = cx.w(a as int);
                assert forall|env: Env| #[trigger] bits::nat_of(cx.val(e as int, env)) == image(
                    Shape::Sext,
                    bits::nat_of(cx.val(a as int, env)) as int,
                    w as nat,
                    tw,
                ) by {
                    let v = cx.val(a as int, env);
                    let n = (w - v.len()) as nat;
                    let z = if v.last() {
                        bits::ones(n)
                    } else {
                        bits::zeros(n)
                    };
                    assert(cx.val(e as int, env) =~= v + z);
                    bits::lemma_nat_concat(v, z);
                    bits::lemma_zeros_nat(n);
                    bits::lemma_ones_nat(n);
                    bits::lemma_pow2_sum(v.len(), n);
                    ops::lemma_sign(v);
                    let p = pow2(v.len());
                    let q = pow2(n);
                    assert(p * 0 == 0);
                    assert(p * (q - 1) == p * q - p) by (nonlinear_arith);
                }
            }
            Some((a, Shape::Sext))
        },
        Node::Bin(op, a, b) => {
            proof {
                assert(cx.ok_at(a as int));
                assert(cx.ok_at(b as int));
            }
            if op != BinOp::Add && op != BinOp::Sub && op != BinOp::Xor && op != BinOp::And && op
                != BinOp::Or {
                return None;
            }
            let (t, k, k_first) = match (cx.const_val(a), cx.const_val(b)) {
                (None, Some(k)) => (a, k, false),
                (Some(k), None) => (b, k, true),
                _ => {
                    return None;
                },
            };
            let ghost kk = k@;
            proof {
                bits::lemma_nat_bound(kk);
                assert forall|env: Env| #[trigger] bits::nat_of(cx.val(e as int, env))
                    == bits::nat_of(
                    if k_first {
                        ops::bin_value(op, kk, cx.val(t as int, env))
                    } else {
                        ops::bin_value(op, cx.val(t as int, env), kk)
                    },
                ) by {
                    if k_first {
                        assert(cx.val(a as int, env) == kk);
                    } else {
                        assert(cx.val(b as int, env) == kk);
                    }
                }
                assert forall|env: Env|
                    #![trigger cx.val(t as int, env)]
                    k_first && op != BinOp::Sub implies ops::bin_value(
                    op,
                    kk,
                    cx.val(t as int, env),
                ) == ops::bin_value(op, cx.val(t as int, env), kk) by {
                    ops::lemma_commutes(op, kk, cx.val(t as int, env));
                }
            }
            match op {
                BinOp::Add => {
                    proof {
                        assert forall|env: Env| #[trigger] bits::nat_of(cx.val(e as int, env))
                            == wrap_up(
                            bits::nat_of(cx.val(t as int, env)) as int,
                            bits::nat_of(kk) as int,
                            pow2(w as nat) as int,
                        ) by {
                            lemma_wrap(cx.val(t as int, env), kk);
                        }
                    }
                    Some((t, Shape::Shift(k)))
                },
                BinOp::Sub => {
                    if k_first {
                        proof {
                            assert forall|env: Env| #[trigger] bits::nat_of(cx.val(e as int, env))
                                == wrap_down(
                                bits::nat_of(kk) as int,
                                bits::nat_of(cx.val(t as int, env)) as int,
                                pow2(w as nat) as int,
                            ) by {
                                lemma_wrap(kk, cx.val(t as int, env));
                            }
                        }
                        Some((t, Shape::Reflect(k)))
                    } else {
                        let nk = k.neg();
                        proof {
                            lemma_wrap(bits::zeros(w as nat), kk);
                            assert forall|env: Env| #[trigger] bits::nat_of(cx.val(e as int, env))
                                == wrap_up(
                                bits::nat_of(cx.val(t as int, env)) as int,
                                bits::nat_of(nk@) as int,
                                pow2(w as nat) as int,
                            ) by {
                                lemma_wrap(cx.val(t as int, env), kk);
                                bits::lemma_nat_bound(cx.val(t as int, env));
                            }
                        }
                        Some((t, Shape::Shift(nk)))
                    }
                },
                BinOp::Xor => {
                    if k.same(&smin) {
                        proof {
                            assert forall|env: Env| #[trigger] bits::nat_of(cx.val(e as int, env))
                                == wrap_up(
                                bits::nat_of(cx.val(t as int, env)) as int,
                                bits::nat_of(kk) as int,
                                pow2(w as nat) as int,
                            ) by {
                                let _ = cx.val(t as int, env);
                                lemma_top(cx.val(t as int, env), kk);
                            }
                        }
                        Some((t, Shape::Shift(k)))
                    } else if k.is_ones() {
                        proof {
                            assert forall|env: Env| #[trigger] bits::nat_of(cx.val(e as int, env))
                                == wrap_down(
                                bits::nat_of(kk) as int,
                                bits::nat_of(cx.val(t as int, env)) as int,
                                pow2(w as nat) as int,
                            ) by {
                                let v = cx.val(t as int, env);
                                algebra::lemma_xor_ones(v);
                                ops::lemma_not_nat(v);
                                bits::lemma_nat_bound(v);
                            }
                        }
                        Some((t, Shape::Reflect(k)))
                    } else {
                        None
                    }
                },
                BinOp::And => {
                    match low_mask(&k) {
                        Some(j) => {
                            proof {
                                assert forall|env: Env| #[trigger] bits::nat_of(
                                    cx.val(e as int, env),
                                ) == bits::nat_of(cx.val(t as int, env)) as int % (pow2(
                                    j as nat,
                                ) as int) by {
                                    let _ = cx.val(t as int, env);
                                    lemma_mask(cx.val(t as int, env), kk, j as nat);
                                }
                            }
                            Some((t, Shape::Low(j)))
                        },
                        None => None,
                    }
                },
                _ => {
                    if k.same(&smin) {
                        proof {
                            assert forall|env: Env| #[trigger] bits::nat_of(cx.val(e as int, env))
                                == image(
                                Shape::SetTop,
                                bits::nat_of(cx.val(t as int, env)) as int,
                                w as nat,
                                w as nat,
                            ) by {
                                let _ = cx.val(t as int, env);
                                lemma_top(cx.val(t as int, env), kk);
                            }
                        }
                        Some((t, Shape::SetTop))
                    } else {
                        None
                    }
                },
            }
        },
        _ => None,
    }
}

/// Adds each span, less `k`.
fn push_less(out: &mut Vec<Span>, s: &Vec<Span>, k: &BitVec)
    requires
        k@.len() <= MAX_WIDTH,
        intervals::wide(s@, k@.len()),
        intervals::wide(old(out)@, k@.len()),
        forall|i: int|
            #![trigger s@[i]]
            0 <= i < s@.len() ==> intervals::low_end(s@[i]) >= bits::nat_of(k@),
    ensures
        intervals::wide(final(out)@, k@.len()),
        forall|x: int|
            0 <= x ==> (#[trigger] intervals::within(final(out)@, x) <==> intervals::within(
                old(out)@,
                x,
            ) || intervals::within(s@, x + bits::nat_of(k@))),
{
    let ghost o0 = out@;
    let ghost w = k@.len();
    let ghost c = bits::nat_of(k@) as int;
    let mut i: usize = 0;
    proof {
        assert(s@.take(0) =~= Seq::empty());
    }
    while i < s.len()
        invariant
            k@.len() == w,
            w <= MAX_WIDTH,
            c == bits::nat_of(k@),
            intervals::wide(s@, w),
            intervals::wide(out@, w),
            i <= s@.len(),
            forall|i: int|
                #![trigger s@[i]]
                0 <= i < s@.len() ==> intervals::low_end(s@[i]) >= bits::nat_of(k@),
            forall|x: int|
                0 <= x ==> (#[trigger] intervals::within(out@, x) <==> intervals::within(o0, x)
                    || intervals::within(s@.take(i as int), x + c)),
        decreases s@.len() - i,
    {
        let ghost o1 = out@;
        let lo = s[i].lo.minus(k);
        let hi = s[i].hi.minus(k);
        proof {
            let p = s@[i as int];
            lemma_wrap(p.lo@, k@);
            lemma_wrap(p.hi@, k@);
            assert(s@.take(i + 1) =~= s@.take(i as int).push(p));
            intervals::lemma_within_push(s@.take(i as int), p);
        }
        out.push(Span { lo, hi });
        proof {
            let q = out@[out@.len() - 1];
            intervals::lemma_within_push(o1, q);
            assert(out@ =~= o1.push(q));
            assert forall|x: int| 0 <= x implies (#[trigger] intervals::within(out@, x)
                <==> intervals::within(o0, x) || intervals::within(s@.take(i + 1), x + c)) by {
                let _ = intervals::within(o1, x);
                let _ = intervals::within(s@.take(i as int), x + c);
            }
        }
        i = i + 1;
    }
    assert(s@.take(s@.len() as int) =~= s@);
}

/// Adds each span, cut to `tw` bits.
fn push_cut(out: &mut Vec<Span>, s: &Vec<Span>, tw: usize, w: Ghost<nat>, off: Ghost<int>)
    requires
        0 < tw <= w@,
        intervals::wide(s@, w@),
        intervals::wide(old(out)@, tw as nat),
        off@ % (pow2(tw as nat) as int) == 0,
        forall|i: int|
            #![trigger s@[i]]
            0 <= i < s@.len() ==> off@ <= intervals::low_end(s@[i]) && intervals::high_end(s@[i])
                < off@ + pow2(tw as nat),
    ensures
        intervals::wide(final(out)@, tw as nat),
        forall|x: int|
            0 <= x < pow2(tw as nat) ==> (#[trigger] intervals::within(final(out)@, x)
                <==> intervals::within(old(out)@, x) || intervals::within(s@, x + off@)),
{
    let ghost o0 = out@;
    let ghost m = pow2(tw as nat) as int;
    let mut i: usize = 0;
    proof {
        assert(s@.take(0) =~= Seq::empty());
    }
    while i < s.len()
        invariant
            0 < tw <= w@,
            m == pow2(tw as nat),
            off@ % m == 0,
            intervals::wide(s@, w@),
            intervals::wide(out@, tw as nat),
            i <= s@.len(),
            forall|i: int|
                #![trigger s@[i]]
                0 <= i < s@.len() ==> off@ <= intervals::low_end(s@[i]) && intervals::high_end(
                    s@[i],
                ) < off@ + m,
            forall|x: int|
                0 <= x < m ==> (#[trigger] intervals::within(out@, x) <==> intervals::within(o0, x)
                    || intervals::within(s@.take(i as int), x + off@)),
        decreases s@.len() - i,
    {
        let ghost o1 = out@;
        let lo = s[i].lo.extract(0, tw);
        let hi = s[i].hi.extract(0, tw);
        proof {
            let p = s@[i as int];
            assert(p.lo@.take(tw as int) =~= p.lo@.subrange(0, tw as int));
            assert(p.hi@.take(tw as int) =~= p.hi@.subrange(0, tw as int));
            bits::lemma_nat_take(p.lo@, tw as int);
            bits::lemma_nat_take(p.hi@, tw as int);
            lemma_past(intervals::low_end(p) as int, off@, m);
            lemma_past(intervals::high_end(p) as int, off@, m);
            assert(s@.take(i + 1) =~= s@.take(i as int).push(p));
            intervals::lemma_within_push(s@.take(i as int), p);
        }
        out.push(Span { lo, hi });
        proof {
            let q = out@[out@.len() - 1];
            intervals::lemma_within_push(o1, q);
            assert(out@ =~= o1.push(q));
            assert forall|x: int| 0 <= x < m implies (#[trigger] intervals::within(out@, x)
                <==> intervals::within(o0, x) || intervals::within(s@.take(i + 1), x + off@)) by {
                let _ = intervals::within(o1, x);
                let _ = intervals::within(s@.take(i as int), x + off@);
            }
        }
        i = i + 1;
    }
    assert(s@.take(s@.len() as int) =~= s@);
}

/// The remainder of a number past a multiple.
proof fn lemma_past(v: int, off: int, m: int)
    requires
        m > 0,
        off % m == 0,
        off <= v < off + m,
    ensures
        v % m == v - off,
{
    vstd::arithmetic::div_mod::lemma_fundamental_div_mod(off, m);
    vstd::arithmetic::mul::lemma_mul_is_commutative(m, off / m);
    vstd::arithmetic::div_mod::lemma_fundamental_div_mod_converse(v, m, off / m, v - off);
}

/// Ends of spans are in the set.
proof fn lemma_ends(s: Seq<Span>, w: nat, i: int)
    requires
        intervals::wide(s, w),
        0 <= i < s.len(),
    ensures
        intervals::within(s, intervals::low_end(s[i]) as int),
        intervals::within(s, intervals::high_end(s[i]) as int),
{
}

/// The values of `t` whose low `j` bits are in the set, unless that takes more intervals than
/// are kept.
fn low_preimage(s: &Vec<Span>, w: usize, j: usize) -> (r: Option<Vec<Span>>)
    requires
        0 < j < w <= MAX_WIDTH,
        intervals::spans_ok(s@, w as nat),
    ensures
        r matches Some(out) ==> intervals::wide(out@, w as nat) && forall|x: int|
            0 <= x < pow2(w as nat) ==> (#[trigger] intervals::within(out@, x)
                <==> intervals::within(s@, x % (pow2(j as nat) as int))),
{
    let ghost p = pow2(j as nat) as int;
    let ghost m = pow2(w as nat) as int;
    // `2^j` and one less.
    let step = BitVec::fill(1, true).concat(&BitVec::fill(j, false)).zext(w);
    let mask = BitVec::fill(j, true).zext(w);
    let zero = BitVec::fill(w, false);
    proof {
        vstd::arithmetic::power2::lemma_pow2_pos(j as nat);
        bits::lemma_pow2_le(j as nat, w as nat);
        lemma_powers(step@, mask@, j as nat);
        assert(zero@ =~= bits::zeros(w as nat));
        bits::lemma_zeros_nat(w as nat);
    }
    let part = just(zero.dup(), mask.dup());
    let low = intersect(s, &part, Ghost(w as nat));
    proof {
        assert forall|i: int| #![trigger low@[i]] 0 <= i < low@.len() implies intervals::high_end(
            low@[i],
        ) < p by {
            lemma_ends(low@, w as nat, i);
        }
        assert forall|x: int| 0 <= x < p implies (#[trigger] intervals::within(low@, x)
            <==> intervals::within(s@, x)) by {}
    }
    if low.len() == 0 {
        let out: Vec<Span> = Vec::new();
        proof {
            assert forall|x: int| 0 <= x < m implies (#[trigger] intervals::within(out@, x)
                <==> intervals::within(s@, x % p)) by {
                vstd::arithmetic::div_mod::lemma_mod_bound(x, p);
                assert(!intervals::within(low@, x % p));
            }
        }
        return Some(out);
    }
    if low.len() == 1 && low[0].lo.is_zero() && low[0].hi.same(&mask) {
        let out = full(w);
        proof {
            assert forall|x: int| 0 <= x < m implies (#[trigger] intervals::within(out@, x)
                <==> intervals::within(s@, x % p)) by {
                vstd::arithmetic::div_mod::lemma_mod_bound(x, p);
                assert(intervals::within(low@, x % p)) by {
                    assert(intervals::low_end(low@[0]) <= x % p <= intervals::high_end(low@[0]));
                }
            }
        }
        return Some(out);
    }
    // One copy of `low` for every value of the bits the mask clears.
    if w - j > 3 {
        return None;
    }
    let copies: usize = if w - j == 1 {
        2
    } else if w - j == 2 {
        4
    } else {
        8
    };
    if low.len() > MAX_INTERVALS {
        return None;
    }
    assert(copies * low@.len() <= 64) by (nonlinear_arith)
        requires
            copies <= 8,
            low@.len() <= 8,
    ;
    if copies * low.len() > MAX_INTERVALS {
        return None;
    }
    proof {
        bits::lemma_pow2_sum((w - j) as nat, j as nat);
        vstd::arithmetic::power2::lemma2_to64();
        assert(m == copies * p);
    }
    let mut out: Vec<Span> = Vec::new();
    let mut base = zero;
    let mut c: usize = 0;
    proof {
        assert(0 * p == 0);
    }
    while c < copies
        invariant
            0 < j < w <= MAX_WIDTH,
            p == pow2(j as nat),
            p > 0,
            m == pow2(w as nat),
            m == copies * p,
            copies <= 8,
            c <= copies,
            step@.len() == w,
            bits::nat_of(step@) == p,
            base@.len() == w,
            c < copies ==> bits::nat_of(base@) == c * p,
            intervals::spans_ok(low@, w as nat),
            forall|i: int|
                #![trigger low@[i]]
                0 <= i < low@.len() ==> intervals::high_end(low@[i]) < p,
            intervals::wide(out@, w as nat),
            forall|x: int|
                0 <= x ==> (#[trigger] intervals::within(out@, x) <==> x < c * p
                    && intervals::within(low@, x % p)),
        decreases copies - c,
    {
        let ghost o0 = out@;
        let ghost off = (c * p) as int;
        proof {
            assert((c + 1) * p == c * p + p) by (nonlinear_arith);
            assert((c + 1) * p <= copies * p) by (nonlinear_arith)
                requires
                    c + 1 <= copies,
                    p > 0,
            ;
            assert(low@.take(0) =~= Seq::empty());
        }
        let mut i: usize = 0;
        while i < low.len()
            invariant
                p > 0,
                w <= MAX_WIDTH,
                off + p <= m,
                off >= 0,
                m == pow2(w as nat),
                base@.len() == w,
                bits::nat_of(base@) == off,
                intervals::spans_ok(low@, w as nat),
                forall|i: int|
                    #![trigger low@[i]]
                    0 <= i < low@.len() ==> intervals::high_end(low@[i]) < p,
                i <= low@.len(),
                intervals::wide(out@, w as nat),
                forall|x: int|
                    0 <= x ==> (#[trigger] intervals::within(out@, x) <==> intervals::within(o0, x)
                        || intervals::within(low@.take(i as int), x - off)),
            decreases low@.len() - i,
        {
            let ghost o1 = out@;
            let lo = low[i].lo.plus(&base);
            let hi = low[i].hi.plus(&base);
            proof {
                let q = low@[i as int];
                lemma_wrap(q.lo@, base@);
                lemma_wrap(q.hi@, base@);
                assert(low@.take(i + 1) =~= low@.take(i as int).push(q));
                intervals::lemma_within_push(low@.take(i as int), q);
            }
            out.push(Span { lo, hi });
            proof {
                let q = out@[out@.len() - 1];
                intervals::lemma_within_push(o1, q);
                assert(out@ =~= o1.push(q));
                assert forall|x: int| 0 <= x implies (#[trigger] intervals::within(out@, x)
                    <==> intervals::within(o0, x) || intervals::within(
                    low@.take(i + 1),
                    x - off,
                )) by {
                    let _ = intervals::within(o1, x);
                    let _ = intervals::within(low@.take(i as int), x - off);
                }
            }
            i = i + 1;
        }
        proof {
            assert(low@.take(low@.len() as int) =~= low@);
            assert forall|x: int| 0 <= x implies (#[trigger] intervals::within(out@, x) <==> x < (c
                + 1) * p && intervals::within(low@, x % p)) by {
                let _ = intervals::within(o0, x);
                if off <= x < off + p {
                    vstd::arithmetic::div_mod::lemma_fundamental_div_mod_converse(
                        x,
                        p,
                        c as int,
                        x - off,
                    );
                } else if intervals::within(low@, x - off) {
                    let k = choose|k: int|
                        0 <= k < low@.len() && intervals::low_end(#[trigger] low@[k]) <= x - off
                            <= intervals::high_end(low@[k]);
                    let _ = low@[k];
                }
            }
            lemma_wrap(base@, step@);
        }
        base = base.plus(&step);
        c = c + 1;
        proof {
            if c < copies {
                assert((c + 1) * p <= copies * p) by (nonlinear_arith)
                    requires
                        c + 1 <= copies,
                        p > 0,
                ;
                assert((c + 1) * p == c * p + p) by (nonlinear_arith);
            }
        }
    }
    proof {
        assert forall|x: int| 0 <= x < m implies (#[trigger] intervals::within(out@, x)
            <==> intervals::within(s@, x % p)) by {
            vstd::arithmetic::div_mod::lemma_mod_bound(x, p);
            let _ = intervals::within(low@, x % p);
        }
    }
    Some(out)
}

/// `2^j` and one less, as values.
proof fn lemma_powers(step: Seq<bool>, mask: Seq<bool>, j: nat)
    requires
        step.len() == mask.len(),
        j < step.len(),
        forall|i: int| 0 <= i < step.len() ==> #[trigger] step[i] == (i == j),
        forall|i: int| 0 <= i < mask.len() ==> #[trigger] mask[i] == (i < j),
    ensures
        bits::nat_of(step) == pow2(j),
        bits::nat_of(mask) == pow2(j) - 1,
{
    let w = step.len();
    let hi = bits::zeros((w - j) as nat);
    assert(mask =~= bits::ones(j) + hi);
    bits::lemma_nat_concat(bits::ones(j), hi);
    bits::lemma_ones_nat(j);
    bits::lemma_zeros_nat((w - j) as nat);
    assert(pow2(j) * 0 == 0);
    let h2 = bits::zeros((w - j - 1) as nat);
    let l2 = bits::zeros(j).push(true);
    assert(step =~= l2 + h2);
    bits::lemma_nat_concat(l2, h2);
    bits::lemma_zeros_nat((w - j - 1) as nat);
    bits::lemma_zeros_nat(j);
    bits::lemma_nat_push(bits::zeros(j), true);
    assert(pow2(l2.len()) * 0 == 0);
    assert(1 * pow2(j) == pow2(j));
}

/// The values of `t` (width `tw`) that the function sends into the set (at width `w`), unless
/// that takes more intervals than are kept.
pub fn preimage(shape: &Shape, s: &Vec<Span>, w: usize, tw: usize) -> (r: Option<Vec<Span>>)
    requires
        shape_fits(*shape, w as nat, tw as nat),
        intervals::spans_ok(s@, w as nat),
    ensures
        r matches Some(out) ==> intervals::spans_ok(out@, tw as nat) && out@.len() <= MAX_INTERVALS
            && forall|x: int|
            0 <= x < pow2(tw as nat) ==> (#[trigger] intervals::within(out@, x)
                <==> intervals::within(s@, image(*shape, x, w as nat, tw as nat))),
        // Only a set of more intervals is declined (or, of low bits, one whose copies are many).
        r is None && !(*shape is Low) ==> forall|t: Seq<Span>| #[trigger]
            intervals::spans_ok(t, tw as nat) && (forall|x: int|
                0 <= x < pow2(tw as nat) ==> (#[trigger] intervals::within(t, x)
                    <==> intervals::within(s@, image(*shape, x, w as nat, tw as nat)))) ==> t.len()
                > MAX_INTERVALS,
{
    let ghost m = pow2(w as nat) as int;
    let ghost tm = pow2(tw as nat) as int;
    let mut out: Vec<Span> = Vec::new();
    proof {
        vstd::arithmetic::power2::lemma_pow2_pos(w as nat);
        bits::lemma_pow2_le(tw as nat, w as nat);
        assert forall|x: int| !(#[trigger] intervals::within(Seq::<Span>::empty(), x)) by {}
    }
    match shape {
        Shape::Shift(k) => {
            let mut i: usize = 0;
            proof {
                assert(s@.take(0) =~= Seq::empty());
                bits::lemma_nat_bound(k@);
            }
            while i < s.len()
                invariant
                    k@.len() == w,
                    0 < w <= MAX_WIDTH,
                    m == pow2(w as nat),
                    bits::nat_of(k@) < m,
                    intervals::wide(s@, w as nat),
                    intervals::wide(out@, w as nat),
                    i <= s@.len(),
                    forall|x: int|
                        0 <= x < m ==> (#[trigger] intervals::within(out@, x)
                            <==> intervals::within(
                            s@.take(i as int),
                            wrap_up(x, bits::nat_of(k@) as int, m),
                        )),
                decreases s@.len() - i,
            {
                let ghost o0 = out@;
                let lo = s[i].lo.minus(k);
                let hi = s[i].hi.minus(k);
                proof {
                    let p = s@[i as int];
                    lemma_wrap(p.lo@, k@);
                    lemma_wrap(p.hi@, k@);
                    bits::lemma_nat_bound(p.lo@);
                    bits::lemma_nat_bound(p.hi@);
                    assert(s@.take(i + 1) =~= s@.take(i as int).push(p));
                    intervals::lemma_within_push(s@.take(i as int), p);
                }
                push_cyclic(&mut out, lo, hi);
                proof {
                    assert forall|x: int| 0 <= x < m implies (#[trigger] intervals::within(out@, x)
                        <==> intervals::within(
                        s@.take(i + 1),
                        wrap_up(x, bits::nat_of(k@) as int, m),
                    )) by {
                        let _ = intervals::within(o0, x);
                        let _ = intervals::within(
                            s@.take(i as int),
                            wrap_up(x, bits::nat_of(k@) as int, m),
                        );
                    }
                }
                i = i + 1;
            }
            assert(s@.take(s@.len() as int) =~= s@);
        },
        Shape::Reflect(k) => {
            let mut i: usize = 0;
            proof {
                assert(s@.take(0) =~= Seq::empty());
                bits::lemma_nat_bound(k@);
            }
            while i < s.len()
                invariant
                    k@.len() == w,
                    0 < w <= MAX_WIDTH,
                    m == pow2(w as nat),
                    bits::nat_of(k@) < m,
                    intervals::wide(s@, w as nat),
                    intervals::wide(out@, w as nat),
                    i <= s@.len(),
                    forall|x: int|
                        0 <= x < m ==> (#[trigger] intervals::within(out@, x)
                            <==> intervals::within(
                            s@.take(i as int),
                            wrap_down(bits::nat_of(k@) as int, x, m),
                        )),
                decreases s@.len() - i,
            {
                let ghost o0 = out@;
                let lo = k.minus(&s[i].hi);
                let hi = k.minus(&s[i].lo);
                proof {
                    let p = s@[i as int];
                    lemma_wrap(k@, p.lo@);
                    lemma_wrap(k@, p.hi@);
                    bits::lemma_nat_bound(p.lo@);
                    bits::lemma_nat_bound(p.hi@);
                    assert(s@.take(i + 1) =~= s@.take(i as int).push(p));
                    intervals::lemma_within_push(s@.take(i as int), p);
                }
                push_cyclic(&mut out, lo, hi);
                proof {
                    assert forall|x: int| 0 <= x < m implies (#[trigger] intervals::within(out@, x)
                        <==> intervals::within(
                        s@.take(i + 1),
                        wrap_down(bits::nat_of(k@) as int, x, m),
                    )) by {
                        let _ = intervals::within(o0, x);
                        let _ = intervals::within(
                            s@.take(i as int),
                            wrap_down(bits::nat_of(k@) as int, x, m),
                        );
                    }
                }
                i = i + 1;
            }
            assert(s@.take(s@.len() as int) =~= s@);
        },
        Shape::Low(j) => {
            match low_preimage(s, w, *j as usize) {
                Some(o) => {
                    out = o;
                },
                None => {
                    return None;
                },
            }
        },
        Shape::SetTop => {
            let smin = BitVec::fill(1, true).concat(&BitVec::fill(w - 1, false));
            let max = BitVec::fill(w, true);
            proof {
                assert(max@ =~= bits::ones(w as nat));
                bits::lemma_ones_nat(w as nat);
                lemma_smin(smin@);
                bits::lemma_pow2_step((w - 1) as nat);
                bits::lemma_nat_bound(smin@);
            }
            let part = just(smin.dup(), max);
            let top = intersect(s, &part, Ghost(w as nat));
            proof {
                assert forall|i: int| #![trigger top@[i]] 0 <= i < top@.len() implies intervals::low_end(
                    top@[i],
                ) >= bits::nat_of(smin@) by {
                    lemma_ends(top@, w as nat, i);
                }
            }
            push_less(&mut out, &top, &smin);
            let ghost o1 = out@;
            let z = BitVec::fill(w, false);
            proof {
                assert(z@ =~= bits::zeros(w as nat));
                bits::lemma_zeros_nat(w as nat);
            }
            push_less(&mut out, &top, &z);
            proof {
                assert forall|x: int| 0 <= x < tm implies (#[trigger] intervals::within(out@, x)
                    <==> intervals::within(s@, image(*shape, x, w as nat, tw as nat))) by {
                    let _ = intervals::within(o1, x);
                    let _ = intervals::within(top@, x);
                    let _ = intervals::within(top@, x + bits::nat_of(smin@));
                    let _ = intervals::within(part@, x);
                    let _ = intervals::within(part@, x + bits::nat_of(smin@));
                }
            }
        },
        Shape::Zext => {
            let zero = BitVec::fill(w, false);
            let max = BitVec::fill(tw, true).zext(w);
            proof {
                assert(zero@ =~= bits::zeros(w as nat));
                bits::lemma_zeros_nat(w as nat);
                lemma_ones_wide(max@, tw as nat);
            }
            let part = just(zero, max);
            let low = intersect(s, &part, Ghost(w as nat));
            proof {
                assert forall|i: int| #![trigger low@[i]] 0 <= i < low@.len() implies 0
                    <= intervals::low_end(low@[i]) && intervals::high_end(low@[i]) < 0 + tm by {
                    lemma_ends(low@, w as nat, i);
                }
                vstd::arithmetic::div_mod::lemma_small_mod(0, pow2(tw as nat));
            }
            push_cut(&mut out, &low, tw, Ghost(w as nat), Ghost(0));
            proof {
                assert forall|x: int| 0 <= x < tm implies (#[trigger] intervals::within(out@, x)
                    <==> intervals::within(s@, image(*shape, x, w as nat, tw as nat))) by {
                    let _ = intervals::within(low@, x);
                    let _ = intervals::within(low@, x + 0);
                }
            }
        },
        Shape::Sext => {
            // The values an extension takes: every value of `t` below the sign boundary, and
            // the ones above it, as the top of the wide range.
            let zero = BitVec::fill(w, false);
            let pos = BitVec::fill(tw - 1, true).zext(w);
            let neg = pos.not();
            let max = BitVec::fill(w, true);
            let ghost half = pow2((tw - 1) as nat) as int;
            proof {
                assert(zero@ =~= bits::zeros(w as nat));
                bits::lemma_zeros_nat(w as nat);
                assert(max@ =~= bits::ones(w as nat));
                bits::lemma_ones_nat(w as nat);
                lemma_ones_wide(pos@, (tw - 1) as nat);
                ops::lemma_not_nat(pos@);
                bits::lemma_pow2_step((tw - 1) as nat);
            }
            let low_part = just(zero, pos);
            let low = intersect(s, &low_part, Ghost(w as nat));
            proof {
                assert forall|i: int| #![trigger low@[i]] 0 <= i < low@.len() implies 0
                    <= intervals::low_end(low@[i]) && intervals::high_end(low@[i]) < 0 + tm by {
                    lemma_ends(low@, w as nat, i);
                }
                vstd::arithmetic::div_mod::lemma_small_mod(0, pow2(tw as nat));
            }
            push_cut(&mut out, &low, tw, Ghost(w as nat), Ghost(0));
            let ghost o1 = out@;
            let high_part = just(neg, max);
            let high = intersect(s, &high_part, Ghost(w as nat));
            let ghost off = m - tm;
            proof {
                assert forall|i: int| #![trigger high@[i]] 0 <= i < high@.len() implies off
                    <= intervals::low_end(high@[i]) && intervals::high_end(high@[i]) < off + tm by {
                    lemma_ends(high@, w as nat, i);
                }
                bits::lemma_pow2_sum((w - tw) as nat, tw as nat);
                let q = pow2((w - tw) as nat) as int;
                assert(off == (q - 1) * tm) by (nonlinear_arith)
                    requires
                        off == m - tm,
                        m == q * tm,
                ;
                vstd::arithmetic::div_mod::lemma_mod_multiples_basic(q - 1, tm);
            }
            push_cut(&mut out, &high, tw, Ghost(w as nat), Ghost(off));
            proof {
                assert forall|x: int| 0 <= x < tm implies (#[trigger] intervals::within(out@, x)
                    <==> intervals::within(s@, image(*shape, x, w as nat, tw as nat))) by {
                    let _ = intervals::within(o1, x);
                    let _ = intervals::within(low@, x);
                    let _ = intervals::within(low@, x + 0);
                    let _ = intervals::within(high@, x + off);
                    let _ = intervals::within(low_part@, x);
                    let _ = intervals::within(high_part@, x + off);
                }
            }
        },
    }
    let ghost o = out@;
    let done = normalize(&out, tw);
    proof {
        assert forall|x: int| 0 <= x < tm implies (#[trigger] intervals::within(done@, x)
            <==> intervals::within(s@, image(*shape, x, w as nat, tw as nat))) by {
            let _ = intervals::within(o, x);
        }
    }
    if done.len() <= MAX_INTERVALS {
        Some(done)
    } else {
        proof {
            assert forall|t: Seq<Span>| #[trigger]
                intervals::spans_ok(t, tw as nat) && (forall|x: int|
                    0 <= x < pow2(tw as nat) ==> (#[trigger] intervals::within(t, x)
                        <==> intervals::within(
                        s@,
                        image(*shape, x, w as nat, tw as nat),
                    ))) implies t.len() > MAX_INTERVALS by {
                assert(intervals::same_set(done@, t, tw as nat));
                intervals::law_sets_have_one_form(done@, t, tw as nat);
            }
        }
        None
    }
}

/// Low bits set, extended.
proof fn lemma_ones_wide(v: Seq<bool>, j: nat)
    requires
        j <= v.len(),
        forall|i: int| 0 <= i < v.len() ==> #[trigger] v[i] == (i < j),
    ensures
        bits::nat_of(v) == pow2(j) - 1,
{
    let hi = bits::zeros((v.len() - j) as nat);
    assert(v =~= bits::ones(j) + hi);
    bits::lemma_nat_concat(bits::ones(j), hi);
    bits::lemma_ones_nat(j);
    bits::lemma_zeros_nat((v.len() - j) as nat);
    assert(pow2(j) * 0 == 0);
}


} // verus!
