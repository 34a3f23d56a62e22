//! Polynomial equality (called by the compares pass): two sides built from `+ - * neg`, left
//! shifts by constants and constants over a few leaves are expanded into sums of monomials
//! with coefficients modulo `2^W`; equal polynomials are equal functions, so `a == b` is true
//! (and `a != b` false). `(x + y)*(x - y) == x*x - y*y` and the sum of cubes are decided this
//! way. Different polynomials may still be equal functions (`2^(W-1)*(x*x + x)` is 0), which
//! this leaves undecided.

use vstd::prelude::*;
use vstd::arithmetic::power::*;
use crate::bits;
use crate::modular;
use crate::ops;
use crate::engine::runner;
use crate::bitvec::BitVec;
use crate::engine::budget::Counter;
use crate::engine::fin::Stop;
use crate::engine::runner::Runner;
use crate::expr::{Context, Node};
use crate::ops::{BinOp, UnOp};
use crate::term::Env;

verus! {

broadcast use crate::term::lemma_value_len;

/// The most leaves.
pub const MAX_LEAVES: usize = 4;

/// The most monomials a polynomial keeps.
pub const MAX_TERMS: usize = 64;

/// The most degree per leaf.
pub const MAX_DEGREE: u8 = 6;

/// The most nodes read.
const MAX_STEPS: u32 = 256;

/// A monomial: the exponent of each leaf.
#[derive(Clone, Copy, Debug, PartialEq, Eq, Structural)]
pub struct Mono {
    /// Of the first.
    pub a: u8,
    /// Of the second.
    pub b: u8,
    /// Of the third.
    pub c: u8,
    /// Of the fourth.
    pub d: u8,
}

/// A polynomial: monomials with coefficients.
pub type Poly = Vec<(Mono, BitVec)>;

/// A polynomial's monomials and coefficients.
pub open spec fn terms_of(p: Seq<(Mono, BitVec)>) -> Seq<(Mono, Seq<bool>)> {
    Seq::new(p.len(), |i: int| (p[i].0, p[i].1@))
}

/// The value of a monomial.
pub open spec fn mono_val(m: Mono, xs: Seq<int>) -> int {
    (pow(xs[0], m.a as nat) * pow(xs[1], m.b as nat)) * (pow(xs[2], m.c as nat) * pow(
        xs[3],
        m.d as nat,
    ))
}

/// The value of a polynomial.
pub open spec fn poly_val(p: Seq<(Mono, Seq<bool>)>, xs: Seq<int>) -> int
    decreases p.len(),
{
    if p.len() == 0 {
        0
    } else {
        poly_val(p.drop_last(), xs) + modular::num(p.last().1) * mono_val(p.last().0, xs)
    }
}

/// The coefficients are `w` wide.
pub open spec fn sized(p: Seq<(Mono, BitVec)>, w: nat) -> bool {
    forall|i: int| #![trigger p[i]] 0 <= i < p.len() ==> p[i].1@.len() == w
}

/// The values of the leaves.
pub open(crate) spec fn leaf_vals(cx: &Context, leaves: Seq<u32>, env: Env) -> Seq<int> {
    Seq::new(
        4,
        |i: int|
            if i < leaves.len() {
                modular::num(cx.val(leaves[i] as int, env))
            } else {
                0
            },
    )
}

/// The polynomial is that of node `x`.
pub open(crate) spec fn poly_ok(cx: &Context, x: u32, leaves: Seq<u32>, p: Seq<(Mono, BitVec)>) -> bool {
    &&& sized(p, cx.w(x as int))
    &&& forall|env: Env|
        modular::eqm(
            modular::num(#[trigger] cx.val(x as int, env)),
            poly_val(terms_of(p), leaf_vals(cx, leaves, env)),
            cx.w(x as int),
        )
}

/// Changing one coefficient.
proof fn lemma_update(p: Seq<(Mono, Seq<bool>)>, i: int, c: Seq<bool>, xs: Seq<int>)
    requires
        0 <= i < p.len(),
    ensures
        poly_val(p.update(i, (p[i].0, c)), xs) == poly_val(p, xs) + (modular::num(c) - modular::num(
            p[i].1,
        )) * mono_val(p[i].0, xs),
    decreases p.len(),
{
    let q = p.update(i, (p[i].0, c));
    let m = mono_val(p[i].0, xs);
    let (x, y) = (modular::num(c), modular::num(p[i].1));
    assert((x - y) * m == x * m - y * m) by (nonlinear_arith);
    if i == p.len() - 1 {
        assert(q.drop_last() =~= p.drop_last());
    } else {
        lemma_update(p.drop_last(), i, c, xs);
        assert(q.drop_last() =~= p.drop_last().update(i, (p[i].0, c)));
    }
}

/// One more term.
proof fn lemma_push(p: Seq<(Mono, Seq<bool>)>, t: (Mono, Seq<bool>), xs: Seq<int>)
    ensures
        poly_val(p.push(t), xs) == poly_val(p, xs) + modular::num(t.1) * mono_val(t.0, xs),
{
    assert(p.push(t).drop_last() =~= p);
}

/// Products of monomials add the exponents.
proof fn lemma_mono_mul(m: Mono, n: Mono, r: Mono, xs: Seq<int>)
    requires
        r.a == m.a + n.a,
        r.b == m.b + n.b,
        r.c == m.c + n.c,
        r.d == m.d + n.d,
    ensures
        mono_val(r, xs) == mono_val(m, xs) * mono_val(n, xs),
{
    lemma_pow_adds(xs[0], m.a as nat, n.a as nat);
    lemma_pow_adds(xs[1], m.b as nat, n.b as nat);
    lemma_pow_adds(xs[2], m.c as nat, n.c as nat);
    lemma_pow_adds(xs[3], m.d as nat, n.d as nat);
    let (p, q, s, t) = (
        pow(xs[0], m.a as nat),
        pow(xs[1], m.b as nat),
        pow(xs[2], m.c as nat),
        pow(xs[3], m.d as nat),
    );
    let (e, f, g, h) = (
        pow(xs[0], n.a as nat),
        pow(xs[1], n.b as nat),
        pow(xs[2], n.c as nat),
        pow(xs[3], n.d as nat),
    );
    lemma_four(p, q, e, f);
    lemma_four(s, t, g, h);
    lemma_four(p * q, s * t, e * f, g * h);
}

proof fn lemma_four(p: int, q: int, e: int, f: int)
    ensures
        (p * e) * (q * f) == (p * q) * (e * f),
{
    assert((p * e) * (q * f) == (p * q) * (e * f)) by (nonlinear_arith);
}

/// Copies a polynomial.
fn dup(p: &Poly) -> (r: Poly)
    ensures
        terms_of(r@) == terms_of(p@),
{
    let mut r: Poly = Vec::with_capacity(p.len());
    let mut i: usize = 0;
    while i < p.len()
        invariant
            i <= p@.len(),
            r@.len() == i,
            forall|j: int|
                #![trigger r@[j]]
                0 <= j < i ==> r@[j].0 == p@[j].0 && r@[j].1@ == p@[j].1@,
        decreases p@.len() - i,
    {
        r.push((p[i].0, p[i].1.dup()));
        i = i + 1;
    }
    assert(terms_of(r@) =~= terms_of(p@));
    r
}

/// The same widths in a copy.
proof fn lemma_sized(p: Seq<(Mono, BitVec)>, q: Seq<(Mono, BitVec)>, w: nat)
    requires
        sized(p, w),
        terms_of(p) == terms_of(q),
    ensures
        sized(q, w),
{
    assert(terms_of(p).len() == p.len());
    assert(terms_of(q).len() == q.len());
    assert forall|i: int| #![trigger q[i]] 0 <= i < q.len() implies q[i].1@.len() == w by {
        assert(terms_of(q)[i].1 == q[i].1@);
        assert(terms_of(p)[i].1 == p[i].1@);
    }
}

/// Adds the term `c * m`.
fn put(p: &mut Poly, m: Mono, c: BitVec)
    requires
        sized(old(p)@, c@.len()),
    ensures
        sized(final(p)@, c@.len()),
        final(p)@.len() <= old(p)@.len() + 1,
        forall|xs: Seq<int>|
            modular::eqm(
                #[trigger] poly_val(terms_of(final(p)@), xs),
                poly_val(terms_of(old(p)@), xs) + modular::num(c@) * mono_val(m, xs),
                c@.len(),
            ),
{
    let ghost w = c@.len();
    let ghost p0 = p@;
    let mut i: usize = 0;
    while i < p.len() && p[i].0 != m
        invariant
            i <= p@.len(),
            p@ == p0,
        decreases p@.len() - i,
    {
        i = i + 1;
    }
    if i < p.len() {
        let old_c = &p[i].1;
        proof {
            assert(p0[i as int].1@.len() == w);
        }
        let s = old_c.plus(&c);
        proof {
            modular::lemma_eqm_ops(p0[i as int].1@, c@);
            assert forall|xs: Seq<int>|
                modular::eqm(
                    #[trigger] poly_val(terms_of(p0.update(i as int, (m, s))), xs),
                    poly_val(terms_of(p0), xs) + modular::num(c@) * mono_val(m, xs),
                    w,
                ) by {
                let t = terms_of(p0);
                lemma_update(t, i as int, s@, xs);
                assert(terms_of(p0.update(i as int, (m, s))) =~= t.update(i as int, (m, s@)));
                let (x, y, z) = (modular::num(s@), modular::num(p0[i as int].1@), modular::num(c@));
                let v = mono_val(m, xs);
                modular::lemma_eqm_sub(x, y + z, y, y, w);
                modular::lemma_eqm_mul(x - y, z, v, v, w);
                modular::lemma_eqm_add(poly_val(t, xs), poly_val(t, xs), (x - y) * v, z * v, w);
            }
        }
        p.set(i, (m, s));
        proof {
            assert(p@ =~= p0.update(i as int, (m, s)));
            assert forall|j: int| #![trigger p@[j]] 0 <= j < p@.len() implies p@[j].1@.len() == w by {
                let _ = p0[j];
            }
        }
    } else {
        p.push((m, c));
        proof {
            assert forall|xs: Seq<int>|
                modular::eqm(
                    #[trigger] poly_val(terms_of(p@), xs),
                    poly_val(terms_of(p0), xs) + modular::num(c@) * mono_val(m, xs),
                    w,
                ) by {
                lemma_push(terms_of(p0), (m, c@), xs);
                assert(terms_of(p@) =~= terms_of(p0).push((m, c@)));
            }
        }
    }
}

/// Drops the terms that are zero.
fn trimmed(p: Poly, Ghost(w): Ghost<nat>) -> (r: Poly)
    requires
        sized(p@, w),
    ensures
        sized(r@, w),
        r@.len() <= p@.len(),
        forall|xs: Seq<int>| #[trigger] poly_val(terms_of(r@), xs) == poly_val(terms_of(p@), xs),
{
    let mut r: Poly = Vec::new();
    let mut i: usize = 0;
    assert(terms_of(p@).take(0) =~= terms_of(r@));
    while i < p.len()
        invariant
            i <= p@.len(),
            sized(p@, w),
            sized(r@, w),
            r@.len() <= i,
            forall|xs: Seq<int>| #[trigger]
                poly_val(terms_of(r@), xs) == poly_val(terms_of(p@).take(i as int), xs),
        decreases p@.len() - i,
    {
        let ghost r0 = r@;
        let ghost t = (p@[i as int].0, p@[i as int].1@);
        proof {
            assert(terms_of(p@).take(i + 1) =~= terms_of(p@).take(i as int).push(t));
            assert forall|xs: Seq<int>| #[trigger]
                poly_val(terms_of(p@).take(i + 1), xs) == poly_val(terms_of(p@).take(i as int), xs)
                    + modular::num(t.1) * mono_val(t.0, xs) by {
                lemma_push(terms_of(p@).take(i as int), t, xs);
            }
            let _ = p@[i as int];
        }
        if !p[i].1.is_zero() {
            r.push((p[i].0, p[i].1.dup()));
            proof {
                assert(terms_of(r@) =~= terms_of(r0).push(t));
                assert forall|xs: Seq<int>| #[trigger]
                    poly_val(terms_of(r@), xs) == poly_val(terms_of(p@).take(i + 1), xs) by {
                    lemma_push(terms_of(r0), t, xs);
                    assert(poly_val(terms_of(r0), xs) == poly_val(terms_of(p@).take(i as int), xs));
                }
            }
        } else {
            proof {
                bits::lemma_zeros_nat(w);
                assert forall|xs: Seq<int>| #[trigger]
                    poly_val(terms_of(r@), xs) == poly_val(terms_of(p@).take(i + 1), xs) by {
                    assert(0 * mono_val(t.0, xs) == 0);
                    assert(poly_val(terms_of(p@).take(i + 1), xs) == poly_val(
                        terms_of(p@).take(i as int),
                        xs,
                    ) + modular::num(t.1) * mono_val(t.0, xs));
                }
            }
        }
        i = i + 1;
    }
    assert(terms_of(p@).take(i as int) =~= terms_of(p@));
    r
}

/// The sum of two polynomials, or their difference.
fn sum(a: &Poly, b: &Poly, minus: bool, Ghost(w): Ghost<nat>) -> (r: Poly)
    requires
        sized(a@, w),
        sized(b@, w),
    ensures
        sized(r@, w),
        forall|xs: Seq<int>|
            modular::eqm(
                #[trigger] poly_val(terms_of(r@), xs),
                if minus {
                    poly_val(terms_of(a@), xs) - poly_val(terms_of(b@), xs)
                } else {
                    poly_val(terms_of(a@), xs) + poly_val(terms_of(b@), xs)
                },
                w,
            ),
{
    let mut r = dup(a);
    proof {
        lemma_sized(a@, r@, w);
    }
    let ghost sign: int = if minus {
        -1
    } else {
        1
    };
    assert(terms_of(b@).take(0) =~= Seq::<(Mono, Seq<bool>)>::empty());
    let mut i: usize = 0;
    while i < b.len()
        invariant
            i <= b@.len(),
            sized(b@, w),
            sized(r@, w),
            sign == (if minus {
                -1int
            } else {
                1int
            }),
            forall|xs: Seq<int>|
                modular::eqm(
                    #[trigger] poly_val(terms_of(r@), xs),
                    poly_val(terms_of(a@), xs) + sign * poly_val(terms_of(b@).take(i as int), xs),
                    w,
                ),
        decreases b@.len() - i,
    {
        let ghost r0 = r@;
        let ghost t = (b@[i as int].0, b@[i as int].1@);
        proof {
            let _ = b@[i as int];
        }
        let c = if minus {
            b[i].1.neg()
        } else {
            b[i].1.dup()
        };
        proof {
            modular::lemma_eqm_un(t.1);
            assert(-1 * modular::num(t.1) == -modular::num(t.1));
            assert(1 * modular::num(t.1) == modular::num(t.1));
            if minus {
                assert(c@ == ops::un_value(UnOp::Neg, t.1));
            }
            assert(modular::eqm(modular::num(c@), sign * modular::num(t.1), w));
        }
        let ghost cv = c@;
        put(&mut r, b[i].0, c);
        proof {
            assert(terms_of(b@).take(i + 1) =~= terms_of(b@).take(i as int).push(t));
            assert forall|xs: Seq<int>|
                modular::eqm(
                    #[trigger] poly_val(terms_of(r@), xs),
                    poly_val(terms_of(a@), xs) + sign * poly_val(terms_of(b@).take(i + 1), xs),
                    w,
                ) by {
                lemma_push(terms_of(b@).take(i as int), t, xs);
                let (p0, pa) = (poly_val(terms_of(r0), xs), poly_val(terms_of(a@), xs));
                let pb = poly_val(terms_of(b@).take(i as int), xs);
                let (k, v) = (modular::num(t.1), mono_val(t.0, xs));
                modular::lemma_eqm_mul(modular::num(cv), sign * k, v, v, w);
                modular::lemma_eqm_add(
                    p0,
                    pa + sign * pb,
                    modular::num(cv) * v,
                    (sign * k) * v,
                    w,
                );
                assert((pa + sign * pb) + (sign * k) * v == pa + sign * (pb + k * v))
                    by (nonlinear_arith);
            }
        }
        i = i + 1;
    }
    proof {
        assert(terms_of(b@).take(i as int) =~= terms_of(b@));
    }
    let ghost last = r@;
    let r = trimmed(r, Ghost(w));
    proof {
        assert forall|xs: Seq<int>|
            modular::eqm(
                #[trigger] poly_val(terms_of(r@), xs),
                if minus {
                    poly_val(terms_of(a@), xs) - poly_val(terms_of(b@), xs)
                } else {
                    poly_val(terms_of(a@), xs) + poly_val(terms_of(b@), xs)
                },
                w,
            ) by {
            let pb = poly_val(terms_of(b@), xs);
            let _ = poly_val(terms_of(last), xs);
            assert(-1 * pb == -pb);
            assert(1 * pb == pb);
        }
    }
    r
}

/// The product of two polynomials, within the caps.
fn product(a: &Poly, b: &Poly, Ghost(w): Ghost<nat>) -> (r: Option<Poly>)
    requires
        sized(a@, w),
        sized(b@, w),
    ensures
        r matches Some(p) ==> sized(p@, w) && forall|xs: Seq<int>|
            modular::eqm(
                #[trigger] poly_val(terms_of(p@), xs),
                poly_val(terms_of(a@), xs) * poly_val(terms_of(b@), xs),
                w,
            ),
{
    let mut r: Poly = Vec::new();
    assert(terms_of(r@) =~= Seq::<(Mono, Seq<bool>)>::empty());
    assert(terms_of(a@).take(0) =~= Seq::<(Mono, Seq<bool>)>::empty());
    proof {
        assert forall|xs: Seq<int>|
            modular::eqm(
                #[trigger] poly_val(terms_of(r@), xs),
                poly_val(terms_of(a@).take(0), xs) * poly_val(terms_of(b@), xs),
                w,
            ) by {
            assert(0 * poly_val(terms_of(b@), xs) == 0);
        }
    }
    let mut i: usize = 0;
    while i < a.len()
        invariant
            i <= a@.len(),
            sized(a@, w),
            sized(b@, w),
            sized(r@, w),
            forall|xs: Seq<int>|
                modular::eqm(
                    #[trigger] poly_val(terms_of(r@), xs),
                    poly_val(terms_of(a@).take(i as int), xs) * poly_val(terms_of(b@), xs),
                    w,
                ),
        decreases a@.len() - i,
    {
        let ghost s = (a@[i as int].0, a@[i as int].1@);
        let ghost ta = terms_of(a@).take(i as int);
        proof {
            let _ = a@[i as int];
            assert(terms_of(a@).take(i + 1) =~= ta.push(s));
            assert(terms_of(b@).take(0) =~= Seq::<(Mono, Seq<bool>)>::empty());
            assert forall|xs: Seq<int>|
                modular::eqm(
                    #[trigger] poly_val(terms_of(r@), xs),
                    poly_val(ta, xs) * poly_val(terms_of(b@), xs) + (modular::num(s.1) * mono_val(
                        s.0,
                        xs,
                    )) * poly_val(terms_of(b@).take(0), xs),
                    w,
                ) by {
                assert((modular::num(s.1) * mono_val(s.0, xs)) * 0 == 0);
            }
        }
        let mut j: usize = 0;
        while j < b.len()
            invariant
                i < a@.len(),
                j <= b@.len(),
                sized(a@, w),
                sized(b@, w),
                sized(r@, w),
                s == (a@[i as int].0, a@[i as int].1@),
                s.1.len() == w,
                forall|xs: Seq<int>|
                    modular::eqm(
                        #[trigger] poly_val(terms_of(r@), xs),
                        poly_val(ta, xs) * poly_val(terms_of(b@), xs) + (modular::num(s.1)
                            * mono_val(s.0, xs)) * poly_val(terms_of(b@).take(j as int), xs),
                        w,
                    ),
            decreases b@.len() - j,
        {
            let (ma, mb) = (a[i].0, b[j].0);
            let ghost t = (b@[j as int].0, b@[j as int].1@);
            let ghost r0 = r@;
            proof {
                let _ = b@[j as int];
            }
            if ma.a > MAX_DEGREE || mb.a > MAX_DEGREE || ma.b > MAX_DEGREE || mb.b > MAX_DEGREE
                || ma.c > MAX_DEGREE || mb.c > MAX_DEGREE || ma.d > MAX_DEGREE || mb.d
                > MAX_DEGREE {
                return None;
            }
            let m = Mono { a: ma.a + mb.a, b: ma.b + mb.b, c: ma.c + mb.c, d: ma.d + mb.d };
            if m.a > MAX_DEGREE || m.b > MAX_DEGREE || m.c > MAX_DEGREE || m.d > MAX_DEGREE {
                return None;
            }
            let c = a[i].1.times(&b[j].1);
            proof {
                modular::lemma_eqm_ops(s.1, t.1);
            }
            let ghost cv = c@;
            put(&mut r, m, c);
            if r.len() > MAX_TERMS {
                return None;
            }
            proof {
                assert(terms_of(b@).take(j + 1) =~= terms_of(b@).take(j as int).push(t));
                assert forall|xs: Seq<int>|
                    modular::eqm(
                        #[trigger] poly_val(terms_of(r@), xs),
                        poly_val(ta, xs) * poly_val(terms_of(b@), xs) + (modular::num(s.1)
                            * mono_val(s.0, xs)) * poly_val(terms_of(b@).take(j + 1), xs),
                        w,
                    ) by {
                    lemma_push(terms_of(b@).take(j as int), t, xs);
                    lemma_mono_mul(s.0, t.0, m, xs);
                    let p0 = poly_val(terms_of(r0), xs);
                    let base = poly_val(ta, xs) * poly_val(terms_of(b@), xs);
                    let (x, u) = (modular::num(s.1), mono_val(s.0, xs));
                    let (y, v) = (modular::num(t.1), mono_val(t.0, xs));
                    let q = poly_val(terms_of(b@).take(j as int), xs);
                    modular::lemma_eqm_mul(modular::num(cv), x * y, u * v, u * v, w);
                    modular::lemma_eqm_add(
                        p0,
                        base + (x * u) * q,
                        modular::num(cv) * (u * v),
                        (x * y) * (u * v),
                        w,
                    );
                    lemma_four(x, u, y, v);
                    assert((x * u) * (q + y * v) == (x * u) * q + (x * u) * (y * v))
                        by (nonlinear_arith);
                }
            }
            j = j + 1;
        }
        proof {
            assert(terms_of(b@).take(j as int) =~= terms_of(b@));
            assert forall|xs: Seq<int>|
                modular::eqm(
                    #[trigger] poly_val(terms_of(r@), xs),
                    poly_val(terms_of(a@).take(i + 1), xs) * poly_val(terms_of(b@), xs),
                    w,
                ) by {
                lemma_push(ta, s, xs);
                let (p, q) = (poly_val(ta, xs), poly_val(terms_of(b@), xs));
                let k = modular::num(s.1) * mono_val(s.0, xs);
                assert((p + k) * q == p * q + k * q) by (nonlinear_arith);
            }
        }
        i = i + 1;
    }
    proof {
        assert(terms_of(a@).take(i as int) =~= terms_of(a@));
    }
    Some(trimmed(r, Ghost(w)))
}


/// The leaves below `x`, added as met; whether they are within the caps.
fn collect(cx: &Context, x: u32, leaves: &mut Vec<u32>, seen: &mut Vec<u32>) -> (ok: bool)
    requires
        cx.wf(),
        x < cx.n(),
        old(leaves)@.len() <= MAX_LEAVES,
        forall|i: int| #![trigger old(leaves)@[i]] 0 <= i < old(leaves)@.len() ==> old(leaves)@[i] < cx.n(),
    ensures
        final(leaves)@.len() <= MAX_LEAVES,
        forall|i: int|
            #![trigger final(leaves)@[i]]
            0 <= i < final(leaves)@.len() ==> final(leaves)@[i] < cx.n(),
    decreases x,
{
    if has(seen, x) {
        return true;
    }
    if seen.len() >= MAX_STEPS as usize {
        return false;
    }
    seen.push(x);
    proof {
        assert(cx.ok_at(x as int));
    }
    match cx.node(x) {
        Node::Const(_) => true,
        Node::Bin(BinOp::Add, a, b) | Node::Bin(BinOp::Sub, a, b) | Node::Bin(BinOp::Mul, a, b) => {
            collect(cx, a, leaves, seen) && collect(cx, b, leaves, seen)
        },
        Node::Un(UnOp::Neg, a) => collect(cx, a, leaves, seen),
        Node::Bin(BinOp::Shl, a, b) => {
            if cx.is_const(b) {
                collect(cx, a, leaves, seen)
            } else {
                add_leaf(cx, x, leaves)
            }
        },
        _ => add_leaf(cx, x, leaves),
    }
}

/// Adds a leaf, if there is room.
fn add_leaf(cx: &Context, x: u32, leaves: &mut Vec<u32>) -> (ok: bool)
    requires
        x < cx.n(),
        old(leaves)@.len() <= MAX_LEAVES,
        forall|i: int| #![trigger old(leaves)@[i]] 0 <= i < old(leaves)@.len() ==> old(leaves)@[i] < cx.n(),
    ensures
        final(leaves)@.len() <= MAX_LEAVES,
        forall|i: int|
            #![trigger final(leaves)@[i]]
            0 <= i < final(leaves)@.len() ==> final(leaves)@[i] < cx.n(),
{
    if has(leaves, x) {
        return true;
    }
    if leaves.len() >= MAX_LEAVES {
        return false;
    }
    leaves.push(x);
    true
}

/// Whether a list holds `x`.
fn has(v: &Vec<u32>, x: u32) -> (r: bool)
    ensures
        r == v@.contains(x),
{
    let mut i: usize = 0;
    while i < v.len()
        invariant
            i <= v@.len(),
            forall|j: int| 0 <= j < i ==> v@[j] != x,
        decreases v@.len() - i,
    {
        if v[i] == x {
            return true;
        }
        i = i + 1;
    }
    false
}

/// Where a list holds `x`.
fn place(v: &Vec<u32>, x: u32) -> (r: Option<usize>)
    ensures
        r matches Some(i) ==> i < v@.len() && v@[i as int] == x,
{
    let mut i: usize = 0;
    while i < v.len()
        invariant
            i <= v@.len(),
        decreases v@.len() - i,
    {
        if v[i] == x {
            return Some(i);
        }
        i = i + 1;
    }
    None
}

/// Whether there is a product below `x`, where sums, negations and shifts lead to it.
fn has_product(cx: &Context, x: u32, seen: &mut u32) -> (r: bool)
    requires
        cx.wf(),
        x < cx.n(),
        *old(seen) <= 65,
    ensures
        *final(seen) <= 65,
    decreases x,
{
    if *seen >= 64 {
        return false;
    }
    *seen = *seen + 1;
    proof {
        assert(cx.ok_at(x as int));
    }
    match cx.node(x) {
        Node::Bin(BinOp::Mul, _, _) => true,
        Node::Bin(BinOp::Add, a, b) | Node::Bin(BinOp::Sub, a, b) | Node::Bin(BinOp::Shl, a, b) => {
            has_product(cx, a, seen) || has_product(cx, b, seen)
        },
        Node::Un(UnOp::Neg, a) => has_product(cx, a, seen),
        _ => false,
    }
}

/// The monomial of degree zero.
fn unit() -> (m: Mono)
    ensures
        forall|xs: Seq<int>| #[trigger] mono_val(m, xs) == 1,
{
    let m = Mono { a: 0, b: 0, c: 0, d: 0 };
    proof {
        assert forall|xs: Seq<int>| #[trigger] mono_val(m, xs) == 1 by {
            lemma_pow0(xs[0]);
            lemma_pow0(xs[1]);
            lemma_pow0(xs[2]);
            lemma_pow0(xs[3]);
        }
    }
    m
}

/// The leaf `i` as a monomial.
fn leaf_mono(i: usize) -> (m: Mono)
    requires
        i < MAX_LEAVES,
    ensures
        forall|xs: Seq<int>| xs.len() == 4 ==> #[trigger] mono_val(m, xs) == xs[i as int],
{
    let m = Mono {
        a: if i == 0 {
            1
        } else {
            0
        },
        b: if i == 1 {
            1
        } else {
            0
        },
        c: if i == 2 {
            1
        } else {
            0
        },
        d: if i == 3 {
            1
        } else {
            0
        },
    };
    proof {
        assert forall|xs: Seq<int>| xs.len() == 4 implies #[trigger] mono_val(m, xs) == xs[i as int] by {
            lemma_pow0(xs[0]);
            lemma_pow0(xs[1]);
            lemma_pow0(xs[2]);
            lemma_pow0(xs[3]);
            lemma_pow1(xs[i as int]);
            let v = xs[i as int];
            assert((v * 1) * (1 * 1) == v && (1 * v) * (1 * 1) == v && (1 * 1) * (v * 1) == v && (1
                * 1) * (1 * v) == v);
        }
    }
    m
}

/// A polynomial of one term.
fn single(m: Mono, c: BitVec) -> (r: Poly)
    ensures
        sized(r@, c@.len()),
        forall|xs: Seq<int>| #[trigger]
            poly_val(terms_of(r@), xs) == modular::num(c@) * mono_val(m, xs),
{
    let mut r: Poly = Vec::new();
    let ghost t = (m, c@);
    r.push((m, c));
    proof {
        let e = Seq::<(Mono, Seq<bool>)>::empty();
        assert(terms_of(r@) =~= e.push(t));
        assert forall|xs: Seq<int>| #[trigger]
            poly_val(terms_of(r@), xs) == modular::num(t.1) * mono_val(m, xs) by {
            lemma_push(e, t, xs);
        }
    }
    r
}

/// A polynomial found.
pub struct Found {
    /// Of this node.
    pub x: u32,
    /// The polynomial.
    pub p: Poly,
}

/// What was found is right.
spec fn found_ok(cx: &Context, leaves: Seq<u32>, memo: Seq<Found>) -> bool {
    forall|k: int|
        #![trigger memo[k]]
        0 <= k < memo.len() ==> memo[k].x < cx.n() && poly_ok(cx, memo[k].x, leaves, memo[k].p@)
}

/// A copy is a polynomial of the same node.
proof fn lemma_copy(cx: &Context, x: u32, leaves: Seq<u32>, p: Seq<(Mono, BitVec)>, q: Seq<(Mono, BitVec)>)
    requires
        poly_ok(cx, x, leaves, p),
        terms_of(p) == terms_of(q),
    ensures
        poly_ok(cx, x, leaves, q),
{
    lemma_sized(p, q, cx.w(x as int));
}

/// The polynomial of `x` over `leaves`, if it is one within the caps.
fn poly_of(cx: &Context, x: u32, leaves: &Vec<u32>, memo: &mut Vec<Found>, steps: &mut u32) -> (r: Option<
    Poly,
>)
    requires
        cx.wf(),
        x < cx.n(),
        leaves@.len() <= MAX_LEAVES,
        found_ok(cx, leaves@, old(memo)@),
        *old(steps) <= MAX_STEPS,
    ensures
        found_ok(cx, leaves@, final(memo)@),
        *final(steps) <= MAX_STEPS,
        r matches Some(p) ==> poly_ok(cx, x, leaves@, p@),
    decreases x,
{
    let mut k: usize = 0;
    while k < memo.len()
        invariant
            k <= memo@.len(),
            memo@ == old(memo)@,
            *steps == *old(steps),
            *old(steps) <= MAX_STEPS,
            found_ok(cx, leaves@, memo@),
        decreases memo@.len() - k,
    {
        if memo[k].x == x {
            let p = dup(&memo[k].p);
            proof {
                let _ = memo@[k as int];
                lemma_copy(cx, x, leaves@, memo@[k as int].p@, p@);
            }
            return Some(p);
        }
        k = k + 1;
    }
    if *steps >= MAX_STEPS {
        return None;
    }
    *steps = *steps + 1;
    proof {
        assert(cx.ok_at(x as int));
    }
    let w: usize = cx.wid(x) as usize;
    let p = match cx.node(x) {
        Node::Const(_) => {
            let v = cx.const_val(x)?;
            let one = unit();
            let p = single(one, v);
            proof {
                assert forall|env: Env|
                    modular::eqm(
                        modular::num(#[trigger] cx.val(x as int, env)),
                        poly_val(terms_of(p@), leaf_vals(cx, leaves@, env)),
                        cx.w(x as int),
                    ) by {
                    let xs = leaf_vals(cx, leaves@, env);
                    assert(mono_val(one, xs) == 1);
                    assert(modular::num(v@) * 1 == modular::num(v@));
                }
            }
            trimmed_at(cx, x, leaves, p)
        },
        Node::Bin(op, a, b) => {
            proof {
                assert(cx.ok_at(a as int));
                assert(cx.ok_at(b as int));
            }
            if op == BinOp::Add || op == BinOp::Sub || op == BinOp::Mul {
                let pa = poly_of(cx, a, leaves, memo, steps)?;
                let pb = poly_of(cx, b, leaves, memo, steps)?;
                let p = if op == BinOp::Mul {
                    product(&pa, &pb, Ghost(w as nat))?
                } else {
                    sum(&pa, &pb, op == BinOp::Sub, Ghost(w as nat))
                };
                if p.len() > MAX_TERMS {
                    return None;
                }
                proof {
                    assert forall|env: Env|
                        modular::eqm(
                            modular::num(#[trigger] cx.val(x as int, env)),
                            poly_val(terms_of(p@), leaf_vals(cx, leaves@, env)),
                            cx.w(x as int),
                        ) by {
                        let xs = leaf_vals(cx, leaves@, env);
                        let (s, t) = (cx.val(a as int, env), cx.val(b as int, env));
                        let (u, v) = (poly_val(terms_of(pa@), xs), poly_val(terms_of(pb@), xs));
                        modular::lemma_eqm_ops(s, t);
                        modular::lemma_eqm_add(modular::num(s), u, modular::num(t), v, w as nat);
                        modular::lemma_eqm_sub(modular::num(s), u, modular::num(t), v, w as nat);
                        modular::lemma_eqm_mul(modular::num(s), u, modular::num(t), v, w as nat);
                        let _ = poly_val(terms_of(p@), xs);
                    }
                }
                p
            } else if op == BinOp::Shl && cx.is_const(b) {
                let s = cx.const_val(b)?;
                let pa = poly_of(cx, a, leaves, memo, steps)?;
                let one = BitVec::from_u64(w, 1);
                let k = BitVec::apply_bin(BinOp::Shl, &one, &s);
                let m = unit();
                let pk = single(m, k);
                let p = product(&pa, &pk, Ghost(w as nat))?;
                proof {
                    assert forall|env: Env|
                        modular::eqm(
                            modular::num(#[trigger] cx.val(x as int, env)),
                            poly_val(terms_of(p@), leaf_vals(cx, leaves@, env)),
                            cx.w(x as int),
                        ) by {
                        let xs = leaf_vals(cx, leaves@, env);
                        let z = bits::nat_of(s@);
                        let u = cx.val(a as int, env);
                        let pu = poly_val(terms_of(pa@), xs);
                        assert(cx.val(b as int, env) == s@);
                        modular::lemma_eqm_shl(u, z);
                        modular::lemma_eqm_shl(one@, z);
                        modular::lemma_eqm_nat(1, w as nat);
                        let q = vstd::arithmetic::power2::pow2(z) as int;
                        modular::lemma_eqm_mul(modular::num(one@), 1, q, q, w as nat);
                        modular::lemma_eqm_mul(
                            pu,
                            modular::num(u),
                            modular::num(k@),
                            1 * q,
                            w as nat,
                        );
                        assert(modular::num(u) * (1 * q) == modular::num(u) * q) by (nonlinear_arith);
                        assert(mono_val(m, xs) == 1);
                        assert(modular::num(k@) * 1 == modular::num(k@));
                        let _ = poly_val(terms_of(p@), xs);
                        let _ = poly_val(terms_of(pk@), xs);
                    }
                }
                p
            } else {
                as_leaf(cx, x, leaves)?
            }
        },
        Node::Un(UnOp::Neg, a) => {
            proof {
                assert(cx.ok_at(a as int));
            }
            let pa = poly_of(cx, a, leaves, memo, steps)?;
            let none: Poly = Vec::new();
            let p = sum(&none, &pa, true, Ghost(w as nat));
            proof {
                assert(terms_of(none@) =~= Seq::<(Mono, Seq<bool>)>::empty());
                assert forall|env: Env|
                    modular::eqm(
                        modular::num(#[trigger] cx.val(x as int, env)),
                        poly_val(terms_of(p@), leaf_vals(cx, leaves@, env)),
                        cx.w(x as int),
                    ) by {
                    let xs = leaf_vals(cx, leaves@, env);
                    let s = cx.val(a as int, env);
                    let u = poly_val(terms_of(pa@), xs);
                    modular::lemma_eqm_un(s);
                    modular::lemma_eqm_sub(0, 0, modular::num(s), u, w as nat);
                    let _ = poly_val(terms_of(p@), xs);
                }
            }
            p
        },
        _ => as_leaf(cx, x, leaves)?,
    };
    let q = dup(&p);
    proof {
        lemma_copy(cx, x, leaves@, p@, q@);
    }
    let ghost m0 = memo@;
    memo.push(Found { x, p: q });
    proof {
        assert forall|j: int| #![trigger memo@[j]] 0 <= j < memo@.len() implies memo@[j].x < cx.n()
            && poly_ok(cx, memo@[j].x, leaves@, memo@[j].p@) by {
            if j < m0.len() {
                assert(memo@[j] == m0[j]);
            }
        }
    }
    Some(p)
}

/// The polynomial without its zero terms.
fn trimmed_at(cx: &Context, x: u32, leaves: &Vec<u32>, p: Poly) -> (r: Poly)
    requires
        poly_ok(cx, x, leaves@, p@),
    ensures
        poly_ok(cx, x, leaves@, r@),
{
    trimmed(p, Ghost(cx.w(x as int)))
}

/// The polynomial of a leaf.
fn as_leaf(cx: &Context, x: u32, leaves: &Vec<u32>) -> (r: Option<Poly>)
    requires
        cx.wf(),
        x < cx.n(),
        leaves@.len() <= MAX_LEAVES,
    ensures
        r matches Some(p) ==> poly_ok(cx, x, leaves@, p@),
{
    let i = place(leaves, x)?;
    let w: usize = cx.wid(x) as usize;
    let m = leaf_mono(i);
    let one = BitVec::from_u64(w, 1);
    let ghost ov = one@;
    let p = single(m, one);
    proof {
        crate::algebra::lemma_one_nat(w as nat);
        assert forall|env: Env|
            modular::eqm(
                modular::num(#[trigger] cx.val(x as int, env)),
                poly_val(terms_of(p@), leaf_vals(cx, leaves@, env)),
                cx.w(x as int),
            ) by {
            let xs = leaf_vals(cx, leaves@, env);
            assert(xs.len() == 4);
            assert(mono_val(m, xs) == xs[i as int]);
            assert(xs[i as int] == modular::num(cx.val(x as int, env)));
            assert(1 * xs[i as int] == xs[i as int]);
        }
    }
    Some(p)
}

impl<'a> Runner<'a> {
    /// Whether `a` and `b` expand to the same polynomial (and at least one has a product, which
    /// is what the linear forms do not expand).
    pub(crate) fn same_poly(&mut self, cx: &Context, a: u32, b: u32) -> (out: Result<bool, Stop>)
        requires
            old(self).wf(cx),
            a < cx.n(),
            b < cx.n(),
            cx.w(a as int) == cx.w(b as int),
        ensures
            runner::went(final(self), cx, old(self), cx),
            out matches Err(e) ==> final(self).refuses(cx, e),
            out matches Ok(true) ==> forall|env: Env| #[trigger]
                cx.val(a as int, env) == cx.val(b as int, env),
    {
        let mut seen: u32 = 0;
        let mut other: u32 = 0;
        if !has_product(cx, a, &mut seen) && !has_product(cx, b, &mut other) {
            return Ok(false);
        }
        let mut leaves: Vec<u32> = Vec::new();
        let mut met: Vec<u32> = Vec::new();
        if !collect(cx, a, &mut leaves, &mut met) || !collect(cx, b, &mut leaves, &mut met) {
            return Ok(false);
        }
        let mut memo: Vec<Found> = Vec::new();
        let mut steps: u32 = 0;
        let pa = poly_of(cx, a, &leaves, &mut memo, &mut steps);
        let pb = poly_of(cx, b, &leaves, &mut memo, &mut steps);
        self.charge(Counter::PassWork, steps as u64)?;
        match (pa, pb) {
            (Some(p), Some(q)) => {
                let d = sum(&p, &q, true, Ghost(cx.w(a as int)));
                if d.len() > 0 {
                    return Ok(false);
                }
                proof {
                    assert(cx.ok_at(a as int));
                    assert(cx.ok_at(b as int));
                    assert(terms_of(d@) =~= Seq::<(Mono, Seq<bool>)>::empty());
                    let w = cx.w(a as int);
                    assert forall|env: Env| #[trigger]
                        cx.val(a as int, env) == cx.val(b as int, env) by {
                        let xs = leaf_vals(cx, leaves@, env);
                        let (u, v) = (poly_val(terms_of(p@), xs), poly_val(terms_of(q@), xs));
                        let (s, t) = (cx.val(a as int, env), cx.val(b as int, env));
                        assert(modular::eqm(poly_val(terms_of(d@), xs), u - v, w));
                        modular::lemma_eqm_add(0, u - v, v, v, w);
                        assert(modular::eqm(v, u, w));
                        modular::lemma_eqm_same(s, t);
                    }
                }
                Ok(true)
            },
            _ => Ok(false),
        }
    }
}

} // verus!
