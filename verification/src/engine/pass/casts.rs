//! The casts pass: an `extract<lo, n>(x)` (a `trunc` when `lo = 0`) is pushed into `x`:
//!
//! - through `+ - * neg` when `lo = 0` (the low bits of a sum, difference or product depend
//!   only on the low bits of its operands), and through `& | ^ ~` and `select` for any `lo`;
//! - through shifts by a constant, zero and sign extensions, and `concat`, by re-indexing
//!   (or becoming the constant 0, or the extension of the part that remains).
//!
//! The narrowing is computed for the whole region below the extract (bounded), and replaces the
//! node only when that region gets strictly smaller: `trunc(zext(x) + zext(y))` becomes
//! `x + y`, while `trunc(a + b)` over opaque operands stays as it is.

use vstd::prelude::*;
use crate::term;
use crate::ops;
use crate::modular;
use crate::engine::runner;
use crate::engine::fin;
use crate::bits;
use vstd::arithmetic::power2::*;
use crate::bitvec::{BitVec, MAX_WIDTH};
use crate::engine::budget::Counter;
use crate::engine::fin::{Fin, Step, Stop};
use crate::engine::runner::Runner;
use crate::engine::stats::{bump, PassKind};
use crate::expr::{Context, Node};
use crate::ops::{BinOp, UnOp};
use crate::term::{Env, Term};

verus! {

broadcast use crate::term::lemma_value_len;

/// The most extract pushes per narrowing.
pub const MAX_PUSHES: u32 = 128;

/// A narrowing found: node, offset, width, result.
#[derive(Clone, Copy)]
pub struct Found {
    /// The node.
    pub x: u32,
    /// The offset.
    pub lo: u16,
    /// The width.
    pub n: u16,
    /// The result.
    pub to: u32,
}

/// The state of one narrowing.
pub struct Narrow {
    /// Results per node, offset and width.
    pub memo: Vec<Found>,
    /// Nodes where narrowing stopped (the region's atoms).
    pub stops: Vec<u32>,
    /// Extracts pushed.
    pub pushes: u32,
}

/// Node `v` is the bits `[lo, lo + n)` of node `x`.
pub open(crate) spec fn narrowed(cx: &Context, v: u32, x: u32, lo: u16, n: u16) -> bool {
    &&& v < cx.n()
    &&& x < cx.n()
    &&& cx.w(v as int) == n
    &&& lo + n <= cx.w(x as int)
    &&& forall|env: Env| #[trigger]
        cx.val(v as int, env) == cx.val(x as int, env).subrange(lo as int, lo + n)
}

/// Every narrowing found is right.
pub open(crate) spec fn found_ok(memo: Seq<Found>, cx: &Context) -> bool {
    forall|k: int|
        #![trigger memo[k]]
        0 <= k < memo.len() ==> narrowed(cx, memo[k].to, memo[k].x, memo[k].lo, memo[k].n)
}

proof fn lemma_narrowed_grow(cx0: &Context, cx1: &Context, v: u32, x: u32, lo: u16, n: u16)
    requires
        narrowed(cx0, v, x, lo, n),
        cx1.grew(cx0),
    ensures
        narrowed(cx1, v, x, lo, n),
{
    assert(cx1.tm()[v as int] == cx0.tm()[v as int]);
    assert(cx1.tm()[x as int] == cx0.tm()[x as int]);
    assert forall|env: Env| #[trigger] cx1.val(v as int, env) == cx1.val(x as int, env).subrange(
        lo as int,
        lo + n,
    ) by {
        let _ = cx0.val(v as int, env);
    }
}

proof fn lemma_found_grow(memo: Seq<Found>, cx0: &Context, cx1: &Context)
    requires
        found_ok(memo, cx0),
        cx1.grew(cx0),
    ensures
        found_ok(memo, cx1),
{
    assert forall|k: int| #![trigger memo[k]] 0 <= k < memo.len() implies narrowed(
        cx1,
        memo[k].to,
        memo[k].x,
        memo[k].lo,
        memo[k].n,
    ) by {
        lemma_narrowed_grow(cx0, cx1, memo[k].to, memo[k].x, memo[k].lo, memo[k].n);
    }
}

/// The low bits of a sum, difference or product are those of the low bits.
pub proof fn lemma_low_bits(op: BinOp, a: Seq<bool>, b: Seq<bool>, n: nat)
    requires
        op == BinOp::Add || op == BinOp::Sub || op == BinOp::Mul,
        a.len() == b.len(),
        n <= a.len(),
    ensures
        ops::bin_value(op, a, b).subrange(0, n as int) == ops::bin_value(
            op,
            a.subrange(0, n as int),
            b.subrange(0, n as int),
        ),
{
    let x = a.subrange(0, n as int);
    let y = b.subrange(0, n as int);
    lemma_low_num(a, n);
    lemma_low_num(b, n);
    let r = ops::bin_value(op, a, b);
    assert(r.subrange(0, n as int) =~= r.take(n as int));
    match op {
        BinOp::Add => {
            bits::lemma_bits_of_take((bits::nat_of(a) + bits::nat_of(b)) as int, a.len(), n as int);
            modular::lemma_eqm_add(modular::num(x), modular::num(a), modular::num(y), modular::num(b), n);
            modular::lemma_eqm_bits(modular::num(x) + modular::num(y), modular::num(a) + modular::num(b), n);
        },
        BinOp::Sub => {
            bits::lemma_bits_of_take(bits::nat_of(a) - bits::nat_of(b), a.len(), n as int);
            modular::lemma_eqm_sub(modular::num(x), modular::num(a), modular::num(y), modular::num(b), n);
            modular::lemma_eqm_bits(modular::num(x) - modular::num(y), modular::num(a) - modular::num(b), n);
        },
        _ => {
            bits::lemma_bits_of_take((bits::nat_of(a) * bits::nat_of(b)) as int, a.len(), n as int);
            modular::lemma_eqm_mul(modular::num(x), modular::num(a), modular::num(y), modular::num(b), n);
            modular::lemma_eqm_bits(modular::num(x) * modular::num(y), modular::num(a) * modular::num(b), n);
        },
    }
}

/// The low bits of a negation are the negation of the low bits.
pub proof fn lemma_low_neg(a: Seq<bool>, n: nat)
    requires
        n <= a.len(),
    ensures
        ops::un_value(UnOp::Neg, a).subrange(0, n as int) == ops::un_value(
            UnOp::Neg,
            a.subrange(0, n as int),
        ),
{
    let x = a.subrange(0, n as int);
    lemma_low_num(a, n);
    let r = ops::un_value(UnOp::Neg, a);
    assert(r.subrange(0, n as int) =~= r.take(n as int));
    bits::lemma_bits_of_take(-(bits::nat_of(a) as int), a.len(), n as int);
    modular::lemma_eqm_sub(0, 0, modular::num(x), modular::num(a), n);
    modular::lemma_eqm_bits(-modular::num(x), -modular::num(a), n);
}

/// The low bits of a value are congruent to it.
pub proof fn lemma_low_num(a: Seq<bool>, n: nat)
    requires
        n <= a.len(),
    ensures
        modular::eqm(modular::num(a.subrange(0, n as int)), modular::num(a), n),
{
    assert(a.subrange(0, n as int) =~= a.take(n as int));
    bits::lemma_nat_take(a, n as int);
    lemma_pow2_pos(n);
    vstd::arithmetic::div_mod::lemma_mod_twice(modular::num(a), pow2(n) as int);
}

/// The operand of `x` that its bits `[lo, lo + n)` are, if they are one.
pub open spec fn part_of(nodes: Seq<Node>, terms: Seq<Term>, x: u32, lo: int, n: int) -> Option<u32> {
    match nodes[x as int] {
        Node::Zext(a) | Node::Sext(a) => if lo == 0 && n == term::twidth(terms[a as int]) {
            Some(a)
        } else {
            None
        },
        Node::Concat(h, l) => if lo == 0 && n == term::twidth(terms[l as int]) {
            Some(l)
        } else if lo == term::twidth(terms[l as int]) && n == term::twidth(terms[h as int]) {
            Some(h)
        } else {
            None
        },
        _ => None,
    }
}

/// Node `n` extracts from a node one of its operands.
pub open spec fn reads_operand(nodes: Seq<Node>, terms: Seq<Term>, n: u32) -> bool {
    nodes[n as int] matches Node::Extract(a, lo) && term::twidth(terms[n as int]) < term::twidth(
        terms[a as int],
    ) && part_of(nodes, terms, a, lo as int, term::twidth(terms[n as int]) as int) is Some
}

/// The operand of `x` that its bits `[lo, lo + n)` are, if they are one.
fn operand_at(cx: &Context, x: u32, lo: u16, n: u16) -> (r: Option<u32>)
    requires
        cx.wf(),
        x < cx.n(),
        n >= 1,
        lo + n <= cx.w(x as int),
    ensures
        r == part_of(cx.nodes@, cx.tm(), x, lo as int, n as int),
        r matches Some(y) ==> narrowed(cx, y, x, lo, n) && y < x,
{
    proof {
        assert(cx.ok_at(x as int));
    }
    let r = match cx.node(x) {
        Node::Zext(a) | Node::Sext(a) => {
            assert(cx.ok_at(a as int));
            if lo == 0 && n == cx.wid(a) {
                Some(a)
            } else {
                None
            }
        },
        Node::Concat(h, l) => {
            assert(cx.ok_at(h as int));
            assert(cx.ok_at(l as int));
            if lo == 0 && n == cx.wid(l) {
                Some(l)
            } else if lo == cx.wid(l) && n == cx.wid(h) {
                Some(h)
            } else {
                None
            }
        },
        _ => None,
    };
    proof {
        if let Some(y) = r {
            assert forall|env: Env| #[trigger] cx.val(y as int, env) == cx.val(
                x as int,
                env,
            ).subrange(lo as int, lo + n) by {
                let s = cx.val(y as int, env);
                assert(s =~= cx.val(x as int, env).subrange(lo as int, lo + n));
            }
        }
    }
    r
}

impl<'a> Runner<'a> {
    /// The bits `[lo, lo + n)` of `x` as a node, where narrowing stops.
    fn narrow_stop(
        &mut self,
        cx: &mut Context,
        st: &mut Narrow,
        x: u32,
        lo: u16,
        n: u16,
    ) -> (out: Result<u32, Stop>)
        requires
            old(self).wf(old(cx)),
            x < old(cx).n(),
            n >= 1,
            lo + n <= old(cx).w(x as int),
            found_ok(old(st).memo@, old(cx)),
        ensures
            runner::went(final(self), final(cx), old(self), old(cx)),
            out matches Err(e) ==> final(self).refuses(final(cx), e),
            out is Ok ==> found_ok(final(st).memo@, final(cx)),
            final(st).pushes == old(st).pushes,
            out matches Ok(v) ==> narrowed(final(cx), v, x, lo, n),
    {
        let ghost cx0 = *cx;
        st.stops.push(x);
        let v = self.c_extract(cx, x, lo, n);
        proof {
            lemma_found_grow(st.memo@, &cx0, cx);
            if let Ok(v) = v {
                assert(cx.tm()[x as int] == cx0.tm()[x as int]);
                assert forall|env: Env| #[trigger] cx.val(v as int, env) == cx.val(
                    x as int,
                    env,
                ).subrange(lo as int, lo + n) by {
                    let _ = cx0.val(x as int, env);
                }
            }
        }
        v
    }

    /// The constant 0 of `n` bits, for bits of `x` that are known to be clear.
    fn narrow_zero(&mut self, cx: &mut Context, st: &mut Narrow, x: u32, lo: u16, n: u16) -> (out: Result<
        u32,
        Stop,
    >)
        requires
            old(self).wf(old(cx)),
            x < old(cx).n(),
            1 <= n <= MAX_WIDTH,
            lo + n <= old(cx).w(x as int),
            found_ok(old(st).memo@, old(cx)),
            forall|env: Env, i: int|
                #![trigger old(cx).val(x as int, env)[i]]
                lo <= i < lo + n ==> !old(cx).val(x as int, env)[i],
        ensures
            runner::went(final(self), final(cx), old(self), old(cx)),
            out matches Err(e) ==> final(self).refuses(final(cx), e),
            out is Ok ==> found_ok(final(st).memo@, final(cx)),
            final(st).pushes == old(st).pushes,
            out matches Ok(v) ==> narrowed(final(cx), v, x, lo, n),
    {
        let ghost cx0 = *cx;
        let z = BitVec::fill(n as usize, false);
        let v = self.mk_const(cx, &z);
        proof {
            assert(cx0.ok_at(x as int));
            lemma_found_grow(st.memo@, &cx0, cx);
            if let Ok(v) = v {
                assert(cx.tm()[x as int] == cx0.tm()[x as int]);
                assert forall|env: Env| #[trigger] cx.val(v as int, env) == cx.val(
                    x as int,
                    env,
                ).subrange(lo as int, lo + n) by {
                    let s = cx0.val(x as int, env);
                    assert forall|i: int| 0 <= i < n implies z@[i] == s.subrange(
                        lo as int,
                        lo + n,
                    )[i] by {
                        assert(!s[lo + i]);
                    }
                    assert(z@ =~= s.subrange(lo as int, lo + n));
                }
            }
        }
        v
    }

    /// The bits `[lo, lo + n)` of `x`, narrowed as far as the rules above allow.
    pub(crate) fn narrow(
        &mut self,
        cx: &mut Context,
        st: &mut Narrow,
        x: u32,
        lo: u16,
        n: u16,
    ) -> (out: Result<u32, Stop>)
        requires
            old(self).wf(old(cx)),
            x < old(cx).n(),
            n >= 1,
            lo + n <= old(cx).w(x as int),
            found_ok(old(st).memo@, old(cx)),
            old(st).pushes < u32::MAX / 2,
        ensures
            runner::went(final(self), final(cx), old(self), old(cx)),
            out matches Err(e) ==> final(self).refuses(final(cx), e),
            out is Ok ==> found_ok(final(st).memo@, final(cx)),
            final(st).pushes < u32::MAX / 2,
            out matches Ok(v) ==> narrowed(final(cx), v, x, lo, n),
            // An operand that those bits are is the result.
            part_of(old(cx).nodes@, old(cx).tm(), x, lo as int, n as int) matches Some(y) ==> lo != 0
                || n != old(cx).w(x as int) ==> out is Err || (out == Ok::<u32, Stop>(y)
                && final(st).stops@.contains(y)),
            // All of the bits are those of the node itself.
            lo == 0 && n == old(cx).w(x as int) ==> out == Ok::<u32, Stop>(x) && *final(cx)
                == *old(cx),
        decreases x, 1nat,
    {
        let w = cx.wid(x);
        if lo == 0 && n == w {
            st.stops.push(x);
            proof {
                assert(cx.ok_at(x as int));
                assert forall|env: Env| #[trigger] cx.val(x as int, env) == cx.val(
                    x as int,
                    env,
                ).subrange(0, 0 + n) by {
                    assert(cx.val(x as int, env) =~= cx.val(x as int, env).subrange(0, n as int));
                }
            }
            return Ok(x);
        }
        let part = operand_at(cx, x, lo, n);
        let mut q: usize = 0;
        while q < st.memo.len()
            invariant
                part == part_of(cx.nodes@, cx.tm(), x, lo as int, n as int),
                part matches Some(y) ==> narrowed(cx, y, x, lo, n),
                *self == *old(self),
                *cx == *old(cx),
                *st == *old(st),
                old(self).wf(old(cx)),
                found_ok(st.memo@, cx),
                old(st).pushes < u32::MAX / 2,
                w == old(cx).w(x as int),
                !(lo == 0 && n == w),
            decreases st.memo.len() - q,
        {
            let f = st.memo[q];
            if f.x == x && f.lo == lo && f.n == n {
                if let Some(y) = part {
                    st.stops.push(y);
                    assert(st.stops@[st.stops@.len() - 1] == y);
                    return Ok(y);
                }
                return Ok(f.to);
            }
            q = q + 1;
        }
        self.charge(Counter::PassWork, 1)?;
        self.checked()?;
        if st.pushes < MAX_PUSHES + 1 {
            st.pushes = st.pushes + 1;
        }
        let v = if let Some(y) = part {
            st.stops.push(y);
            assert(st.stops@[st.stops@.len() - 1] == y);
            y
        } else if st.pushes > MAX_PUSHES {
            self.narrow_stop(cx, st, x, lo, n)?
        } else if let Some(c) = cx.const_val(x) {
            let ghost cx0 = *cx;
            let c1 = c.extract(lo as usize, n as usize);
            let v = self.mk_const(cx, &c1)?;
            proof {
                lemma_found_grow(st.memo@, &cx0, cx);
                assert(cx.tm()[x as int] == cx0.tm()[x as int]);
                assert forall|env: Env| #[trigger] cx.val(v as int, env) == cx.val(
                    x as int,
                    env,
                ).subrange(lo as int, lo + n) by {
                    assert(cx0.val(x as int, env) == c@);
                }
            }
            v
        } else {
            self.narrow_node(cx, st, x, lo, n)?
        };
        st.memo.push(Found { x, lo, n, to: v });
        Ok(v)
    }

    /// One step of [`narrow`](Self::narrow) into the operands of `x`.
    #[verifier::rlimit(60)]
    fn narrow_node(
        &mut self,
        cx: &mut Context,
        st: &mut Narrow,
        x: u32,
        lo: u16,
        n: u16,
    ) -> (out: Result<u32, Stop>)
        requires
            old(self).wf(old(cx)),
            x < old(cx).n(),
            n >= 1,
            lo + n <= old(cx).w(x as int),
            found_ok(old(st).memo@, old(cx)),
            old(st).pushes < u32::MAX / 2,
        ensures
            runner::went(final(self), final(cx), old(self), old(cx)),
            out matches Err(e) ==> final(self).refuses(final(cx), e),
            out is Ok ==> found_ok(final(st).memo@, final(cx)),
            final(st).pushes < u32::MAX / 2,
            out matches Ok(v) ==> narrowed(final(cx), v, x, lo, n),
        decreases x, 0nat,
    {
        let node = cx.node(x);
        let w = cx.wid(x);
        let ghost cx0 = *cx;
        proof {
            assert(cx.ok_at(x as int));
        }
        match node {
            Node::Bin(op, a, b) => {
                proof {
                    assert(cx.ok_at(a as int));
                    assert(cx.ok_at(b as int));
                }
                let low = op == BinOp::Add || op == BinOp::Sub || op == BinOp::Mul;
                let bitwise = op == BinOp::And || op == BinOp::Or || op == BinOp::Xor;
                if (low && lo == 0) || bitwise {
                    let p = self.narrow(cx, st, a, lo, n)?;
                    let ghost cx1 = *cx;
                    let q = self.narrow(cx, st, b, lo, n)?;
                    let ghost cx2 = *cx;
                    proof {
                        lemma_narrowed_grow(&cx1, &cx2, p, a, lo, n);
                    }
                    let v = self.c_bin(cx, op, p, q)?;
                    proof {
                        lemma_found_grow(st.memo@, &cx2, cx);
                        assert(cx.tm()[x as int] == cx0.tm()[x as int]);
                        assert(cx2.tm()[a as int] == cx0.tm()[a as int]);
                        assert(cx2.tm()[b as int] == cx0.tm()[b as int]);
                        assert forall|env: Env| #[trigger] cx.val(v as int, env) == cx.val(
                            x as int,
                            env,
                        ).subrange(lo as int, lo + n) by {
                            let s = cx0.val(a as int, env);
                            let t = cx0.val(b as int, env);
                            assert(cx2.val(p as int, env) == s.subrange(lo as int, lo + n));
                            assert(cx2.val(q as int, env) == t.subrange(lo as int, lo + n));
                            if low {
                                lemma_low_bits(op, s, t, n as nat);
                            } else {
                                assert(ops::bin_value(op, s, t).subrange(lo as int, lo + n) =~= ops::bin_value(
                                    op,
                                    s.subrange(lo as int, lo + n),
                                    t.subrange(lo as int, lo + n),
                                ));
                            }
                        }
                    }
                    return Ok(v);
                }
                if op == BinOp::Shl || op == BinOp::LShr {
                    if let Some(c) = cx.const_val(b) {
                        let k: u16 = c.amount(1000) as u16;
                        proof {
                            assert forall|env: Env| #[trigger] cx.val(x as int, env) == ops::bin_value(
                                op,
                                cx.val(a as int, env),
                                c@,
                            ) by {
                                assert(cx.val(b as int, env) == c@);
                            }
                        }
                        if op == BinOp::Shl {
                            if lo + n <= k {
                                // Every extracted bit is a shifted-in zero.
                                proof {
                                    assert forall|env: Env, i: int|
                                        #![trigger cx.val(x as int, env)[i]]
                                        lo <= i < lo + n implies !cx.val(x as int, env)[i] by {}
                                }
                                return self.narrow_zero(cx, st, x, lo, n);
                            } else if lo >= k {
                                let v = self.narrow(cx, st, a, lo - k, n)?;
                                proof {
                                    assert(cx.tm()[x as int] == cx0.tm()[x as int]);
                                    assert(cx.tm()[a as int] == cx0.tm()[a as int]);
                                    assert forall|env: Env| #[trigger] cx.val(v as int, env)
                                        == cx.val(x as int, env).subrange(lo as int, lo + n) by {
                                        let s = cx0.val(a as int, env);
                                        assert(cx0.val(x as int, env) == ops::bin_value(op, s, c@));
                                        assert(cx.val(v as int, env) =~= ops::shl_bits(
                                            s,
                                            k as nat,
                                        ).subrange(lo as int, lo + n));
                                    }
                                }
                                return Ok(v);
                            }
                        } else if lo + k >= w {
                            proof {
                                assert forall|env: Env, i: int|
                                    #![trigger cx.val(x as int, env)[i]]
                                    lo <= i < lo + n implies !cx.val(x as int, env)[i] by {}
                            }
                            return self.narrow_zero(cx, st, x, lo, n);
                        } else if lo + k + n <= w {
                            let v = self.narrow(cx, st, a, lo + k, n)?;
                            proof {
                                assert(cx.tm()[x as int] == cx0.tm()[x as int]);
                                assert(cx.tm()[a as int] == cx0.tm()[a as int]);
                                assert forall|env: Env| #[trigger] cx.val(v as int, env) == cx.val(
                                    x as int,
                                    env,
                                ).subrange(lo as int, lo + n) by {
                                    let s = cx0.val(a as int, env);
                                    assert(cx0.val(x as int, env) == ops::bin_value(op, s, c@));
                                    assert(cx.val(v as int, env) =~= ops::shr_bits(
                                        s,
                                        k as nat,
                                        false,
                                    ).subrange(lo as int, lo + n));
                                }
                            }
                            return Ok(v);
                        }
                    }
                }
                self.narrow_stop(cx, st, x, lo, n)
            },
            Node::Un(op, a) => {
                proof {
                    assert(cx.ok_at(a as int));
                }
                if (op == UnOp::Neg && lo == 0) || op == UnOp::Not {
                    let p = self.narrow(cx, st, a, lo, n)?;
                    let ghost cx1 = *cx;
                    let v = self.c_un(cx, op, p)?;
                    proof {
                        lemma_found_grow(st.memo@, &cx1, cx);
                        assert(cx.tm()[x as int] == cx0.tm()[x as int]);
                        assert(cx1.tm()[a as int] == cx0.tm()[a as int]);
                        assert forall|env: Env| #[trigger] cx.val(v as int, env) == cx.val(
                            x as int,
                            env,
                        ).subrange(lo as int, lo + n) by {
                            let s = cx0.val(a as int, env);
                            assert(cx1.val(p as int, env) == s.subrange(lo as int, lo + n));
                            if op == UnOp::Neg {
                                lemma_low_neg(s, n as nat);
                            } else {
                                assert(ops::not_bits(s).subrange(lo as int, lo + n) =~= ops::not_bits(
                                    s.subrange(lo as int, lo + n),
                                ));
                            }
                        }
                    }
                    return Ok(v);
                }
                self.narrow_stop(cx, st, x, lo, n)
            },
            Node::Select(c, a, b) => {
                proof {
                    assert(cx.ok_at(a as int));
                    assert(cx.ok_at(b as int));
                    assert(cx.ok_at(c as int));
                }
                let p = self.narrow(cx, st, a, lo, n)?;
                let ghost cx1 = *cx;
                let q = self.narrow(cx, st, b, lo, n)?;
                let ghost cx2 = *cx;
                proof {
                    lemma_narrowed_grow(&cx1, &cx2, p, a, lo, n);
                    assert(cx2.tm()[c as int] == cx0.tm()[c as int]);
                }
                st.stops.push(c);
                let v = self.c_select(cx, c, p, q)?;
                proof {
                    lemma_found_grow(st.memo@, &cx2, cx);
                    assert(cx.tm()[x as int] == cx0.tm()[x as int]);
                    assert(cx2.tm()[a as int] == cx0.tm()[a as int]);
                    assert(cx2.tm()[b as int] == cx0.tm()[b as int]);
                    assert forall|env: Env| #[trigger] cx.val(v as int, env) == cx.val(
                        x as int,
                        env,
                    ).subrange(lo as int, lo + n) by {
                        let s = cx0.val(a as int, env);
                        let t = cx0.val(b as int, env);
                        assert(cx2.val(p as int, env) == s.subrange(lo as int, lo + n));
                        assert(cx2.val(q as int, env) == t.subrange(lo as int, lo + n));
                        assert(cx2.val(c as int, env) == cx0.val(c as int, env));
                    }
                }
                Ok(v)
            },
            Node::Zext(a) => self.narrow_ext(cx, st, x, a, false, lo, n),
            Node::Sext(a) => self.narrow_ext(cx, st, x, a, true, lo, n),
            Node::Concat(h, l) => {
                let wl = cx.wid(l);
                proof {
                    assert(cx.ok_at(h as int));
                    assert(cx.ok_at(l as int));
                }
                if lo + n <= wl {
                    let v = self.narrow(cx, st, l, lo, n)?;
                    proof {
                        assert(cx.tm()[x as int] == cx0.tm()[x as int]);
                        assert(cx.tm()[l as int] == cx0.tm()[l as int]);
                        assert forall|env: Env| #[trigger] cx.val(v as int, env) == cx.val(
                            x as int,
                            env,
                        ).subrange(lo as int, lo + n) by {
                            let s = cx0.val(l as int, env);
                            let t = cx0.val(h as int, env);
                            assert(cx.val(v as int, env) =~= (s + t).subrange(lo as int, lo + n));
                        }
                    }
                    Ok(v)
                } else if lo >= wl {
                    let v = self.narrow(cx, st, h, lo - wl, n)?;
                    proof {
                        assert(cx.tm()[x as int] == cx0.tm()[x as int]);
                        assert(cx.tm()[h as int] == cx0.tm()[h as int]);
                        assert forall|env: Env| #[trigger] cx.val(v as int, env) == cx.val(
                            x as int,
                            env,
                        ).subrange(lo as int, lo + n) by {
                            let s = cx0.val(l as int, env);
                            let t = cx0.val(h as int, env);
                            assert(cx.val(v as int, env) =~= (s + t).subrange(lo as int, lo + n));
                        }
                    }
                    Ok(v)
                } else {
                    self.narrow_stop(cx, st, x, lo, n)
                }
            },
            Node::Extract(a, at) => {
                proof {
                    assert(cx.ok_at(a as int));
                }
                let v = self.narrow(cx, st, a, at + lo, n)?;
                proof {
                    assert(cx.tm()[x as int] == cx0.tm()[x as int]);
                    assert(cx.tm()[a as int] == cx0.tm()[a as int]);
                    assert forall|env: Env| #[trigger] cx.val(v as int, env) == cx.val(
                        x as int,
                        env,
                    ).subrange(lo as int, lo + n) by {
                        let s = cx0.val(a as int, env);
                        assert(cx.val(v as int, env) =~= s.subrange(at as int, at + w).subrange(
                            lo as int,
                            lo + n,
                        ));
                    }
                }
                Ok(v)
            },
            _ => self.narrow_stop(cx, st, x, lo, n),
        }
    }

    /// [`narrow_node`](Self::narrow_node) for an extension `x` of `a`.
    fn narrow_ext(
        &mut self,
        cx: &mut Context,
        st: &mut Narrow,
        x: u32,
        a: u32,
        sext: bool,
        lo: u16,
        n: u16,
    ) -> (out: Result<u32, Stop>)
        requires
            old(self).wf(old(cx)),
            x < old(cx).n(),
            a < x,
            old(cx).nodes@[x as int] == (if sext {
                Node::Sext(a)
            } else {
                Node::Zext(a)
            }),
            n >= 1,
            lo + n <= old(cx).w(x as int),
            found_ok(old(st).memo@, old(cx)),
            old(st).pushes < u32::MAX / 2,
        ensures
            runner::went(final(self), final(cx), old(self), old(cx)),
            out matches Err(e) ==> final(self).refuses(final(cx), e),
            out is Ok ==> found_ok(final(st).memo@, final(cx)),
            final(st).pushes < u32::MAX / 2,
            out matches Ok(v) ==> narrowed(final(cx), v, x, lo, n),
        decreases a, 2nat,
    {
        let w = cx.wid(x);
        let wa = cx.wid(a);
        let ghost cx0 = *cx;
        proof {
            assert(cx.ok_at(x as int));
            assert(cx.ok_at(a as int));
        }
        if lo + n <= wa {
            let v = self.narrow(cx, st, a, lo, n)?;
            proof {
                assert(cx.tm()[x as int] == cx0.tm()[x as int]);
                assert(cx.tm()[a as int] == cx0.tm()[a as int]);
                assert forall|env: Env| #[trigger] cx.val(v as int, env) == cx.val(
                    x as int,
                    env,
                ).subrange(lo as int, lo + n) by {
                    let s = cx0.val(a as int, env);
                    assert(cx.val(v as int, env) =~= cx0.val(x as int, env).subrange(
                        lo as int,
                        lo + n,
                    ));
                }
            }
            return Ok(v);
        }
        if !sext && lo >= wa {
            proof {
                assert forall|env: Env, i: int|
                    #![trigger cx.val(x as int, env)[i]]
                    lo <= i < lo + n implies !cx.val(x as int, env)[i] by {
                    let s = cx.val(a as int, env);
                    assert(cx.val(x as int, env) == ops::zext_bits(s, w as nat));
                }
            }
            return self.narrow_zero(cx, st, x, lo, n);
        }
        // The extracted bits straddle the operand's top: extend the part that remains (for a
        // sign extension past the operand, its sign bit).
        let (plo, pn) = if lo >= wa {
            (wa - 1, 1u16)
        } else {
            (lo, wa - lo)
        };
        let p = self.narrow(cx, st, a, plo, pn)?;
        let ghost cx1 = *cx;
        let v = if sext {
            self.c_sext(cx, p, n)?
        } else {
            self.c_zext(cx, p, n)?
        };
        proof {
            lemma_found_grow(st.memo@, &cx1, cx);
            assert(cx.tm()[x as int] == cx0.tm()[x as int]);
            assert(cx1.tm()[a as int] == cx0.tm()[a as int]);
            assert forall|env: Env| #[trigger] cx.val(v as int, env) == cx.val(
                x as int,
                env,
            ).subrange(lo as int, lo + n) by {
                let s = cx0.val(a as int, env);
                let ps = s.subrange(plo as int, plo + pn);
                assert(cx1.val(p as int, env) == ps);
                assert(ps.last() == s.last());
                assert(cx.val(v as int, env) =~= cx0.val(x as int, env).subrange(
                    lo as int,
                    lo + n,
                ));
            }
        }
        Ok(v)
    }

    /// The casts pass at `n`.
    pub(crate) fn casts_step(&mut self, cx: &mut Context, n: u32) -> (out: Result<Step, Stop>)
        requires
            old(self).wf(old(cx)),
            n < old(cx).n(),
        ensures
            runner::went(final(self), final(cx), old(self), old(cx)),
            out matches Err(e) ==> final(self).refuses(final(cx), e),
            out matches Ok(s) ==> fin::step_keeps(s, final(cx).tm(), final(self).hyp@, n as int),
            old(self).refuses_all() ==> !(out matches Ok(Step::To(_, _))),
            !(old(cx).nodes@[n as int] is Extract) ==> out matches Ok(Step::Normal(_)),
            // An extract that is an operand of what it reads becomes it.
            old(self).unchecked() ==> (out matches Ok(Step::Normal(_)) ==> !reads_operand(
                old(cx).nodes@,
                old(cx).tm(),
                n,
            )),
    {
        let w = cx.wid(n);
        let (a, lo) = match cx.node(n) {
            Node::Extract(a, lo) => (a, lo),
            _ => {
                return Ok(Step::Normal(Fin::full()));
            },
        };
        let ghost cx0 = *cx;
        proof {
            assert(cx.ok_at(n as int));
        }
        let before: u32 = cx.len() as u32;
        let mut st = Narrow { memo: Vec::new(), stops: Vec::new(), pushes: 0 };
        let e = self.narrow(cx, &mut st, a, lo, w)?;
        if st.pushes > MAX_PUSHES {
            let c = self.stats.passes.entry(PassKind::Casts);
            c.atomized = bump(c.atomized);
        }
        proof {
            assert(cx0.ok_at(a as int));
            assert(cx0.ok_at(n as int));
            if reads_operand(cx0.nodes@, cx0.tm(), n) {
                let y = part_of(cx0.nodes@, cx0.tm(), a, lo as int, w as int)->0;
                assert(e == y && y < a && a < n);
            }
            assert(cx.tm()[n as int] == cx0.tm()[n as int]);
            assert(cx.tm()[a as int] == cx0.tm()[a as int]);
            assert forall|env: Env|
                #![trigger term::value(cx.tm()[n as int], env)]
                #![trigger term::value(cx.tm()[e as int], env)]
                term::value(cx.tm()[n as int], env) == term::value(cx.tm()[e as int], env) by {
                let _ = cx.val(e as int, env);
            }
        }
        self.finish(cx, PassKind::Casts, n, e, before, &st.stops, Fin::full())
    }
}

} // verus!
