//! The demanded-bits pass: a node that observes only some bits of an operand (`x & c`, `x | c`,
//! an extract, a shift by a constant) simplifies that operand under the *demanded mask* `m`: it
//! is replaced by any `y` with `y & m = x & m`.
//!
//! Under a mask, `a & k` with `k` covering `m` is `a`; `a | k` with `k` missing `m` is `a`, and
//! with `k` covering `m` is `k`; an operand whose demanded bits the facts know is that constant;
//! arithmetic demands only the low prefix of its operands; shifts, extensions and `concat`
//! re-index the mask. The simplified region replaces the node only when it is strictly smaller.

use vstd::prelude::*;
use crate::term;
use crate::ops;
use crate::modular;
use crate::engine::runner;
use crate::engine::pass::casts;
use crate::engine::fin;
use crate::bits;
use crate::bitvec::BitVec;
use crate::engine::budget::Counter;
use crate::engine::fin::{Fin, Step, Stop};
use crate::engine::pass::residue::LowForm;
use crate::engine::runner::Runner;
use crate::engine::stats::{bump, PassKind};
use crate::expr::{Context, Expr, Node};
use crate::facts::reliance::{Hyp, Reliance};
use crate::ops::{BinOp, UnOp};
use crate::facts::floor;
use crate::facts::store::Entry;
use crate::term::{Env, Term};

verus! {

broadcast use crate::term::lemma_value_len;

/// The most nodes one simplification visits.
pub const MAX_VISITS: u32 = 256;

/// A simplification found: node, mask, result.
pub struct Seen {
    /// The node.
    pub x: u32,
    /// The mask.
    pub m: BitVec,
    /// The result.
    pub to: u32,
}

/// The state of one simplification.
pub struct Demand {
    /// Results per node and mask.
    pub memo: Vec<Seen>,
    /// Nodes where simplification stopped.
    pub stops: Vec<u32>,
    /// Nodes visited.
    pub visits: u32,
    /// What the results so far rely on.
    pub fin: Fin,
}

/// Two values agree on the bits of a mask.
pub open spec fn agree(s: Seq<bool>, t: Seq<bool>, m: Seq<bool>) -> bool {
    &&& s.len() == m.len()
    &&& t.len() == m.len()
    &&& forall|i: int| #![trigger m[i]] 0 <= i < m.len() && m[i] ==> s[i] == t[i]
}

/// Node `v` agrees with node `x` on the bits of `m`, wherever what it relies on holds.
pub open(crate) spec fn meets(
    cx: &Context,
    v: u32,
    x: u32,
    m: Seq<bool>,
    rel: Reliance,
    h: Hyp,
) -> bool {
    &&& v < cx.n()
    &&& x < cx.n()
    &&& cx.w(v as int) == m.len()
    &&& cx.w(x as int) == m.len()
    &&& forall|env: Env|
        rel.admits(h, env) ==> agree(#[trigger] cx.val(v as int, env), cx.val(x as int, env), m)
}

/// Every simplification found is right.
pub open(crate) spec fn seen_ok(memo: Seq<Seen>, cx: &Context, rel: Reliance, h: Hyp) -> bool {
    forall|k: int|
        #![trigger memo[k]]
        0 <= k < memo.len() ==> meets(cx, memo[k].to, memo[k].x, memo[k].m@, rel, h)
}

/// A node whose operators fix the bits asked for became a constant.
pub open(crate) spec fn folds_told(memo: Seq<Seen>, cx: &Context) -> bool {
    forall|k: int|
        #![trigger memo[k]]
        0 <= k < memo.len() && floor::fixed_on(cx.tm()[memo[k].x as int], memo[k].m@)
            ==> cx.nodes@[memo[k].to as int] is Const
}

/// Unless a cap declined facts or too many nodes were visited, bits that the operators fix were
/// folded.
pub open(crate) spec fn folded(st: &Demand, cx: &Context, most: int) -> bool {
    st.fin.why is Some || st.visits > most || folds_told(st.memo@, cx)
}

/// The most nodes that one simplification visits.
pub open spec fn visits_within(region: u32) -> int {
    if region < MAX_VISITS {
        region as int
    } else {
        MAX_VISITS as int
    }
}

/// Whatever `b` admits, `a` admits.
pub open spec fn weaker(a: Reliance, b: Reliance, h: Hyp) -> bool {
    forall|env: Env| #[trigger] b.admits(h, env) ==> a.admits(h, env)
}

proof fn lemma_meets_grow(
    cx0: &Context,
    cx1: &Context,
    v: u32,
    x: u32,
    m: Seq<bool>,
    rel: Reliance,
    rel1: Reliance,
    h: Hyp,
)
    requires
        meets(cx0, v, x, m, rel, h),
        cx1.grew(cx0),
        weaker(rel, rel1, h),
    ensures
        meets(cx1, v, x, m, rel1, h),
{
    assert(cx1.tm()[v as int] == cx0.tm()[v as int]);
    assert(cx1.tm()[x as int] == cx0.tm()[x as int]);
    assert forall|env: Env| rel1.admits(h, env) implies agree(
        #[trigger] cx1.val(v as int, env),
        cx1.val(x as int, env),
        m,
    ) by {
        let _ = cx0.val(v as int, env);
    }
}

proof fn lemma_seen_grow(
    memo: Seq<Seen>,
    cx0: &Context,
    cx1: &Context,
    rel: Reliance,
    rel1: Reliance,
    h: Hyp,
)
    requires
        seen_ok(memo, cx0, rel, h),
        cx1.grew(cx0),
        weaker(rel, rel1, h),
    ensures
        seen_ok(memo, cx1, rel1, h),
        folds_told(memo, cx0) ==> folds_told(memo, cx1),
{
    if folds_told(memo, cx0) {
        assert forall|k: int|
            #![trigger memo[k]]
            0 <= k < memo.len() && floor::fixed_on(
                cx1.tm()[memo[k].x as int],
                memo[k].m@,
            ) implies cx1.nodes@[memo[k].to as int] is Const by {
            assert(meets(cx0, memo[k].to, memo[k].x, memo[k].m@, rel, h));
            assert(cx1.tm()[memo[k].x as int] == cx0.tm()[memo[k].x as int]);
            assert(cx1.nodes@[memo[k].to as int] == cx0.nodes@[memo[k].to as int]);
        }
    }
    assert forall|k: int| #![trigger memo[k]] 0 <= k < memo.len() implies meets(
        cx1,
        memo[k].to,
        memo[k].x,
        memo[k].m@,
        rel1,
        h,
    ) by {
        lemma_meets_grow(cx0, cx1, memo[k].to, memo[k].x, memo[k].m@, rel, rel1, h);
    }
}

/// The low bits up to the highest set bit of `m`: the bits arithmetic depends on.
fn low_prefix(m: &BitVec) -> (r: BitVec)
    ensures
        r@.len() == m@.len(),
        exists|k: nat|
            k <= m@.len() && r@ == Seq::new(m@.len(), |i: int| i < k) && #[trigger] covers(m@, k),
{
    let k: usize = m.len() - m.clz();
    let mut v: Vec<bool> = Vec::with_capacity(m.len());
    let mut i: usize = 0;
    while i < m.len()
        invariant
            i <= m@.len(),
            v@.len() == i,
            forall|j: int| 0 <= j < i ==> #[trigger] v@[j] == (j < k),
        decreases m@.len() - i,
    {
        v.push(i < k);
        i = i + 1;
    }
    let r = BitVec::from_bools(v);
    proof {
        assert(r@ =~= Seq::new(m@.len(), |i: int| i < k));
        assert(covers(m@, k as nat));
    }
    r
}

/// Every set bit is below `k`.
pub open spec fn covers(m: Seq<bool>, k: nat) -> bool {
    forall|i: int| #![trigger m[i]] k <= i < m.len() ==> !m[i]
}

/// Whether every bit of `a` is a bit of `b`.
fn subset(a: &BitVec, b: &BitVec) -> (r: bool)
    requires
        a@.len() == b@.len(),
    ensures
        r <==> forall|i: int| #![trigger a@[i]] 0 <= i < a@.len() && a@[i] ==> b@[i],
{
    let mut i: usize = 0;
    while i < a.len()
        invariant
            i <= a@.len(),
            a@.len() == b@.len(),
            forall|j: int| #![trigger a@[j]] 0 <= j < i && a@[j] ==> b@[j],
        decreases a@.len() - i,
    {
        if a.at(i) && !b.at(i) {
            assert(a@[i as int]);
            return false;
        }
        i = i + 1;
    }
    true
}

/// Arithmetic on operands that agree on a low prefix agrees there.
proof fn lemma_prefix(
    op: BinOp,
    a: Seq<bool>,
    a2: Seq<bool>,
    b: Seq<bool>,
    b2: Seq<bool>,
    m: Seq<bool>,
    p: Seq<bool>,
    k: nat,
)
    requires
        op == BinOp::Add || op == BinOp::Sub || op == BinOp::Mul,
        k <= m.len(),
        p == Seq::new(m.len(), |i: int| i < k),
        covers(m, k),
        agree(a2, a, p),
        agree(b2, b, p),
    ensures
        agree(ops::bin_value(op, a2, b2), ops::bin_value(op, a, b), m),
{
    lemma_prefix_same(a, a2, p, k);
    lemma_prefix_same(b, b2, p, k);
    casts::lemma_low_bits(op, a, b, k);
    casts::lemma_low_bits(op, a2, b2, k);
    let r = ops::bin_value(op, a, b);
    let r2 = ops::bin_value(op, a2, b2);
    modular::lemma_eqm_ops(a, b);
    modular::lemma_eqm_ops(a2, b2);
    assert forall|i: int| #![trigger m[i]] 0 <= i < m.len() && m[i] implies r2[i] == r[i] by {
        assert(r.subrange(0, k as int)[i] == r[i]);
        assert(r2.subrange(0, k as int)[i] == r2[i]);
    }
}

proof fn lemma_prefix_same(a: Seq<bool>, a2: Seq<bool>, p: Seq<bool>, k: nat)
    requires
        k <= p.len(),
        p == Seq::new(p.len(), |i: int| i < k),
        agree(a2, a, p),
    ensures
        a.subrange(0, k as int) == a2.subrange(0, k as int),
{
    assert forall|i: int| 0 <= i < k implies a.subrange(0, k as int)[i] == a2.subrange(
        0,
        k as int,
    )[i] by {
        assert(p[i]);
    }
    assert(a.subrange(0, k as int) =~= a2.subrange(0, k as int));
}

proof fn lemma_prefix_neg(a: Seq<bool>, a2: Seq<bool>, m: Seq<bool>, p: Seq<bool>, k: nat)
    requires
        k <= m.len(),
        p == Seq::new(m.len(), |i: int| i < k),
        covers(m, k),
        agree(a2, a, p),
    ensures
        agree(ops::un_value(UnOp::Neg, a2), ops::un_value(UnOp::Neg, a), m),
{
    lemma_prefix_same(a, a2, p, k);
    casts::lemma_low_neg(a, k);
    casts::lemma_low_neg(a2, k);
    ops::lemma_un_len(UnOp::Neg, a);
    ops::lemma_un_len(UnOp::Neg, a2);
    let r = ops::un_value(UnOp::Neg, a);
    let r2 = ops::un_value(UnOp::Neg, a2);
    assert forall|i: int| #![trigger m[i]] 0 <= i < m.len() && m[i] implies r2[i] == r[i] by {
        assert(r.subrange(0, k as int)[i] == r[i]);
        assert(r2.subrange(0, k as int)[i] == r2[i]);
    }
}

/// Bitwise operators on operands that agree on a mask agree there.
proof fn lemma_bitwise_agree(
    op: BinOp,
    a: Seq<bool>,
    a2: Seq<bool>,
    b: Seq<bool>,
    b2: Seq<bool>,
    m: Seq<bool>,
)
    requires
        op == BinOp::And || op == BinOp::Or || op == BinOp::Xor,
        agree(a2, a, m),
        agree(b2, b, m),
    ensures
        agree(ops::bin_value(op, a2, b2), ops::bin_value(op, a, b), m),
{
}

/// Masking with a constant.
proof fn lemma_and_agree(a: Seq<bool>, a2: Seq<bool>, k: Seq<bool>, m: Seq<bool>)
    requires
        k.len() == m.len(),
        agree(a2, a, ops::and_bits(m, k)),
    ensures
        agree(ops::and_bits(a2, k), ops::and_bits(a, k), m),
        ops::and_bits(a, k) == ops::and_bits(k, a),
{
    assert forall|i: int| #![trigger m[i]] 0 <= i < m.len() && m[i] implies ops::and_bits(a2, k)[i]
        == ops::and_bits(a, k)[i] by {
        let _ = ops::and_bits(m, k)[i];
    }
    assert(ops::and_bits(a, k) =~= ops::and_bits(k, a));
}

/// Setting bits with a constant.
proof fn lemma_or_agree(a: Seq<bool>, a2: Seq<bool>, k: Seq<bool>, m: Seq<bool>)
    requires
        k.len() == m.len(),
        agree(a2, a, ops::and_bits(m, ops::not_bits(k))),
    ensures
        agree(ops::or_bits(a2, k), ops::or_bits(a, k), m),
        ops::or_bits(a, k) == ops::or_bits(k, a),
{
    assert forall|i: int| #![trigger m[i]] 0 <= i < m.len() && m[i] implies ops::or_bits(a2, k)[i]
        == ops::or_bits(a, k)[i] by {
        let _ = ops::and_bits(m, ops::not_bits(k))[i];
    }
    assert(ops::or_bits(a, k) =~= ops::or_bits(k, a));
}

/// The operand bits that reach the demanded ones through a shift.
proof fn lemma_shift_agree(
    left: bool,
    a: Seq<bool>,
    a2: Seq<bool>,
    k: Seq<bool>,
    m: Seq<bool>,
)
    requires
        agree(
            a2,
            a,
            ops::bin_value(
                if left {
                    BinOp::LShr
                } else {
                    BinOp::Shl
                },
                m,
                k,
            ),
        ),
    ensures
        agree(
            ops::bin_value(
                if left {
                    BinOp::Shl
                } else {
                    BinOp::LShr
                },
                a2,
                k,
            ),
            ops::bin_value(
                if left {
                    BinOp::Shl
                } else {
                    BinOp::LShr
                },
                a,
                k,
            ),
            m,
        ),
{
    let n = bits::nat_of(k);
    if left {
        let b = ops::shr_bits(m, n, false);
        assert forall|i: int| #![trigger m[i]] 0 <= i < m.len() && m[i] implies ops::shl_bits(a2, n)[i]
            == ops::shl_bits(a, n)[i] by {
            if i >= n {
                assert(b[i - n] == m[i]);
            }
        }
    } else {
        let b = ops::shl_bits(m, n);
        assert forall|i: int| #![trigger m[i]] 0 <= i < m.len() && m[i] implies ops::shr_bits(
            a2,
            n,
            false,
        )[i] == ops::shr_bits(a, n, false)[i] by {
            if i + n < m.len() {
                assert(b[i + n] == m[i]);
            }
        }
    }
}

/// The facts kept of `x` leave open one of the bits of `m`.
pub open spec fn asked_open(known: Seq<Option<Entry>>, x: u32, m: Seq<bool>) -> bool {
    &&& x < known.len()
    &&& known[x as int] matches Some(e) && exists|i: int|
        0 <= i < m.len() && #[trigger] m[i] && !e.k.zero@[i] && !e.k.one@[i]
}

/// What the state of a simplification says.
pub open(crate) spec fn demand_ok(st: &Demand, cx: &Context, h: Hyp) -> bool {
    &&& seen_ok(st.memo@, cx, st.fin.rel, h)
    &&& st.visits <= MAX_VISITS + 1
}

impl<'a> Runner<'a> {
    /// A node equal to `x` on the bits of `m`.
    pub(crate) fn simplify(&mut self, cx: &mut Context, st: &mut Demand, x: u32, m: &BitVec) -> (out: Result<
        u32,
        Stop,
    >)
        requires
            old(self).wf(old(cx)),
            x < old(cx).n(),
            old(cx).w(x as int) == m@.len(),
            demand_ok(old(st), old(cx), old(self).hyp@),
        ensures
            runner::went(final(self), final(cx), old(self), old(cx)),
            out matches Err(e) ==> final(self).refuses(final(cx), e),
            old(self).hooks is None && folded(old(st), old(cx), visits_within(old(self).max_region))
                ==> (out is Ok ==> folded(final(st), final(cx), visits_within(old(self).max_region))),
            out is Ok ==> (old(st).fin.why is Some ==> final(st).fin.why is Some) && old(st).visits
                <= final(st).visits,
            out matches Ok(v) ==> demand_ok(final(st), final(cx), final(self).hyp@) && weaker(
                old(st).fin.rel,
                final(st).fin.rel,
                final(self).hyp@,
            ) && meets(final(cx), v, x, m@, final(st).fin.rel, final(self).hyp@),
            // Where the operators fix the bits asked for, it is a constant.
            old(self).hooks is None && folded(old(st), old(cx), visits_within(old(self).max_region))
                ==> (out matches Ok(v) ==> final(st).fin.why is Some || final(st).visits
                > visits_within(old(self).max_region) || (floor::fixed_on(
                old(cx).tm()[x as int],
                m@,
            ) ==> final(cx).nodes@[v as int] is Const)),
            // Where no bit is asked for, it is 0.
            m@ == bits::zeros(m@.len()) ==> (out matches Ok(v) ==> final(cx).tm()[v as int]
                == Term::Const(m@)),
        decreases x, 1nat,
    {
        let ghost cx0 = *cx;
        let ghost h = self.hyp@;
        proof {
            assert(cx.ok_at(x as int));
        }
        if m.is_zero() {
            let z = BitVec::fill(m.len(), false);
            let v = self.mk_const(cx, &z)?;
            proof {
                assert(z@ =~= m@);
                lemma_seen_grow(st.memo@, &cx0, cx, st.fin.rel, st.fin.rel, h);
                assert(cx.tm()[x as int] == cx0.tm()[x as int]);
                assert(cx.ok_at(v as int));
                assert(cx.ok_at(x as int));
                assert forall|i: int| 0 <= i < m@.len() implies !#[trigger] m@[i] by {
                    assert(m@[i] == bits::zeros(m@.len())[i]);
                }
            }
            return Ok(v);
        }
        let mut q: usize = 0;
        while q < st.memo.len()
            invariant
                *self == *old(self),
                *cx == *old(cx),
                *st == *old(st),
                h == self.hyp@,
                old(self).wf(old(cx)),
                demand_ok(st, cx, h),
                x < cx.n(),
                m@ != bits::zeros(m@.len()),
            decreases st.memo.len() - q,
        {
            if st.memo[q].x == x && st.memo[q].m.same(m) {
                assert(st.memo@[q as int].x == x);
                return Ok(st.memo[q].to);
            }
            q = q + 1;
        }
        if st.visits <= MAX_VISITS {
            st.visits = st.visits + 1;
        }
        self.charge(Counter::PassWork, 1)?;
        self.checked()?;
        let most: u32 = if self.max_region < MAX_VISITS {
            self.max_region
        } else {
            MAX_VISITS
        };
        let ghost rel0 = st.fin.rel;
        let v = if st.visits > most || cx.is_const(x) {
            st.stops.push(x);
            x
        } else {
            match self.fold_demanded(cx, st, x, m)? {
                Some(c) => c,
                None => match self.residue_demanded(cx, st, x, m)? {
                    Some(v) => v,
                    None => self.simplify_node(cx, st, x, m)?,
                },
            }
        };
        let ghost memo0 = st.memo@;
        st.memo.push(Seen { x, m: m.dup(), to: v });
        proof {
            assert(cx.tm()[x as int] == cx0.tm()[x as int]);
            let most_seen = visits_within(old(self).max_region);
            if folded(old(st), old(cx), most_seen) && old(self).hooks is None && st.fin.why is None
                && st.visits <= most_seen {
                assert(folds_told(memo0, cx));
                assert forall|k: int|
                    #![trigger st.memo@[k]]
                    0 <= k < st.memo@.len() && floor::fixed_on(
                        cx.tm()[st.memo@[k].x as int],
                        st.memo@[k].m@,
                    ) implies cx.nodes@[st.memo@[k].to as int] is Const by {
                    if k < memo0.len() {
                        assert(st.memo@[k] == memo0[k]);
                    }
                }
            }
        }
        Ok(v)
    }

    /// The constant that `x` is on the bits of `m`, when the facts know them.
    fn fold_demanded(&mut self, cx: &mut Context, st: &mut Demand, x: u32, m: &BitVec) -> (out: Result<
        Option<u32>,
        Stop,
    >)
        requires
            old(self).wf(old(cx)),
            x < old(cx).n(),
            old(cx).w(x as int) == m@.len(),
            demand_ok(old(st), old(cx), old(self).hyp@),
        ensures
            runner::went(final(self), final(cx), old(self), old(cx)),
            out matches Err(e) ==> final(self).refuses(final(cx), e),
            old(self).hooks is None && folded(old(st), old(cx), visits_within(old(self).max_region))
                ==> (out is Ok ==> folded(final(st), final(cx), visits_within(old(self).max_region))),
            out is Ok ==> (old(st).fin.why is Some ==> final(st).fin.why is Some) && old(st).visits
                <= final(st).visits,
            out matches Ok(r) ==> demand_ok(final(st), final(cx), final(self).hyp@) && weaker(
                old(st).fin.rel,
                final(st).fin.rel,
                final(self).hyp@,
            ),
            out matches Ok(Some(v)) ==> meets(
                final(cx),
                v,
                x,
                m@,
                final(st).fin.rel,
                final(self).hyp@,
            ),
            out matches Ok(None) ==> *final(cx) == *old(cx),
            // The bits asked for are folded wherever the facts know them all.
            out matches Ok(None) ==> old(self).hooks is Some || final(st).fin.why is Some || old(cx).nodes@[x as int] is Const || asked_open(final(self).facts.known@, x, m@),
            out matches Ok(None) ==> old(self).hooks is Some || final(st).fin.why is Some || old(cx).nodes@[x as int] is Const
                || !floor::fixed_on(old(cx).tm()[x as int], m@),
            out is Ok ==> final(st).memo == old(st).memo && final(st).visits == old(st).visits,
            out matches Ok(Some(v)) ==> final(cx).nodes@[v as int] is Const,
    {
        let ghost cx0 = *cx;
        let ghost h = self.hyp@;
        proof {
            assert(cx.ok_at(x as int));
        }
        let (f, fin) = self.known(cx, x)?;
        // What the facts relied on counts only if they fold the operand.
        let ghost rel0 = st.fin.rel;
        st.fin = st.fin.and(fin.unchanged());
        proof {
            lemma_seen_grow(st.memo@, cx, cx, rel0, st.fin.rel, h);
        }
        let k = match f {
            Some(k) => k,
            None => {
                return Ok(None);
            },
        };
        let allowed = match self.hooks {
            Some(p) => p.fold_known(cx, Expr { id: x }),
            None => true,
        };
        proof {
            if floor::fixed_on(cx.tm()[x as int], m@) {
                assert forall|b: int| #![trigger m@[b]] 0 <= b < m@.len() && m@[b] implies k.zero@[b]
                    || k.one@[b] by {
                    let _ = (k.zero@[b], k.one@[b]);
                }
            }
        }
        if !allowed || !subset(m, &k.zero.or(&k.one)) {
            return Ok(None);
        }
        let ghost rel1 = st.fin.rel;
        st.fin = st.fin.and(fin);
        let v = k.one.and(m);
        let c = self.mk_const(cx, &v)?;
        proof {
            lemma_seen_grow(st.memo@, &cx0, cx, rel1, st.fin.rel, h);
            assert(cx.tm()[x as int] == cx0.tm()[x as int]);
            assert(cx.ok_at(x as int));
            assert forall|env: Env| st.fin.rel.admits(h, env) implies agree(
                #[trigger] cx.val(c as int, env),
                cx.val(x as int, env),
                m@,
            ) by {
                let s = cx0.val(x as int, env);
                assert(k.admits(s));
                assert forall|i: int| #![trigger m@[i]] 0 <= i < m@.len() && m@[i] implies v@[i]
                    == s[i] by {
                    let _ = s[i];
                }
            }
        }
        Ok(Some(c))
    }

    /// What the residues of `x` show it to be on the bits of `m`: a constant, or a leaf.
    fn residue_demanded(
        &mut self,
        cx: &mut Context,
        st: &mut Demand,
        x: u32,
        m: &BitVec,
    ) -> (out: Result<Option<u32>, Stop>)
        requires
            old(self).wf(old(cx)),
            x < old(cx).n(),
            old(cx).w(x as int) == m@.len(),
            demand_ok(old(st), old(cx), old(self).hyp@),
        ensures
            runner::went(final(self), final(cx), old(self), old(cx)),
            out matches Err(e) ==> final(self).refuses(final(cx), e),
            old(self).hooks is None && folded(old(st), old(cx), visits_within(old(self).max_region))
                ==> (out is Ok ==> folded(final(st), final(cx), visits_within(old(self).max_region))),
            out is Ok ==> (old(st).fin.why is Some ==> final(st).fin.why is Some) && old(st).visits
                <= final(st).visits,
            out is Ok ==> demand_ok(final(st), final(cx), final(self).hyp@) && final(st).fin == old(
                st,
            ).fin,
            out matches Ok(Some(v)) ==> meets(
                final(cx),
                v,
                x,
                m@,
                final(st).fin.rel,
                final(self).hyp@,
            ),
            out matches Ok(None) ==> *final(cx) == *old(cx),
    {
        let ghost cx0 = *cx;
        let ghost h = self.hyp@;
        proof {
            assert(cx.ok_at(x as int));
        }
        match self.low_form(cx, x, m)? {
            Some(LowForm::Const(v)) => {
                let allowed = match self.hooks {
                    Some(p) => p.fold_known(cx, Expr { id: x }),
                    None => true,
                };
                if !allowed {
                    return Ok(None);
                }
                let v = v.and(m);
                let c = self.mk_const(cx, &v)?;
                proof {
                    lemma_seen_grow(st.memo@, &cx0, cx, st.fin.rel, st.fin.rel, h);
                    assert(cx.tm()[x as int] == cx0.tm()[x as int]);
                    assert(cx.ok_at(x as int));
                    assert forall|env: Env| agree(
                        #[trigger] cx.val(c as int, env),
                        cx.val(x as int, env),
                        m@,
                    ) by {
                        let _ = cx0.val(x as int, env);
                    }
                }
                Ok(Some(c))
            },
            Some(LowForm::Leaf(l)) => {
                st.stops.push(l);
                Ok(Some(l))
            },
            None => Ok(None),
        }
    }

    /// One step of [`simplify`](Self::simplify) into the operands of `x`.
    #[verifier::rlimit(80)]
    fn simplify_node(&mut self, cx: &mut Context, st: &mut Demand, x: u32, m: &BitVec) -> (out: Result<
        u32,
        Stop,
    >)
        requires
            old(self).wf(old(cx)),
            x < old(cx).n(),
            old(cx).w(x as int) == m@.len(),
            demand_ok(old(st), old(cx), old(self).hyp@),
        ensures
            runner::went(final(self), final(cx), old(self), old(cx)),
            out matches Err(e) ==> final(self).refuses(final(cx), e),
            old(self).hooks is None && folded(old(st), old(cx), visits_within(old(self).max_region))
                ==> (out is Ok ==> folded(final(st), final(cx), visits_within(old(self).max_region))),
            out is Ok ==> (old(st).fin.why is Some ==> final(st).fin.why is Some) && old(st).visits
                <= final(st).visits,
            out matches Ok(v) ==> demand_ok(final(st), final(cx), final(self).hyp@) && weaker(
                old(st).fin.rel,
                final(st).fin.rel,
                final(self).hyp@,
            ) && meets(final(cx), v, x, m@, final(st).fin.rel, final(self).hyp@),
        decreases x, 0nat,
    {
        let node = cx.node(x);
        let w = cx.wid(x);
        let ghost cx0 = *cx;
        let ghost h = self.hyp@;
        proof {
            assert(cx.ok_at(x as int));
        }
        match node {
            Node::Bin(op, a, b) => {
                proof {
                    assert(cx.ok_at(a as int));
                    assert(cx.ok_at(b as int));
                }
                if op == BinOp::And || op == BinOp::Or {
                    let masked = match cx.const_val(a) {
                        Some(k) => Some((b, k)),
                        None => match cx.const_val(b) {
                            Some(k) => Some((a, k)),
                            None => None,
                        },
                    };
                    if let Some((y, k)) = masked {
                        proof {
                            assert forall|env: Env| #[trigger] cx.val(x as int, env) == ops::bin_value(
                                op,
                                cx.val(y as int, env),
                                k@,
                            ) by {
                                let s = cx.val(y as int, env);
                                assert(cx.val(x as int, env) == ops::bin_value(
                                    op,
                                    cx.val(a as int, env),
                                    cx.val(b as int, env),
                                ));
                                assert(ops::and_bits(s, k@) =~= ops::and_bits(k@, s));
                                assert(ops::or_bits(s, k@) =~= ops::or_bits(k@, s));
                            }
                        }
                        return self.simplify_masked(cx, st, x, y, op, &k, m);
                    }
                }
                let bitwise = op == BinOp::And || op == BinOp::Or || op == BinOp::Xor;
                let low = op == BinOp::Add || op == BinOp::Sub || op == BinOp::Mul;
                if bitwise || low {
                    let p = if low {
                        low_prefix(m)
                    } else {
                        m.dup()
                    };
                    let a2 = self.simplify(cx, st, a, &p)?;
                    let ghost cx1 = *cx;
                    let ghost rel1 = st.fin.rel;
                    let b2 = self.simplify(cx, st, b, &p)?;
                    let ghost cx2 = *cx;
                    let ghost rel2 = st.fin.rel;
                    proof {
                        lemma_meets_grow(&cx1, &cx2, a2, a, p@, rel1, rel2, h);
                    }
                    let v = self.c_bin(cx, op, a2, b2)?;
                    proof {
                        lemma_seen_grow(st.memo@, &cx2, cx, rel2, rel2, h);
                        assert(cx.tm()[x as int] == cx0.tm()[x as int]);
                        assert(cx2.tm()[a as int] == cx0.tm()[a as int]);
                        assert(cx2.tm()[b as int] == cx0.tm()[b as int]);
                        assert forall|env: Env| rel2.admits(h, env) implies agree(
                            #[trigger] cx.val(v as int, env),
                            cx.val(x as int, env),
                            m@,
                        ) by {
                            let s = cx0.val(a as int, env);
                            let t = cx0.val(b as int, env);
                            let s2 = cx2.val(a2 as int, env);
                            let t2 = cx2.val(b2 as int, env);
                            if low {
                                let k = choose|k: nat|
                                    k <= m@.len() && p@ == Seq::new(m@.len(), |i: int| i < k)
                                        && #[trigger] covers(m@, k);
                                lemma_prefix(op, s, s2, t, t2, m@, p@, k);
                            } else {
                                lemma_bitwise_agree(op, s, s2, t, t2, m@);
                            }
                        }
                    }
                    return Ok(v);
                }
                if op == BinOp::Shl || op == BinOp::LShr {
                    if let Some(k) = cx.const_val(b) {
                        let left = op == BinOp::Shl;
                        // The operand bits that reach the demanded ones.
                        let back = if left {
                            BinOp::LShr
                        } else {
                            BinOp::Shl
                        };
                        let ma = BitVec::apply_bin(back, m, &k);
                        proof {
                            ops::lemma_bin_len(back, m@, k@);
                        }
                        let a2 = self.simplify(cx, st, a, &ma)?;
                        let ghost cx1 = *cx;
                        let ghost rel1 = st.fin.rel;
                        proof {
                            assert(cx.tm()[b as int] == cx0.tm()[b as int]);
                        }
                        let v = self.c_bin(cx, op, a2, b)?;
                        proof {
                            lemma_seen_grow(st.memo@, &cx1, cx, rel1, rel1, h);
                            assert(cx.tm()[x as int] == cx0.tm()[x as int]);
                            assert(cx1.tm()[a as int] == cx0.tm()[a as int]);
                            assert forall|env: Env| rel1.admits(h, env) implies agree(
                                #[trigger] cx.val(v as int, env),
                                cx.val(x as int, env),
                                m@,
                            ) by {
                                let s = cx0.val(a as int, env);
                                let s2 = cx1.val(a2 as int, env);
                                assert(cx0.val(b as int, env) == k@);
                                assert(cx1.val(b as int, env) == k@);
                                lemma_shift_agree(left, s, s2, k@, m@);
                            }
                        }
                        return Ok(v);
                    }
                }
                st.stops.push(x);
                Ok(x)
            },
            Node::Un(op, a) => {
                proof {
                    assert(cx.ok_at(a as int));
                }
                if op != UnOp::Not && op != UnOp::Neg {
                    st.stops.push(x);
                    return Ok(x);
                }
                let p = if op == UnOp::Neg {
                    low_prefix(m)
                } else {
                    m.dup()
                };
                let a2 = self.simplify(cx, st, a, &p)?;
                let ghost cx1 = *cx;
                let ghost rel1 = st.fin.rel;
                let v = self.c_un(cx, op, a2)?;
                proof {
                    lemma_seen_grow(st.memo@, &cx1, cx, rel1, rel1, h);
                    assert(cx.tm()[x as int] == cx0.tm()[x as int]);
                    assert(cx1.tm()[a as int] == cx0.tm()[a as int]);
                    assert forall|env: Env| rel1.admits(h, env) implies agree(
                        #[trigger] cx.val(v as int, env),
                        cx.val(x as int, env),
                        m@,
                    ) by {
                        let s = cx0.val(a as int, env);
                        let s2 = cx1.val(a2 as int, env);
                        if op == UnOp::Neg {
                            let k = choose|k: nat|
                                k <= m@.len() && p@ == Seq::new(m@.len(), |i: int| i < k)
                                    && #[trigger] covers(m@, k);
                            lemma_prefix_neg(s, s2, m@, p@, k);
                        }
                    }
                }
                Ok(v)
            },
            Node::Zext(a) => {
                let wa = cx.wid(a);
                proof {
                    assert(cx.ok_at(a as int));
                }
                let ml = m.extract(0, wa as usize);
                let a2 = self.simplify(cx, st, a, &ml)?;
                let ghost cx1 = *cx;
                let ghost rel1 = st.fin.rel;
                let v = self.c_zext(cx, a2, w)?;
                proof {
                    lemma_seen_grow(st.memo@, &cx1, cx, rel1, rel1, h);
                    assert(cx.tm()[x as int] == cx0.tm()[x as int]);
                    assert(cx1.tm()[a as int] == cx0.tm()[a as int]);
                    assert forall|env: Env| rel1.admits(h, env) implies agree(
                        #[trigger] cx.val(v as int, env),
                        cx.val(x as int, env),
                        m@,
                    ) by {
                        let s = cx0.val(a as int, env);
                        let s2 = cx1.val(a2 as int, env);
                        assert(agree(s2, s, ml@));
                        assert forall|i: int| #![trigger m@[i]] 0 <= i < m@.len()
                            && m@[i] implies ops::zext_bits(s2, w as nat)[i] == ops::zext_bits(
                            s,
                            w as nat,
                        )[i] by {
                            if i < wa {
                                assert(ml@[i] == m@[i]);
                            }
                        }
                    }
                }
                Ok(v)
            },
            Node::Concat(hi, lo) => {
                let wl = cx.wid(lo);
                let wh = cx.wid(hi);
                proof {
                    assert(cx.ok_at(hi as int));
                    assert(cx.ok_at(lo as int));
                }
                let ml = m.extract(0, wl as usize);
                let mh = m.extract(wl as usize, wh as usize);
                let h2 = self.simplify(cx, st, hi, &mh)?;
                let ghost cx1 = *cx;
                let ghost rel1 = st.fin.rel;
                let l2 = self.simplify(cx, st, lo, &ml)?;
                let ghost cx2 = *cx;
                let ghost rel2 = st.fin.rel;
                proof {
                    lemma_meets_grow(&cx1, &cx2, h2, hi, mh@, rel1, rel2, h);
                }
                let v = self.c_concat(cx, h2, l2)?;
                proof {
                    lemma_seen_grow(st.memo@, &cx2, cx, rel2, rel2, h);
                    assert(cx.tm()[x as int] == cx0.tm()[x as int]);
                    assert(cx2.tm()[hi as int] == cx0.tm()[hi as int]);
                    assert(cx2.tm()[lo as int] == cx0.tm()[lo as int]);
                    assert forall|env: Env| rel2.admits(h, env) implies agree(
                        #[trigger] cx.val(v as int, env),
                        cx.val(x as int, env),
                        m@,
                    ) by {
                        let s = cx0.val(hi as int, env);
                        let t = cx0.val(lo as int, env);
                        let s2 = cx2.val(h2 as int, env);
                        let t2 = cx2.val(l2 as int, env);
                        assert(agree(s2, s, mh@));
                        assert(agree(t2, t, ml@));
                        assert forall|i: int| #![trigger m@[i]] 0 <= i < m@.len()
                            && m@[i] implies (t2 + s2)[i] == (t + s)[i] by {
                            if i < wl {
                                assert(ml@[i] == m@[i]);
                            } else {
                                assert(mh@[i - wl] == m@[i]);
                            }
                        }
                    }
                }
                Ok(v)
            },
            _ => {
                st.stops.push(x);
                Ok(x)
            },
        }
    }

    /// [`simplify_node`](Self::simplify_node) for `x`, which is `y` with (`&`) or without (`|`)
    /// the bits of the constant `k`.
    fn simplify_masked(
        &mut self,
        cx: &mut Context,
        st: &mut Demand,
        x: u32,
        y: u32,
        op: BinOp,
        k: &BitVec,
        m: &BitVec,
    ) -> (out: Result<u32, Stop>)
        requires
            old(self).wf(old(cx)),
            x < old(cx).n(),
            y < x,
            op == BinOp::And || op == BinOp::Or,
            old(cx).w(x as int) == m@.len(),
            old(cx).w(y as int) == m@.len(),
            k@.len() == m@.len(),
            forall|env: Env| #[trigger]
                old(cx).val(x as int, env) == ops::bin_value(op, old(cx).val(y as int, env), k@),
            demand_ok(old(st), old(cx), old(self).hyp@),
        ensures
            runner::went(final(self), final(cx), old(self), old(cx)),
            out matches Err(e) ==> final(self).refuses(final(cx), e),
            old(self).hooks is None && folded(old(st), old(cx), visits_within(old(self).max_region))
                ==> (out is Ok ==> folded(final(st), final(cx), visits_within(old(self).max_region))),
            out is Ok ==> (old(st).fin.why is Some ==> final(st).fin.why is Some) && old(st).visits
                <= final(st).visits,
            out matches Ok(v) ==> demand_ok(final(st), final(cx), final(self).hyp@) && weaker(
                old(st).fin.rel,
                final(st).fin.rel,
                final(self).hyp@,
            ) && meets(final(cx), v, x, m@, final(st).fin.rel, final(self).hyp@),
        decreases y, 2nat,
    {
        let ghost cx0 = *cx;
        let ghost h = self.hyp@;
        proof {
            assert(cx.ok_at(x as int));
            assert(cx.ok_at(y as int));
        }
        let covered = subset(m, k);
        let missed = subset(m, &k.not());
        if (op == BinOp::And && covered) || (op == BinOp::Or && missed) {
            let v = self.simplify(cx, st, y, m)?;
            proof {
                assert(cx.tm()[x as int] == cx0.tm()[x as int]);
                assert(cx.tm()[y as int] == cx0.tm()[y as int]);
                assert forall|env: Env| st.fin.rel.admits(h, env) implies agree(
                    #[trigger] cx.val(v as int, env),
                    cx.val(x as int, env),
                    m@,
                ) by {
                    let s = cx0.val(y as int, env);
                    assert(cx.val(x as int, env) == cx0.val(x as int, env));
                    assert forall|i: int| #![trigger m@[i]] 0 <= i < m@.len()
                        && m@[i] implies ops::bin_value(op, s, k@)[i] == s[i] by {}
                }
            }
            return Ok(v);
        }
        if op == BinOp::Or && covered {
            let c = self.mk_const(cx, k)?;
            proof {
                lemma_seen_grow(st.memo@, &cx0, cx, st.fin.rel, st.fin.rel, h);
                assert(cx.tm()[x as int] == cx0.tm()[x as int]);
                assert forall|env: Env| st.fin.rel.admits(h, env) implies agree(
                    #[trigger] cx.val(c as int, env),
                    cx.val(x as int, env),
                    m@,
                ) by {
                    let s = cx0.val(y as int, env);
                    assert(cx.val(x as int, env) == cx0.val(x as int, env));
                }
            }
            return Ok(c);
        }
        let n = if op == BinOp::And {
            m.and(k)
        } else {
            m.and(&k.not())
        };
        let y2 = self.simplify(cx, st, y, &n)?;
        let ghost cx1 = *cx;
        let ghost rel1 = st.fin.rel;
        let c = self.mk_const(cx, k)?;
        let ghost cx2 = *cx;
        let v = self.c_bin(cx, op, y2, c)?;
        proof {
            lemma_seen_grow(st.memo@, &cx1, cx, rel1, rel1, h);
            assert(cx.tm()[x as int] == cx0.tm()[x as int]);
            assert(cx1.tm()[y as int] == cx0.tm()[y as int]);
            assert forall|env: Env| rel1.admits(h, env) implies agree(
                #[trigger] cx.val(v as int, env),
                cx.val(x as int, env),
                m@,
            ) by {
                let s = cx0.val(y as int, env);
                let s2 = cx1.val(y2 as int, env);
                assert(cx2.val(y2 as int, env) == s2);
                assert(cx2.val(c as int, env) == k@);
                assert(cx.val(x as int, env) == cx0.val(x as int, env));
                if op == BinOp::And {
                    lemma_and_agree(s, s2, k@, m@);
                } else {
                    lemma_or_agree(s, s2, k@, m@);
                }
            }
        }
        Ok(v)
    }

    /// The demanded-bits pass at `n`.
    #[verifier::rlimit(40)]
    pub(crate) fn demanded_step(&mut self, cx: &mut Context, n: u32) -> (out: Result<Step, Stop>)
        requires
            old(self).wf(old(cx)),
            n < old(cx).n(),
        ensures
            runner::went(final(self), final(cx), old(self), old(cx)),
            out matches Err(e) ==> final(self).refuses(final(cx), e),
            out matches Ok(s) ==> fin::step_keeps(s, final(cx).tm(), final(self).hyp@, n as int),
            old(self).refuses_all() ==> !(out matches Ok(Step::To(_, _))),
    {
        let node = cx.node(n);
        let w = cx.wid(n);
        let ghost cx0 = *cx;
        let ghost h = self.hyp@;
        proof {
            assert(cx.ok_at(n as int));
        }
        // The operand observed through a mask, and the mask.
        let (operand, mask) = match node {
            Node::Bin(op, a, b) => {
                proof {
                    assert(cx.ok_at(a as int));
                    assert(cx.ok_at(b as int));
                }
                if op == BinOp::And || op == BinOp::Or {
                    let masked = match (cx.const_val(a), cx.const_val(b)) {
                        (Some(k), None) => Some((b, k)),
                        (None, Some(k)) => Some((a, k)),
                        _ => None,
                    };
                    match masked {
                        Some((x, k)) => {
                            let ghost kv = k@;
                            let seen = if op == BinOp::And {
                                k
                            } else {
                                k.not()
                            };
                            proof {
                                assert(ops::not_bits(ops::not_bits(kv)) =~= kv);
                                assert(observes(op, cx0, x, a, b, seen@));
                            }
                            (x, seen)
                        },
                        None => {
                            return Ok(Step::Normal(Fin::full()));
                        },
                    }
                } else if (op == BinOp::Shl || op == BinOp::LShr) && a != b {
                    match cx.const_val(b) {
                        Some(k) => {
                            let back = if op == BinOp::Shl {
                                BinOp::LShr
                            } else {
                                BinOp::Shl
                            };
                            let all = BitVec::fill(w as usize, true);
                            proof {
                                ops::lemma_bin_len(back, all@, k@);
                            }
                            let seen = BitVec::apply_bin(back, &all, &k);
                            proof {
                                assert(all@ =~= bits::ones(w as nat));
                                assert(observes(op, cx0, a, a, b, seen@));
                            }
                            (a, seen)
                        },
                        None => {
                            return Ok(Step::Normal(Fin::full()));
                        },
                    }
                } else {
                    return Ok(Step::Normal(Fin::full()));
                }
            },
            Node::Extract(a, lo) => {
                let wa = cx.wid(a);
                proof {
                    assert(cx.ok_at(a as int));
                }
                (a, window(wa as usize, lo as usize, w as usize))
            },
            _ => {
                return Ok(Step::Normal(Fin::full()));
            },
        };
        assert(node matches Node::Bin(op, a, b) ==> observes(op, cx0, operand, a, b, mask@));
        let before: u32 = cx.len() as u32;
        let mut st = Demand {
            memo: Vec::new(),
            stops: Vec::new(),
            visits: 0,
            fin: Fin::full(),
        };
        let x2 = self.simplify(cx, &mut st, operand, &mask)?;
        let ghost cx1 = *cx;
        if st.visits > MAX_VISITS {
            let c = self.stats.passes.entry(PassKind::Demanded);
            c.atomized = bump(c.atomized);
        }
        let fin = st.fin;
        if x2 == operand {
            let c = self.stats.passes.entry(PassKind::Demanded);
            c.noop = bump(c.noop);
            return Ok(Step::Normal(fin));
        }
        proof {
            assert(cx1.tm()[n as int] == cx0.tm()[n as int]);
            assert(cx1.tm()[operand as int] == cx0.tm()[operand as int]);
        }
        let e = match node {
            Node::Extract(_, lo) => self.c_extract(cx, x2, lo, w)?,
            Node::Bin(op, a, b) => {
                proof {
                    assert(cx1.tm()[a as int] == cx0.tm()[a as int]);
                    assert(cx1.tm()[b as int] == cx0.tm()[b as int]);
                }
                let p = if a == operand {
                    x2
                } else {
                    a
                };
                let q = if b == operand {
                    x2
                } else {
                    b
                };
                self.c_bin(cx, op, p, q)?
            },
            _ => n,
        };
        proof {
            assert(cx.tm()[n as int] == cx0.tm()[n as int]);
            assert forall|env: Env|
                #![trigger term::value(cx.tm()[n as int], env)]
                #![trigger term::value(cx.tm()[e as int], env)]
                fin.rel.admits(h, env) implies term::value(cx.tm()[n as int], env) == term::value(
                cx.tm()[e as int],
                env,
            ) by {
                let s = cx0.val(operand as int, env);
                let s2 = cx1.val(x2 as int, env);
                assert(agree(s2, s, mask@));
                match node {
                    Node::Extract(a, lo) => {
                        let u = s2.subrange(lo as int, lo + w);
                        let t = s.subrange(lo as int, lo + w);
                        assert forall|i: int| 0 <= i < w implies #[trigger] u[i] == t[i] by {
                            assert(mask@[lo + i]);
                        }
                        assert(u =~= t);
                        assert(cx.val(e as int, env) == s2.subrange(lo as int, lo + w));
                    },
                    Node::Bin(op, a, b) => {
                        lemma_observed(op, cx0, cx1, *cx, n, operand, x2, e, mask@, env, a, b);
                    },
                    _ => {},
                }
            }
        }
        self.finish(cx, PassKind::Demanded, n, e, before, &st.stops, fin)
    }
}

/// The bits `[lo, lo + n)` of `w`.
fn window(w: usize, lo: usize, n: usize) -> (r: BitVec)
    requires
        lo + n <= w,
    ensures
        r@.len() == w,
        forall|i: int| 0 <= i < w ==> #[trigger] r@[i] == (lo <= i < lo + n),
{
    let mut v: Vec<bool> = Vec::with_capacity(w);
    let mut i: usize = 0;
    while i < w
        invariant
            i <= w,
            lo + n <= w,
            v@.len() == i,
            forall|j: int| 0 <= j < i ==> #[trigger] v@[j] == (lo <= j < lo + n),
        decreases w - i,
    {
        v.push(lo <= i && i < lo + n);
        i = i + 1;
    }
    BitVec::from_bools(v)
}

/// A node observes only the bits of its mask.
proof fn lemma_observed(
    op: BinOp,
    cx0: Context,
    cx1: Context,
    cx: Context,
    n: u32,
    operand: u32,
    x2: u32,
    e: u32,
    m: Seq<bool>,
    env: Env,
    a: u32,
    b: u32,
)
    requires
        cx0.wf(),
        n < cx0.n(),
        cx0.nodes@[n as int] == Node::Bin(op, a, b),
        cx1.grew(&cx0),
        x2 < cx1.n(),
        agree(cx1.val(x2 as int, env), cx0.val(operand as int, env), m),
        cx.val(e as int, env) == ops::bin_value(
            op,
            cx1.val(
                (if a == operand {
                    x2
                } else {
                    a
                }) as int,
                env,
            ),
            cx1.val(
                (if b == operand {
                    x2
                } else {
                    b
                }) as int,
                env,
            ),
        ),
        observes(op, cx0, operand, a, b, m),
    ensures
        cx.val(e as int, env) == cx0.val(n as int, env),
{
    assert(cx0.ok_at(n as int));
    assert(cx0.ok_at(a as int));
    assert(cx0.ok_at(b as int));
    assert(cx1.tm()[a as int] == cx0.tm()[a as int]);
    assert(cx1.tm()[b as int] == cx0.tm()[b as int]);
    let s = cx0.val(operand as int, env);
    let s2 = cx1.val(x2 as int, env);
    let r = cx.val(e as int, env);
    let r0 = cx0.val(n as int, env);
    assert forall|i: int| 0 <= i < m.len() implies r[i] == r0[i] by {
        let _ = m[i];
        if op == BinOp::Shl || op == BinOp::LShr {
            let k = bits::nat_of(cx0.val(b as int, env));
            if op == BinOp::Shl && i >= k {
                let _ = m[i - k];
            }
            if op == BinOp::LShr && i + k < m.len() {
                let _ = m[i + k];
            }
        }
    }
    assert(r =~= r0);
}

/// The operator reads only the bits of `m` of its operand `x`.
spec fn observes(op: BinOp, cx: Context, x: u32, a: u32, b: u32, m: Seq<bool>) -> bool {
    match op {
        BinOp::And => (x == a && b != x && cx.tm()[b as int] == Term::Const(m)) || (x == b && a != x
            && cx.tm()[a as int] == Term::Const(m)),
        BinOp::Or => (x == a && b != x && cx.tm()[b as int] == Term::Const(ops::not_bits(m))) || (x == b
            && a != x && cx.tm()[a as int] == Term::Const(ops::not_bits(m))),
        BinOp::Shl => x == a && b != x && exists|k: Seq<bool>|
            cx.tm()[b as int] == Term::Const(k) && m == #[trigger] ops::shr_bits(
                bits::ones(m.len()),
                bits::nat_of(k),
                false,
            ),
        BinOp::LShr => x == a && b != x && exists|k: Seq<bool>|
            cx.tm()[b as int] == Term::Const(k) && m == #[trigger] ops::shl_bits(
                bits::ones(m.len()),
                bits::nat_of(k),
            ),
        _ => false,
    }
}

} // verus!
