//! What rules mean: the value of every node of a rule at given widths and parameters, and when
//! a rule is sound.

use vstd::prelude::*;
use crate::rules::rule;
use crate::ops;
use crate::bits;
use crate::bitvec::{BitVec, MAX_WIDTH};
use crate::ops::{CmpOp, CmpOpExt, UnOp};
use crate::rules::rule::{ConstPred, FactPred, RNode, Rule, WExpr, WRel, Where};

verus! {

/// The low `k` bits set, of `w`.
pub open spec fn low_mask(k: int, w: nat) -> Seq<bool> {
    Seq::new(w, |i: int| i < k)
}

/// What a predicate about facts claims of the values.
pub open spec fn fact_true(p: FactPred, a: Seq<bool>, b: Option<Seq<bool>>) -> bool {
    match (p, b) {
        (FactPred::Proves, _) => a.len() > 0 && a[0],
        (FactPred::NonZero, _) => a != bits::zeros(a.len()),
        (FactPred::ZeroBits, Some(m)) => ops::and_bits(a, m) == bits::zeros(a.len()),
        (FactPred::OneBits, Some(m)) => ops::and_bits(a, m) == m,
        (FactPred::Disjoint, Some(m)) => ops::and_bits(a, m) == bits::zeros(a.len()),
        _ => false,
    }
}

/// Bit `i` is set exactly in the run of `n` bits from `lo`.
pub open spec fn is_run(a: Seq<bool>, lo: int, n: int) -> bool {
    &&& 0 <= lo
    &&& 1 <= n
    &&& lo + n <= a.len()
    &&& forall|i: int| 0 <= i < a.len() ==> #[trigger] a[i] == (lo <= i < lo + n)
}

/// What a predicate about a constant claims of its value.
pub open spec fn const_true(p: ConstPred, a: Seq<bool>) -> bool {
    match p {
        ConstPred::IsPow2 => exists|lo: int| is_run(a, lo, 1),
        ConstPred::IsLowMask => exists|n: int| is_run(a, 0, n),
        ConstPred::IsShiftedMask => exists|lo: int, n: int| is_run(a, lo, n),
    }
}

/// The value of node `k` of a rule at widths `ws` and parameter values `ps`; a truth value is
/// one bit.
pub open spec fn rvalue(r: Rule, k: int, ws: Seq<u16>, ps: Seq<Seq<bool>>) -> Seq<bool>
    decreases k,
{
    let w = r.widths@[k].at(ws) as nat;
    if k < 0 {
        seq![]
    } else {
        match r.nodes@[k] {
            RNode::Param(i) => ps[i as int],
            RNode::Lit(v) => bits::bits_of(v as int, w),
            RNode::Ones => bits::ones(w),
            RNode::LowMask(e) => low_mask(e.at(ws), w),
            RNode::WidthVal(e) => bits::bits_of(e.at(ws), w),
            RNode::Let(i) => if r.lets@[i as int] < k {
                rvalue(r, r.lets@[i as int] as int, ws, ps)
            } else {
                seq![]
            },
            RNode::Un(op, a) => if a < k {
                ops::un_value(op, rvalue(r, a as int, ws, ps))
            } else {
                seq![]
            },
            RNode::Bin(op, a, b) => if a < k && b < k {
                ops::bin_value(op, rvalue(r, a as int, ws, ps), rvalue(r, b as int, ws, ps))
            } else {
                seq![]
            },
            RNode::Cmp(op, a, b) => if a < k && b < k {
                ops::bool_bits(
                    ops::holds_ext(op, rvalue(r, a as int, ws, ps), rvalue(r, b as int, ws, ps)),
                )
            } else {
                seq![]
            },
            RNode::Zext(a) => if a < k {
                ops::zext_bits(rvalue(r, a as int, ws, ps), w)
            } else {
                seq![]
            },
            RNode::Sext(a) => if a < k {
                ops::sext_bits(rvalue(r, a as int, ws, ps), w)
            } else {
                seq![]
            },
            RNode::Extract(e, a) => if a < k {
                rvalue(r, a as int, ws, ps).subrange(e.at(ws), e.at(ws) + w)
            } else {
                seq![]
            },
            RNode::Concat(h, l) => if h < k && l < k {
                rvalue(r, l as int, ws, ps) + rvalue(r, h as int, ws, ps)
            } else {
                seq![]
            },
            RNode::Select(c, t, f) => if c < k && t < k && f < k {
                if rvalue(r, c as int, ws, ps)[0] {
                    rvalue(r, t as int, ws, ps)
                } else {
                    rvalue(r, f as int, ws, ps)
                }
            } else {
                seq![]
            },
            RNode::Bool(b) => ops::bool_bits(b),
            RNode::And(a, b) => if a < k && b < k {
                ops::bool_bits(rvalue(r, a as int, ws, ps)[0] && rvalue(r, b as int, ws, ps)[0])
            } else {
                seq![]
            },
            RNode::Or(a, b) => if a < k && b < k {
                ops::bool_bits(rvalue(r, a as int, ws, ps)[0] || rvalue(r, b as int, ws, ps)[0])
            } else {
                seq![]
            },
            RNode::Fact(p, a, b) => if a < k {
                match b {
                    Some(m) => if m < k {
                        ops::bool_bits(
                            fact_true(
                                p,
                                rvalue(r, a as int, ws, ps),
                                Some(rvalue(r, m as int, ws, ps)),
                            ),
                        )
                    } else {
                        seq![]
                    },
                    None => ops::bool_bits(fact_true(p, rvalue(r, a as int, ws, ps), None)),
                }
            } else {
                seq![]
            },
            RNode::ConstP(p, a) => if a < k {
                ops::bool_bits(const_true(p, rvalue(r, a as int, ws, ps)))
            } else {
                seq![]
            },
        }
    }
}

/// The parts of node `k` are there: operands before it, widths over the rule's variables.
pub open spec fn node_ok(r: Rule, k: int) -> bool {
    let n = r.width_vars@.len();
    &&& r.widths@[k].fits(n)
    &&& match r.nodes@[k] {
        RNode::Param(i) => i < r.params@.len(),
        RNode::Lit(_) => true,
        RNode::Ones => true,
        RNode::LowMask(e) => e.fits(n),
        RNode::WidthVal(e) => e.fits(n),
        RNode::Let(i) => i < r.lets@.len() && r.lets@[i as int] < k,
        RNode::Un(_, a) => a < k,
        RNode::Bin(_, a, b) => a < k && b < k,
        RNode::Cmp(_, a, b) => a < k && b < k,
        RNode::Zext(a) => a < k,
        RNode::Sext(a) => a < k,
        RNode::Extract(e, a) => e.fits(n) && a < k,
        RNode::Concat(h, l) => h < k && l < k,
        RNode::Select(c, t, f) => c < k && t < k && f < k,
        RNode::Bool(_) => true,
        RNode::And(a, b) => a < k && b < k,
        RNode::Or(a, b) => a < k && b < k,
        RNode::Fact(_, a, b) => a < k && (b matches Some(m) ==> m < k),
        RNode::ConstP(_, a) => a < k,
    }
}

/// The parts of a rule are there.
pub open spec fn rule_ok(r: Rule) -> bool {
    let n = r.width_vars@.len();
    &&& r.nodes@.len() == r.widths@.len()
    &&& r.nodes@.len() < u32::MAX
    &&& r.params@.len() <= u16::MAX
    &&& n <= 8
    &&& r.lhs < r.nodes@.len()
    &&& r.rhs < r.nodes@.len()
    &&& r.guard matches Some(g) ==> g < r.nodes@.len()
    &&& forall|k: int| 0 <= k < r.nodes@.len() ==> #[trigger] node_ok(r, k)
    &&& forall|i: int| 0 <= i < r.lets@.len() ==> #[trigger] r.lets@[i] < r.nodes@.len()
    &&& forall|i: int| 0 <= i < r.params@.len() ==> (#[trigger] r.params@[i]).width.fits(n)
    &&& forall|i: int|
        #![trigger r.wheres@[i]]
        0 <= i < r.wheres@.len() ==> r.wheres@[i].left.fits(n) && r.wheres@[i].right.fits(n)
}

/// The width of node `k`.
pub open spec fn wat(r: Rule, k: int, ws: Seq<u16>) -> int {
    r.widths@[k].at(ws)
}

/// The widths at node `k` fit together.
pub open spec fn typed_at(r: Rule, k: int, ws: Seq<u16>) -> bool {
    let w = wat(r, k, ws);
    &&& 1 <= w <= MAX_WIDTH
    &&& match r.nodes@[k] {
        RNode::Param(i) => r.params@[i as int].width.at(ws) == w,
        RNode::Lit(_) => true,
        RNode::Ones => true,
        RNode::LowMask(_) => true,
        RNode::WidthVal(_) => true,
        RNode::Let(i) => wat(r, r.lets@[i as int] as int, ws) == w,
        RNode::Un(op, a) => wat(r, a as int, ws) == w && (op == UnOp::Bswap ==> w % 8 == 0),
        RNode::Bin(_, a, b) => wat(r, a as int, ws) == w && wat(r, b as int, ws) == w,
        RNode::Cmp(_, a, b) => w == 1 && wat(r, a as int, ws) == wat(r, b as int, ws),
        RNode::Zext(a) => wat(r, a as int, ws) < w,
        RNode::Sext(a) => wat(r, a as int, ws) < w,
        RNode::Extract(e, a) => 0 <= e.at(ws) && e.at(ws) + w <= wat(r, a as int, ws),
        RNode::Concat(h, l) => wat(r, h as int, ws) + wat(r, l as int, ws) == w,
        RNode::Select(c, t, f) => wat(r, c as int, ws) == 1 && wat(r, t as int, ws) == w && wat(
            r,
            f as int,
            ws,
        ) == w,
        RNode::Bool(_) => w == 1,
        RNode::And(a, b) => w == 1 && wat(r, a as int, ws) == 1 && wat(r, b as int, ws) == 1,
        RNode::Or(a, b) => w == 1 && wat(r, a as int, ws) == 1 && wat(r, b as int, ws) == 1,
        RNode::Fact(p, a, b) => w == 1 && (p == FactPred::Proves ==> wat(r, a as int, ws) == 1) && (
        b matches Some(m) ==> wat(r, m as int, ws) == wat(r, a as int, ws)),
        RNode::ConstP(_, a) => w == 1,
    }
}

/// The widths of a rule fit together.
pub open spec fn typed(r: Rule, ws: Seq<u16>) -> bool {
    &&& ws.len() == r.width_vars@.len()
    &&& forall|k: int| 0 <= k < r.nodes@.len() ==> #[trigger] typed_at(r, k, ws)
    &&& wat(r, r.lhs as int, ws) == wat(r, r.rhs as int, ws)
    &&& r.guard matches Some(g) ==> wat(r, g as int, ws) == 1
}

/// A `where` constraint holds.
pub open spec fn where_holds(c: Where, ws: Seq<u16>) -> bool {
    match c.rel {
        WRel::Lt => c.left.at(ws) < c.right.at(ws),
        WRel::Le => c.left.at(ws) <= c.right.at(ws),
        WRel::Eq => c.left.at(ws) == c.right.at(ws),
    }
}

/// The `where` constraints hold.
pub open spec fn wheres_hold(r: Rule, ws: Seq<u16>) -> bool {
    forall|i: int| 0 <= i < r.wheres@.len() ==> where_holds(#[trigger] r.wheres@[i], ws)
}

/// The parameters have their widths.
pub open spec fn params_fit(r: Rule, ws: Seq<u16>, ps: Seq<Seq<bool>>) -> bool {
    &&& ps.len() == r.params@.len()
    &&& forall|i: int|
        #![trigger ps[i]]
        0 <= i < ps.len() ==> ps[i].len() == r.params@[i].width.at(ws)
}

/// The guard holds of the values.
pub open spec fn guard_true(r: Rule, ws: Seq<u16>, ps: Seq<Seq<bool>>) -> bool {
    r.guard matches Some(g) ==> rvalue(r, g as int, ws, ps)[0]
}

/// The two sides of a rule have one value at given widths and parameters, if the guard holds.
pub open spec fn sides_agree(r: Rule, ws: Seq<u16>, ps: Seq<Seq<bool>>) -> bool {
    guard_true(r, ws, ps) ==> rvalue(r, r.lhs as int, ws, ps) == rvalue(r, r.rhs as int, ws, ps)
}

/// The two sides of a rule have one value wherever its guard holds.
pub open spec fn rule_sound(r: Rule) -> bool {
    forall|ws: Seq<u16>, ps: Seq<Seq<bool>>|
        typed(r, ws) && wheres_hold(r, ws) && params_fit(r, ws, ps) ==> #[trigger] sides_agree(
            r,
            ws,
            ps,
        )
}

/// Every node has the width it says.
pub proof fn lemma_rvalue_len(r: Rule, k: int, ws: Seq<u16>, ps: Seq<Seq<bool>>)
    requires
        rule_ok(r),
        typed(r, ws),
        params_fit(r, ws, ps),
        0 <= k < r.nodes@.len(),
    ensures
        rvalue(r, k, ws, ps).len() == wat(r, k, ws),
    decreases k,
{
    assert(node_ok(r, k));
    assert(typed_at(r, k, ws));
    match r.nodes@[k] {
        RNode::Param(i) => {
            let _ = ps[i as int];
        },
        RNode::Let(i) => {
            lemma_rvalue_len(r, r.lets@[i as int] as int, ws, ps);
        },
        RNode::Un(op, a) => {
            lemma_rvalue_len(r, a as int, ws, ps);
            ops::lemma_un_len(op, rvalue(r, a as int, ws, ps));
        },
        RNode::Bin(op, a, b) => {
            lemma_rvalue_len(r, a as int, ws, ps);
            lemma_rvalue_len(r, b as int, ws, ps);
            ops::lemma_bin_len(op, rvalue(r, a as int, ws, ps), rvalue(r, b as int, ws, ps));
        },
        RNode::Extract(e, a) => {
            lemma_rvalue_len(r, a as int, ws, ps);
        },
        RNode::Concat(h, l) => {
            lemma_rvalue_len(r, h as int, ws, ps);
            lemma_rvalue_len(r, l as int, ws, ps);
        },
        RNode::Select(c, t, f) => {
            lemma_rvalue_len(r, t as int, ws, ps);
            lemma_rvalue_len(r, f as int, ws, ps);
        },
        _ => {},
    }
}

impl Where {
    /// Whether the constraint holds at widths `ws`.
    pub fn holds_at(&self, ws: &Vec<u16>) -> (r: bool)
        requires
            self.left.fits(ws@.len()),
            self.right.fits(ws@.len()),
        ensures
            r == where_holds(*self, ws@),
    {
        let a = self.left.eval(ws);
        let b = self.right.eval(ws);
        match self.rel {
            WRel::Lt => a < b,
            WRel::Le => a <= b,
            WRel::Eq => a == b,
        }
    }
}

/// Whether `v`'s set bits are one run: its lowest bit and how many.
pub(crate) fn run_of(v: &BitVec) -> (r: Option<(usize, usize)>)
    ensures
        r matches Some((lo, n)) ==> is_run(v@, lo as int, n as int),
        r is None ==> forall|lo: int, n: int| !is_run(v@, lo, n),
{
    let w = v.len();
    let mut lo: usize = 0;
    while lo < w && !v.at(lo)
        invariant
            lo <= w == v@.len(),
            forall|i: int| 0 <= i < lo ==> !(#[trigger] v@[i]),
        decreases w - lo,
    {
        lo = lo + 1;
    }
    if lo == w {
        assert forall|l: int, n: int| !is_run(v@, l, n) by {
            if is_run(v@, l, n) {
                assert(v@[l]);
            }
        }
        return None;
    }
    let mut hi: usize = lo;
    while hi < w && v.at(hi)
        invariant
            lo <= hi <= w == v@.len(),
            forall|i: int| lo <= i < hi ==> #[trigger] v@[i],
        decreases w - hi,
    {
        hi = hi + 1;
    }
    let mut i: usize = hi;
    while i < w
        invariant
            lo < hi <= i <= w == v@.len(),
            v@[lo as int],
            hi < w ==> !v@[hi as int],
            forall|j: int| 0 <= j < lo ==> !(#[trigger] v@[j]),
            forall|j: int| hi <= j < i ==> !(#[trigger] v@[j]),
        decreases w - i,
    {
        if v.at(i) {
            assert forall|l: int, n: int| !is_run(v@, l, n) by {
                if is_run(v@, l, n) {
                    assert(v@[lo as int]);
                    assert(v@[i as int]);
                    assert(!v@[hi as int]);
                }
            }
            return None;
        }
        i = i + 1;
    }
    Some((lo, hi - lo))
}

/// Whether a predicate about a constant holds.
pub(crate) fn const_pred(p: ConstPred, v: &BitVec) -> (r: bool)
    ensures
        r == const_true(p, v@),
{
    let run = run_of(v);
    proof {
        if let Some((lo, n)) = run {
            assert forall|l: int, m: int| is_run(v@, l, m) implies l == lo && m == n by {
                assert(v@[l]);
                assert(v@[l + m - 1]);
                assert(v@[lo as int]);
                assert(v@[lo + n - 1]);
                assert(!(l < lo) && !(lo < l));
                if m < n {
                    assert(v@[lo + m]);
                } else if m > n {
                    assert(v@[l + n]);
                }
            }
            assert(is_run(v@, lo as int, n as int));
        }
    }
    match (p, run) {
        (_, None) => false,
        (ConstPred::IsPow2, Some((_, n))) => n == 1,
        (ConstPred::IsLowMask, Some((lo, _))) => lo == 0,
        (ConstPred::IsShiftedMask, Some(_)) => true,
    }
}

/// Whether a predicate about facts is true of the values.
pub(crate) fn fact_pred(p: FactPred, a: &BitVec, b: Option<&BitVec>) -> (r: bool)
    requires
        b matches Some(m) ==> m@.len() == a@.len(),
    ensures
        r == fact_true(
            p,
            a@,
            match b {
                Some(m) => Some(m@),
                None => None,
            },
        ),
{
    match (p, b) {
        (FactPred::Proves, _) => a.len() > 0 && a.at(0),
        (FactPred::NonZero, _) => !a.is_zero(),
        (FactPred::ZeroBits, Some(m)) => a.and(m).is_zero(),
        (FactPred::OneBits, Some(m)) => a.and(m).same(m),
        (FactPred::Disjoint, Some(m)) => a.and(m).is_zero(),
        _ => false,
    }
}

/// Whether a comparison as asked for holds.
pub(crate) fn apply_ext(op: CmpOpExt, a: &BitVec, b: &BitVec) -> (r: bool)
    requires
        a@.len() == b@.len(),
        a@.len() >= 1,
    ensures
        r == ops::holds_ext(op, a@, b@),
{
    match op {
        CmpOpExt::Eq => BitVec::apply_rel(CmpOp::Eq, a, b),
        CmpOpExt::Ne => BitVec::apply_rel(CmpOp::Ne, a, b),
        CmpOpExt::Ult => BitVec::apply_rel(CmpOp::Ult, a, b),
        CmpOpExt::Ule => BitVec::apply_rel(CmpOp::Ule, a, b),
        CmpOpExt::Ugt => BitVec::apply_rel(CmpOp::Ult, b, a),
        CmpOpExt::Uge => BitVec::apply_rel(CmpOp::Ule, b, a),
        CmpOpExt::Slt => BitVec::apply_rel(CmpOp::Slt, a, b),
        CmpOpExt::Sle => BitVec::apply_rel(CmpOp::Sle, a, b),
        CmpOpExt::Sgt => BitVec::apply_rel(CmpOp::Slt, b, a),
        CmpOpExt::Sge => BitVec::apply_rel(CmpOp::Sle, b, a),
    }
}

impl Rule {
    /// Whether the parts of node `k` are there.
    fn node_parts(&self, k: usize) -> (b: bool)
        requires
            self.nodes@.len() == self.widths@.len(),
            k < self.nodes@.len() < u32::MAX,
        ensures
            b == node_ok(*self, k as int),
    {
        let n = self.width_vars.len();
        let kk: u32 = k as u32;
        if !self.widths[k].small(n) {
            return false;
        }
        match &self.nodes[k] {
            RNode::Param(i) => (*i as usize) < self.params.len(),
            RNode::Lit(_) => true,
            RNode::Ones => true,
            RNode::LowMask(e) => e.small(n),
            RNode::WidthVal(e) => e.small(n),
            RNode::Let(i) => (*i as usize) < self.lets.len() && self.lets[*i as usize] < kk,
            RNode::Un(_, a) => *a < kk,
            RNode::Bin(_, a, b) => *a < kk && *b < kk,
            RNode::Cmp(_, a, b) => *a < kk && *b < kk,
            RNode::Zext(a) => *a < kk,
            RNode::Sext(a) => *a < kk,
            RNode::Extract(e, a) => e.small(n) && *a < kk,
            RNode::Concat(h, l) => *h < kk && *l < kk,
            RNode::Select(c, t, f) => *c < kk && *t < kk && *f < kk,
            RNode::Bool(_) => true,
            RNode::And(a, b) => *a < kk && *b < kk,
            RNode::Or(a, b) => *a < kk && *b < kk,
            RNode::Fact(_, a, b) => {
                *a < kk && match b {
                    Some(m) => *m < kk,
                    None => true,
                }
            },
            RNode::ConstP(_, a) => *a < kk,
        }
    }

    /// Whether the parts of the rule are there.
    pub fn valid(&self) -> (b: bool)
        ensures
            b == rule_ok(*self),
    {
        let n = self.width_vars.len();
        if self.nodes.len() != self.widths.len() || self.nodes.len() >= u32::MAX as usize
            || self.params.len() > u16::MAX as usize || n > 8 {
            return false;
        }
        if self.lhs as usize >= self.nodes.len() || self.rhs as usize >= self.nodes.len() {
            return false;
        }
        if let Some(g) = self.guard {
            if g as usize >= self.nodes.len() {
                return false;
            }
        }
        let mut k: usize = 0;
        while k < self.nodes.len()
            invariant
                self.nodes@.len() == self.widths@.len(),
                self.nodes@.len() < u32::MAX,
                k <= self.nodes@.len(),
                forall|j: int| 0 <= j < k ==> #[trigger] node_ok(*self, j),
            decreases self.nodes@.len() - k,
        {
            if !self.node_parts(k) {
                return false;
            }
            k = k + 1;
        }
        k = 0;
        while k < self.lets.len()
            invariant
                k <= self.lets@.len(),
                self.nodes@.len() < u32::MAX,
                forall|i: int| 0 <= i < k ==> #[trigger] self.lets@[i] < self.nodes@.len(),
            decreases self.lets@.len() - k,
        {
            if self.lets[k] as usize >= self.nodes.len() {
                assert(!(self.lets@[k as int] < self.nodes@.len()));
                return false;
            }
            k = k + 1;
        }
        k = 0;
        while k < self.params.len()
            invariant
                k <= self.params@.len(),
                n == self.width_vars@.len(),
                forall|i: int| 0 <= i < k ==> (#[trigger] self.params@[i]).width.fits(n as nat),
            decreases self.params@.len() - k,
        {
            if !self.params[k].width.small(n) {
                assert(!self.params@[k as int].width.fits(n as nat));
                return false;
            }
            k = k + 1;
        }
        k = 0;
        while k < self.wheres.len()
            invariant
                k <= self.wheres@.len(),
                n == self.width_vars@.len(),
                forall|i: int|
                    #![trigger self.wheres@[i]]
                    0 <= i < k ==> self.wheres@[i].left.fits(n as nat) && self.wheres@[i].right.fits(
                        n as nat,
                    ),
            decreases self.wheres@.len() - k,
        {
            if !self.wheres[k].left.small(n) || !self.wheres[k].right.small(n) {
                let _ = self.wheres[k].rel;
                return false;
            }
            k = k + 1;
        }
        true
    }

    /// Whether the widths at node `k` fit together.
    fn node_typed(&self, k: usize, ws: &Vec<u16>) -> (b: bool)
        requires
            rule_ok(*self),
            ws@.len() == self.width_vars@.len(),
            k < self.nodes@.len(),
        ensures
            b == typed_at(*self, k as int, ws@),
    {
        proof {
            assert(node_ok(*self, k as int));
        }
        let w: i64 = self.wid(k as u32, ws);
        if w < 1 || w > MAX_WIDTH as i64 {
            return false;
        }
        match &self.nodes[k] {
            RNode::Param(i) => {
                let _ = self.params[*i as usize].kind;
                self.params[*i as usize].width.eval(ws) == w
            },
            RNode::Lit(_) => true,
            RNode::Ones => true,
            RNode::LowMask(_) => true,
            RNode::WidthVal(_) => true,
            RNode::Let(i) => self.wid(self.lets[*i as usize], ws) == w,
            RNode::Un(op, a) => self.wid(*a, ws) == w && (*op != UnOp::Bswap || w % 8 == 0),
            RNode::Bin(_, a, b) => self.wid(*a, ws) == w && self.wid(*b, ws) == w,
            RNode::Cmp(_, a, b) => w == 1 && self.wid(*a, ws) == self.wid(*b, ws),
            RNode::Zext(a) => self.wid(*a, ws) < w,
            RNode::Sext(a) => self.wid(*a, ws) < w,
            RNode::Extract(e, a) => {
                let lo: i64 = e.eval(ws);
                let x: i64 = self.wid(*a, ws);
                0 <= lo && lo <= x && w <= x - lo
            },
            RNode::Concat(h, l) => {
                let x: i64 = self.wid(*h, ws);
                let y: i64 = self.wid(*l, ws);
                w - x == y
            },
            RNode::Select(c, t, f) => self.wid(*c, ws) == 1 && self.wid(*t, ws) == w && self.wid(
                *f,
                ws,
            ) == w,
            RNode::Bool(_) => w == 1,
            RNode::And(a, b) => w == 1 && self.wid(*a, ws) == 1 && self.wid(*b, ws) == 1,
            RNode::Or(a, b) => w == 1 && self.wid(*a, ws) == 1 && self.wid(*b, ws) == 1,
            RNode::Fact(p, a, b) => {
                w == 1 && (*p != FactPred::Proves || self.wid(*a, ws) == 1) && match b {
                    Some(m) => self.wid(*m, ws) == self.wid(*a, ws),
                    None => true,
                }
            },
            RNode::ConstP(_, _) => w == 1,
        }
    }

    /// The width of node `k`.
    pub(crate) fn wid(&self, k: u32, ws: &Vec<u16>) -> (r: i64)
        requires
            rule_ok(*self),
            ws@.len() == self.width_vars@.len(),
            k < self.nodes@.len(),
        ensures
            r == wat(*self, k as int, ws@),
            -0x100_0000_0000 <= r <= 0x100_0000_0000,
    {
        proof {
            assert(node_ok(*self, k as int));
            lemma_wat_bound(self.widths@[k as int], ws@);
        }
        self.widths[k as usize].eval(ws)
    }

    /// Whether the widths of the rule fit together.
    pub(crate) fn typed_at_widths(&self, ws: &Vec<u16>) -> (b: bool)
        requires
            rule_ok(*self),
        ensures
            b == typed(*self, ws@),
    {
        if ws.len() != self.width_vars.len() {
            return false;
        }
        let mut k: usize = 0;
        while k < self.nodes.len()
            invariant
                rule_ok(*self),
                ws@.len() == self.width_vars@.len(),
                k <= self.nodes@.len(),
                forall|j: int| 0 <= j < k ==> #[trigger] typed_at(*self, j, ws@),
            decreases self.nodes@.len() - k,
        {
            if !self.node_typed(k, ws) {
                return false;
            }
            k = k + 1;
        }
        if self.wid(self.lhs, ws) != self.wid(self.rhs, ws) {
            return false;
        }
        match self.guard {
            Some(g) => self.wid(g, ws) == 1,
            None => true,
        }
    }

    /// Whether the `where` constraints hold.
    pub(crate) fn wheres_at(&self, ws: &Vec<u16>) -> (b: bool)
        requires
            rule_ok(*self),
            ws@.len() == self.width_vars@.len(),
        ensures
            b == wheres_hold(*self, ws@),
    {
        let mut i: usize = 0;
        while i < self.wheres.len()
            invariant
                rule_ok(*self),
                ws@.len() == self.width_vars@.len(),
                i <= self.wheres@.len(),
                forall|j: int| 0 <= j < i ==> where_holds(#[trigger] self.wheres@[j], ws@),
            decreases self.wheres@.len() - i,
        {
            let c = &self.wheres[i];
            assert(*c == self.wheres@[i as int]);
            if !c.holds_at(ws) {
                return false;
            }
            i = i + 1;
        }
        true
    }
}

/// A width is not large.
pub proof fn lemma_wat_bound(e: WExpr, ws: Seq<u16>)
    requires
        e.fits(ws.len()),
    ensures
        -0x100_0000_0000 <= e.at(ws) <= 0x100_0000_0000,
{
    lemma_wsum_bound(e.coefs@, ws, e.coefs@.len() as int);
}

proof fn lemma_wsum_bound(coefs: Seq<i64>, ws: Seq<u16>, n: int)
    requires
        0 <= n <= coefs.len(),
        coefs.len() == ws.len(),
        forall|i: int| 0 <= i < coefs.len() ==> -0x10_0000 <= #[trigger] coefs[i] <= 0x10_0000,
    ensures
        -n * 0x10_0000 * 0x1_0000 <= rule::wsum(coefs, ws, n) <= n * 0x10_0000 * 0x1_0000,
    decreases n,
{
    if n > 0 {
        lemma_wsum_bound(coefs, ws, n - 1);
        let c = coefs[n - 1] as int;
        let w = ws[n - 1] as int;
        assert(-0x10_0000 * 0x1_0000 <= c * w <= 0x10_0000 * 0x1_0000) by (nonlinear_arith)
            requires
                -0x10_0000 <= c <= 0x10_0000,
                0 <= w < 0x1_0000,
        ;
    }
}

impl WExpr {
    /// Whether the coefficients are small, and there is one for each of `n` variables.
    pub(crate) fn small(&self, n: usize) -> (b: bool)
        ensures
            b == self.fits(n as nat),
    {
        if self.coefs.len() != n || n > 8 || self.konst < -0x10_0000 || self.konst > 0x10_0000 {
            return false;
        }
        let mut i: usize = 0;
        while i < n
            invariant
                i <= n == self.coefs@.len(),
                forall|j: int| 0 <= j < i ==> -0x10_0000 <= #[trigger] self.coefs@[j] <= 0x10_0000,
            decreases n - i,
        {
            if self.coefs[i] < -0x10_0000 || self.coefs[i] > 0x10_0000 {
                assert(!(-0x10_0000 <= self.coefs@[i as int] <= 0x10_0000));
                return false;
            }
            i = i + 1;
        }
        true
    }
}

} // verus!
