//! Evaluating rules at given widths and parameters.

use vstd::prelude::*;
use crate::rules::meaning;
use crate::ops;
use crate::modular;
use crate::bits;
use crate::bitvec::{BitVec, Width, MAX_WIDTH};
use crate::ops::UnOp;
use crate::rules::meaning::{apply_ext, const_pred, fact_pred};
use crate::rules::rule::{RNode, Rule};

verus! {

/// The values of bit vectors.
pub open spec fn views(vs: Seq<BitVec>) -> Seq<Seq<bool>> {
    Seq::new(vs.len(), |i: int| vs[i]@)
}

/// A number at a width.
pub(crate) fn number(w: usize, x: i64) -> (r: BitVec)
    requires
        1 <= w <= MAX_WIDTH,
    ensures
        r@ == bits::bits_of(x as int, w as nat),
{
    if x >= 0 {
        BitVec::from_u64(w, x as u64)
    } else {
        // -x = ~(x - 1): the complement of a number that is not negative.
        let y: u64 = (-(x + 1)) as u64;
        let v = BitVec::from_u64(w, y);
        let r = v.not();
        proof {
            lemma_not_number(y as int, w as nat);
        }
        r
    }
}

/// The complement of a number is minus that number, minus one.
proof fn lemma_not_number(y: int, w: nat)
    ensures
        ops::not_bits(bits::bits_of(y, w)) == bits::bits_of(-y - 1, w),
{
    let a = bits::bits_of(y, w);
    modular::lemma_eqm_un(a);
    modular::lemma_eqm_nat(y, w);
    modular::lemma_eqm_sub(-1, -1, modular::num(a), y, w);
    assert(-1 - modular::num(a) == -modular::num(a) - 1);
    assert(-1 - y == -y - 1);
    assert(ops::un_value(UnOp::Not, a) == ops::not_bits(a));
    modular::lemma_eqm_value(ops::not_bits(a), -y - 1);
}

/// The low `k` bits set, of `w`.
pub(crate) fn mask_value(k: i64, w: usize) -> (r: BitVec)
    requires
        1 <= w <= MAX_WIDTH,
    ensures
        r@ == meaning::low_mask(k as int, w as nat),
{
    let mut v: Vec<bool> = Vec::with_capacity(w);
    let mut i: usize = 0;
    while i < w
        invariant
            i <= w <= MAX_WIDTH,
            v@.len() == i,
            forall|j: int| 0 <= j < i ==> #[trigger] v@[j] == (j < k),
        decreases w - i,
    {
        v.push((i as i64) < k);
        i = i + 1;
    }
    let r = BitVec::from_bools(v);
    assert(r@ =~= meaning::low_mask(k as int, w as nat));
    r
}

impl Rule {
    /// The value of node `k` from those of the nodes before it.
    fn value_at(&self, k: usize, ws: &Vec<u16>, ps: &Vec<BitVec>, vs: &Vec<BitVec>) -> (r: BitVec)
        requires
            meaning::rule_ok(*self),
            meaning::typed(*self, ws@),
            meaning::params_fit(*self, ws@, views(ps@)),
            k == vs@.len() < self.nodes@.len(),
            forall|j: int|
                0 <= j < k ==> (#[trigger] vs@[j])@ == meaning::rvalue(*self, j, ws@, views(ps@)),
        ensures
            r@ == meaning::rvalue(*self, k as int, ws@, views(ps@)),
    {
        let ghost pv = views(ps@);
        proof {
            assert(meaning::node_ok(*self, k as int));
            assert(meaning::typed_at(*self, k as int, ws@));
            assert forall|j: int| 0 <= j < k implies (#[trigger] vs@[j])@.len() == meaning::wat(
                *self,
                j,
                ws@,
            ) && 1 <= meaning::wat(*self, j, ws@) <= MAX_WIDTH by {
                meaning::lemma_rvalue_len(*self, j, ws@, pv);
                assert(meaning::typed_at(*self, j, ws@));
            }
        }
        let w: usize = self.wid(k as u32, ws) as usize;
        match &self.nodes[k] {
            RNode::Param(i) => {
                assert(pv[*i as int] == ps@[*i as int]@);
                ps[*i as usize].dup()
            },
            RNode::Lit(v) => number(w, *v),
            RNode::Ones => BitVec::ones(Width { bits: w as u16 }),
            RNode::LowMask(e) => mask_value(e.eval(ws), w),
            RNode::WidthVal(e) => number(w, e.eval(ws)),
            RNode::Let(i) => {
                let j: usize = self.lets[*i as usize] as usize;
                vs[j].dup()
            },
            RNode::Un(op, a) => BitVec::apply_un(*op, &vs[*a as usize]),
            RNode::Bin(op, a, b) => BitVec::apply_bin(*op, &vs[*a as usize], &vs[*b as usize]),
            RNode::Cmp(op, a, b) => {
                BitVec::from_bool(apply_ext(*op, &vs[*a as usize], &vs[*b as usize]))
            },
            RNode::Zext(a) => vs[*a as usize].zext(w),
            RNode::Sext(a) => vs[*a as usize].sext(w),
            RNode::Extract(e, a) => {
                let lo: usize = e.eval(ws) as usize;
                vs[*a as usize].extract(lo, w)
            },
            RNode::Concat(h, l) => vs[*h as usize].concat(&vs[*l as usize]),
            RNode::Select(c, t, f) => {
                if vs[*c as usize].at(0) {
                    vs[*t as usize].dup()
                } else {
                    vs[*f as usize].dup()
                }
            },
            RNode::Bool(b) => BitVec::from_bool(*b),
            RNode::And(a, b) => BitVec::from_bool(vs[*a as usize].at(0) && vs[*b as usize].at(0)),
            RNode::Or(a, b) => BitVec::from_bool(vs[*a as usize].at(0) || vs[*b as usize].at(0)),
            RNode::Fact(p, a, b) => {
                let x = &vs[*a as usize];
                let y = match b {
                    Some(m) => Some(&vs[*m as usize]),
                    None => None,
                };
                BitVec::from_bool(fact_pred(*p, x, y))
            },
            RNode::ConstP(p, a) => BitVec::from_bool(const_pred(*p, &vs[*a as usize])),
        }
    }

    /// The values of all nodes at widths `ws` and parameters `ps`.
    pub(crate) fn values(&self, ws: &Vec<u16>, ps: &Vec<BitVec>) -> (r: Vec<BitVec>)
        requires
            meaning::rule_ok(*self),
            meaning::typed(*self, ws@),
            meaning::params_fit(*self, ws@, views(ps@)),
        ensures
            r@.len() == self.nodes@.len(),
            forall|j: int|
                0 <= j < r@.len() ==> (#[trigger] r@[j])@ == meaning::rvalue(*self, j, ws@, views(ps@)),
    {
        let mut vs: Vec<BitVec> = Vec::with_capacity(self.nodes.len());
        let mut k: usize = 0;
        while k < self.nodes.len()
            invariant
                meaning::rule_ok(*self),
                meaning::typed(*self, ws@),
                meaning::params_fit(*self, ws@, views(ps@)),
                k == vs@.len() <= self.nodes@.len(),
                forall|j: int|
                    0 <= j < k ==> (#[trigger] vs@[j])@ == meaning::rvalue(*self, j, ws@, views(ps@)),
            decreases self.nodes@.len() - k,
        {
            let v = self.value_at(k, ws, ps, &vs);
            vs.push(v);
            k = k + 1;
        }
        vs
    }
}

} // verus!
