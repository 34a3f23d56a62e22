//! Steering random values toward a rule's guard.

use vstd::prelude::*;
use crate::ops;
use crate::rules::eval;
use crate::rules::meaning;
use crate::bitvec::BitVec;
use crate::check::random;
use crate::check::random::Rng;
use crate::bits;
use crate::ops::{BinOp, CmpOp};
use crate::rules::rule::{ConstPred, FactPred, RNode, Rule};

verus! {

/// The fact and constant predicates that a guard joins, the last first.
pub open spec fn joined(r: Rule, k: int) -> Seq<u32>
    decreases k,
{
    if k < 0 {
        seq![]
    } else {
        match r.nodes@[k] {
            RNode::And(a, b) | RNode::Or(a, b) => if a < k && b < k {
                joined(r, b as int) + joined(r, a as int)
            } else {
                seq![]
            },
            RNode::Fact(..) | RNode::ConstP(..) => seq![k as u32],
            _ => seq![],
        }
    }
}

/// The fact and constant predicates that a guard joins.
fn predicates(rule: &Rule, k: u32, out: &mut Vec<u32>)
    requires
        meaning::rule_ok(*rule),
        k < rule.nodes@.len(),
        forall|i: int| 0 <= i < old(out)@.len() ==> #[trigger] old(out)@[i] < rule.nodes@.len(),
    ensures
        forall|i: int| 0 <= i < final(out)@.len() ==> #[trigger] final(out)@[i] < rule.nodes@.len(),
        final(out)@ == old(out)@ + joined(*rule, k as int),
    decreases k,
{
    proof {
        assert(meaning::node_ok(*rule, k as int));
    }
    match &rule.nodes[k as usize] {
        RNode::And(a, b) | RNode::Or(a, b) => {
            predicates(rule, *b, out);
            predicates(rule, *a, out);
        },
        RNode::Fact(..) | RNode::ConstP(..) => {
            out.push(k);
        },
        _ => {},
    }
    assert(out@ =~= old(out)@ + joined(*rule, k as int));
}

/// The value next to `v` at which a comparison holds, or nearly does, with `v` on the other side.
pub open spec fn boundary(rel: CmpOp, left: bool, v: Seq<bool>) -> Seq<bool> {
    let one = bits::bits_of(1, v.len());
    match rel {
        CmpOp::Eq | CmpOp::Ule | CmpOp::Sle => v,
        CmpOp::Ne => ops::bin_value(BinOp::Add, v, one),
        _ => if left {
            ops::bin_value(BinOp::Sub, v, one)
        } else {
            ops::bin_value(BinOp::Add, v, one)
        },
    }
}

/// One side of a comparison is set from the other, at the boundary.
pub open spec fn side_set(
    r: Rule,
    ws: Seq<u16>,
    rel: CmpOp,
    l: int,
    q: int,
    left: bool,
    a: Seq<Seq<bool>>,
    b: Seq<Seq<bool>>,
) -> bool {
    let (at, other) = if left {
        (l, q)
    } else {
        (q, l)
    };
    let v = meaning::rvalue(r, other, ws, a);
    match r.nodes@[at] {
        RNode::Param(t) => if v.len() == a[t as int].len() {
            b == a.update(t as int, boundary(rel, left, v))
        } else {
            b == a
        },
        _ => false,
    }
}

/// What predicate `k` of a guard makes of the values `a`.
pub open spec fn nudged(
    r: Rule,
    ws: Seq<u16>,
    k: int,
    a: Seq<Seq<bool>>,
    b: Seq<Seq<bool>>,
) -> bool {
    match r.nodes@[k] {
        RNode::Fact(FactPred::Proves, c, _) => match r.nodes@[c as int] {
            RNode::Cmp(op, x, y) => {
                let (rel, swap) = op.stored();
                let (l, q) = if swap {
                    (y as int, x as int)
                } else {
                    (x as int, y as int)
                };
                if r.nodes@[l] is Param || r.nodes@[q] is Param {
                    side_set(r, ws, rel, l, q, true, a, b) || side_set(
                        r,
                        ws,
                        rel,
                        l,
                        q,
                        false,
                        a,
                        b,
                    )
                } else {
                    b == a
                }
            },
            _ => b == a,
        },
        RNode::Fact(p, x, m) => match r.nodes@[x as int] {
            RNode::Param(i) => {
                let v = a[i as int];
                match (p, m) {
                    (FactPred::NonZero, _) => if v == bits::zeros(v.len()) {
                        b == a.update(i as int, bits::bits_of(1, v.len()))
                    } else {
                        b == a
                    },
                    (FactPred::ZeroBits, Some(m)) => {
                        let mask = meaning::rvalue(r, m as int, ws, a);
                        if mask.len() == v.len() {
                            b == a.update(i as int, ops::and_bits(v, ops::not_bits(mask)))
                        } else {
                            b == a
                        }
                    },
                    (FactPred::OneBits, Some(m)) => {
                        let mask = meaning::rvalue(r, m as int, ws, a);
                        if mask.len() == v.len() {
                            b == a.update(i as int, ops::or_bits(v, mask))
                        } else {
                            b == a
                        }
                    },
                    (FactPred::Disjoint, Some(m)) => match r.nodes@[m as int] {
                        RNode::Param(j) => if a[j as int].len() == v.len() {
                            b == a.update(
                                j as int,
                                ops::and_bits(a[j as int], ops::not_bits(v)),
                            )
                        } else {
                            b == a
                        },
                        _ => b == a,
                    },
                    _ => b == a,
                }
            },
            _ => b == a,
        },
        RNode::ConstP(p, x) => match r.nodes@[x as int] {
            RNode::Param(i) => made_true(p, i as int, a, b),
            _ => b == a,
        },
        _ => b == a,
    }
}

/// Parameter `i` becomes a constant of which the predicate is true.
pub open spec fn made_true(p: ConstPred, i: int, a: Seq<Seq<bool>>, b: Seq<Seq<bool>>) -> bool {
    exists|v: Seq<bool>| #[trigger]
        meaning::const_true(p, v) && v.len() == a[i].len() && b == a.update(i, v)
}

/// The values `b` come from `a` by what the listed predicates make of them, in order.
pub open spec fn steered(
    r: Rule,
    ws: Seq<u16>,
    list: Seq<u32>,
    a: Seq<Seq<bool>>,
    b: Seq<Seq<bool>>,
) -> bool
    decreases list.len(),
{
    if list.len() == 0 {
        b == a
    } else {
        exists|c: Seq<Seq<bool>>| #[trigger]
            nudged(r, ws, list.last() as int, c, b) && steered(r, ws, list.drop_last(), a, c)
    }
}

/// Parameter `i` is one that predicate `k` sets.
pub open spec fn aims(r: Rule, k: int, i: int) -> bool {
    match r.nodes@[k] {
        RNode::Fact(FactPred::Proves, c, _) => r.nodes@[c as int] matches RNode::Cmp(_, x, y) && (
        r.nodes@[x as int] == RNode::Param(i as u16) || r.nodes@[y as int] == RNode::Param(i as u16)),
        RNode::Fact(FactPred::Disjoint, _, Some(m)) => r.nodes@[m as int] == RNode::Param(i as u16),
        RNode::Fact(_, x, _) => r.nodes@[x as int] == RNode::Param(i as u16),
        RNode::ConstP(_, x) => r.nodes@[x as int] == RNode::Param(i as u16),
        _ => false,
    }
}

/// Steering keeps the parameters that no predicate of the guard sets.
pub proof fn law_steering_keeps_the_rest(
    r: Rule,
    ws: Seq<u16>,
    list: Seq<u32>,
    a: Seq<Seq<bool>>,
    b: Seq<Seq<bool>>,
    i: int,
)
    requires
        meaning::rule_ok(r),
        steered(r, ws, list, a, b),
        0 <= i < a.len() <= 0x1_0000,
        a.len() == r.params@.len(),
        forall|k: int|
            0 <= k < list.len() ==> (#[trigger] list[k]) < r.nodes@.len() && !aims(
                r,
                list[k] as int,
                i,
            ),
    ensures
        b.len() == a.len(),
        b[i] == a[i],
    decreases list.len(),
{
    if list.len() > 0 {
        let k = list.last() as int;
        let c = choose|c: Seq<Seq<bool>>| #[trigger]
            nudged(r, ws, k, c, b) && steered(r, ws, list.drop_last(), a, c);
        assert forall|q: int| 0 <= q < list.drop_last().len() implies (
        #[trigger] list.drop_last()[q]) < r.nodes@.len() && !aims(
            r,
            list.drop_last()[q] as int,
            i,
        ) by {
            assert(list.drop_last()[q] == list[q]);
        }
        law_steering_keeps_the_rest(r, ws, list.drop_last(), a, c, i);
        assert(!aims(r, list[list.len() - 1] as int, i));
        assert(meaning::node_ok(r, k));
        match r.nodes@[k] {
            RNode::Fact(_, x, m) => {
                assert(meaning::node_ok(r, x as int));
                if let Some(y) = m {
                    assert(meaning::node_ok(r, y as int));
                }
                if let RNode::Cmp(_, y, z) = r.nodes@[x as int] {
                    assert(meaning::node_ok(r, y as int));
                    assert(meaning::node_ok(r, z as int));
                }
            },
            RNode::ConstP(_, x) => {
                assert(meaning::node_ok(r, x as int));
            },
            _ => {},
        }
        if let RNode::ConstP(p, x) = r.nodes@[k] {
            if let RNode::Param(j) = r.nodes@[x as int] {
                let v = choose|v: Seq<bool>| #[trigger]
                    meaning::const_true(p, v) && v.len() == c[j as int].len() && b == c.update(
                        j as int,
                        v,
                    );
            }
        }
    }
}

/// Steering by one predicate about the bits of a parameter makes it true, and keeps the mask: a
/// guard that some bits are clear or set, or that a constant has a shape, holds afterwards.
pub proof fn law_steering_meets_the_guard(
    r: Rule,
    ws: Seq<u16>,
    k: int,
    a: Seq<Seq<bool>>,
    b: Seq<Seq<bool>>,
    i: int,
    j: int,
)
    requires
        0 <= k < 0x1_0000_0000,
        nudged(r, ws, k, a, b),
        0 <= i < a.len() <= 0x1_0000,
        0 <= j < a.len(),
        i != j,
        a[i].len() == a[j].len(),
        match r.nodes@[k] {
            RNode::Fact(FactPred::ZeroBits, x, Some(m)) | RNode::Fact(
                FactPred::OneBits,
                x,
                Some(m),
            ) => r.nodes@[x as int] == RNode::Param(i as u16) && r.nodes@[m as int] == RNode::Param(
                j as u16,
            ) && meaning::rvalue(r, m as int, ws, a) == a[j],
            RNode::ConstP(_, x) => r.nodes@[x as int] == RNode::Param(i as u16),
            _ => false,
        },
    ensures
        b[j] == a[j],
        b[i].len() == a[i].len(),
        match r.nodes@[k] {
            RNode::Fact(p, _, _) => meaning::fact_true(p, b[i], Some(b[j])),
            RNode::ConstP(p, _) => meaning::const_true(p, b[i]),
            _ => false,
        },
{
    match r.nodes@[k] {
        RNode::Fact(FactPred::ZeroBits, _, _) => {
            assert(ops::and_bits(b[i], b[j]) =~= bits::zeros(b[i].len()));
        },
        RNode::Fact(_, _, _) => {
            assert(ops::and_bits(b[i], b[j]) =~= b[j]);
        },
        _ => {},
    }
}

/// A run of set bits.
fn run(w: usize, lo: usize, n: usize) -> (r: BitVec)
    requires
        1 <= n,
        lo + n <= w,
    ensures
        r@.len() == w,
        meaning::is_run(r@, lo as int, n as int),
{
    let mut v: Vec<bool> = Vec::with_capacity(w);
    let mut i: usize = 0;
    while i < w
        invariant
            i <= w,
            lo + n <= w,
            v@.len() == i,
            forall|j: int| 0 <= j < i ==> #[trigger] v@[j] == (lo <= j < lo + n),
        decreases w - i,
    {
        v.push(lo <= i && i < lo + n);
        i = i + 1;
    }
    BitVec::from_bools(v)
}

/// The parameter that node `k` is.
fn param(rule: &Rule, k: u32) -> (r: Option<usize>)
    requires
        meaning::rule_ok(*rule),
        k < rule.nodes@.len(),
    ensures
        r matches Some(i) ==> i < rule.params@.len() && rule.nodes@[k as int] == RNode::Param(i as u16),
        r is None ==> !(rule.nodes@[k as int] is Param),
{
    proof {
        assert(meaning::node_ok(*rule, k as int));
    }
    match &rule.nodes[k as usize] {
        RNode::Param(i) => Some(*i as usize),
        _ => None,
    }
}

/// A value of a parameter at which predicate `k` holds, or nearly does.
fn proposal(
    rule: &Rule,
    ws: &Vec<u16>,
    k: u32,
    vs: &Vec<BitVec>,
    ps: &Vec<BitVec>,
    rng: &mut Rng,
) -> (r: Option<(usize, BitVec)>)
    requires
        meaning::rule_ok(*rule),
        k < rule.nodes@.len(),
        vs@.len() == rule.nodes@.len(),
        forall|j: int|
            0 <= j < vs@.len() ==> (#[trigger] vs@[j])@ == meaning::rvalue(
                *rule,
                j,
                ws@,
                eval::views(ps@),
            ),
        ps@.len() == rule.params@.len(),
        forall|i: int|
            #![trigger ps@[i]]
            0 <= i < ps@.len() ==> 1 <= ps@[i]@.len() <= crate::bitvec::MAX_WIDTH,
    ensures
        r matches Some((i, v)) ==> i < ps@.len() && v@.len() == ps@[i as int]@.len() && nudged(
            *rule,
            ws@,
            k as int,
            eval::views(ps@),
            eval::views(ps@).update(i as int, v@),
        ),
        r is None ==> nudged(*rule, ws@, k as int, eval::views(ps@), eval::views(ps@)),
        random::stepped(old(rng).state, final(rng).state, 2),
{
    let ghost a = eval::views(ps@);
    proof {
        assert(crate::eval::advanced(rng.state, 0) == rng.state);
        crate::eval::lemma_advanced_twice(rng.state, 1, 1);
        assert(meaning::node_ok(*rule, k as int));
    }
    match &rule.nodes[k as usize] {
        RNode::Fact(FactPred::Proves, c, _) => {
            proof {
                assert(meaning::node_ok(*rule, *c as int));
            }
            let (op, l, r) = match &rule.nodes[*c as usize] {
                RNode::Cmp(op, l, r) => (*op, *l, *r),
                _ => {
                    return None;
                },
            };
            let (rel, swap) = op.canonical();
            let (l, r) = if swap {
                (r, l)
            } else {
                (l, r)
            };
            // Set one side from the other, at the boundary of the predicate.
            let (pl, pr) = (param(rule, l), param(rule, r));
            let left = match pl {
                Some(_) => rng.below(2) == 0 || pr.is_none(),
                None => false,
            };
            let (target, other) = match (left, pl, pr) {
                (true, Some(i), _) => (i, r),
                (false, _, Some(j)) => (j, l),
                _ => {
                    return None;
                },
            };
            let v = &vs[other as usize];
            assert(v@ == meaning::rvalue(*rule, other as int, ws@, a));
            if v.len() != ps[target].len() {
                return None;
            }
            let one = BitVec::from_u64(v.len(), 1);
            let to = match rel {
                CmpOp::Eq | CmpOp::Ule | CmpOp::Sle => v.dup(),
                CmpOp::Ne => v.plus(&one),
                _ => if left {
                    v.minus(&one)
                } else {
                    v.plus(&one)
                },
            };
            proof {
                ops::lemma_bin_len(BinOp::Add, v@, one@);
                ops::lemma_bin_len(BinOp::Sub, v@, one@);
            }
            Some((target, to))
        },
        RNode::Fact(p, x, m) => {
            let i = param(rule, *x)?;
            let w: usize = ps[i].len();
            match (p, m) {
                (FactPred::NonZero, _) => {
                    if ps[i].is_zero() {
                        Some((i, BitVec::from_u64(w, 1)))
                    } else {
                        None
                    }
                },
                (FactPred::ZeroBits, Some(m)) => {
                    let mask = &vs[*m as usize];
                    if mask.len() == w {
                        Some((i, ps[i].and(&mask.not())))
                    } else {
                        None
                    }
                },
                (FactPred::OneBits, Some(m)) => {
                    let mask = &vs[*m as usize];
                    if mask.len() == w {
                        Some((i, ps[i].or(mask)))
                    } else {
                        None
                    }
                },
                (FactPred::Disjoint, Some(m)) => {
                    let j = param(rule, *m)?;
                    if ps[j].len() == w {
                        Some((j, ps[j].and(&ps[i].not())))
                    } else {
                        None
                    }
                },
                _ => None,
            }
        },
        RNode::ConstP(p, x) => {
            let i = param(rule, *x)?;
            let w: usize = ps[i].len();
            assert(w >= 1) by {
                let _ = ps@[i as int];
            }
            let k: usize = rng.below(w as u64) as usize;
            let v = match p {
                ConstPred::IsPow2 => run(w, k, 1),
                ConstPred::IsLowMask => run(w, 0, k + 1),
                ConstPred::IsShiftedMask => {
                    let s: usize = rng.below(w as u64) as usize;
                    let n: usize = if k + 1 <= w - s {
                        k + 1
                    } else {
                        w - s
                    };
                    run(w, s, n)
                },
            };
            assert(meaning::const_true(*p, v@));
            assert(made_true(*p, i as int, a, a.update(i as int, v@)));
            Some((i, v))
        },
        _ => None,
    }
}

/// Steers values toward satisfying the guard's positive fact and constant predicates (so
/// sampling tests the equation where it matters), best effort.
pub(crate) fn steer(rule: &Rule, ws: &Vec<u16>, ps: &mut Vec<BitVec>, rng: &mut Rng)
    requires
        meaning::rule_ok(*rule),
        meaning::typed(*rule, ws@),
        meaning::params_fit(*rule, ws@, eval::views(old(ps)@)),
        forall|i: int|
            #![trigger old(ps)@[i]]
            0 <= i < old(ps)@.len() ==> 1 <= old(ps)@[i]@.len() <= crate::bitvec::MAX_WIDTH,
    ensures
        meaning::params_fit(*rule, ws@, eval::views(final(ps)@)),
        rule.guard is None ==> final(ps)@ == old(ps)@ && *final(rng) == *old(rng),
        rule.guard matches Some(g) ==> random::stepped(
            old(rng).state,
            final(rng).state,
            2 * (joined(*rule, g as int) + joined(*rule, g as int)).len(),
        ),
        rule.guard matches Some(g) ==> steered(
            *rule,
            ws@,
            joined(*rule, g as int) + joined(*rule, g as int),
            eval::views(old(ps)@),
            eval::views(final(ps)@),
        ),
{
    let g = match rule.guard {
        Some(g) => g,
        None => {
            return;
        },
    };
    let mut list: Vec<u32> = Vec::new();
    predicates(rule, g, &mut list);
    predicates(rule, g, &mut list);
    assert(list@ =~= joined(*rule, g as int) + joined(*rule, g as int));
    let ghost from = eval::views(ps@);
    let mut j: usize = 0;
    assert(list@.take(0) =~= Seq::<u32>::empty());
    let ghost s0 = rng.state;
    assert(crate::eval::advanced(s0, 0) == s0);
    while j < list.len()
        invariant
            random::stepped(s0, rng.state, 2 * j as nat),
            j <= list@.len(),
            meaning::rule_ok(*rule),
            meaning::typed(*rule, ws@),
            meaning::params_fit(*rule, ws@, eval::views(ps@)),
            forall|i: int|
                #![trigger ps@[i]]
                0 <= i < ps@.len() ==> 1 <= ps@[i]@.len() <= crate::bitvec::MAX_WIDTH,
            forall|i: int| 0 <= i < list@.len() ==> #[trigger] list@[i] < rule.nodes@.len(),
            steered(*rule, ws@, list@.take(j as int), from, eval::views(ps@)),
        decreases list@.len() - j,
    {
        let vs = rule.values(ws, ps);
        let ghost ps0 = ps@;
        let ghost s1 = rng.state;
        let ghost p0 = eval::views(ps0);
        if let Some((i, v)) = proposal(rule, ws, list[j], &vs, ps, rng) {
            let ghost set = v@;
            ps.set(i, v);
            proof {
                let p1 = eval::views(ps@);
                assert(p1 =~= p0.update(i as int, set));
                assert(nudged(*rule, ws@, list@[j as int] as int, p0, p1));
                assert forall|q: int| #![trigger p1[q]] 0 <= q < p1.len() implies p1[q].len()
                    == rule.params@[q].width.at(ws@) by {
                    let _ = p0[q];
                    let _ = p0[i as int];
                    if q != i {
                        assert(ps@[q] == ps0[q]);
                    }
                }
                assert forall|q: int| #![trigger ps@[q]] 0 <= q < ps@.len() implies 1
                    <= ps@[q]@.len() <= crate::bitvec::MAX_WIDTH by {
                    let _ = ps0[q];
                    if q != i {
                        assert(ps@[q] == ps0[q]);
                    }
                }
            }
        }
        proof {
            random::lemma_stepped(s0, s1, rng.state, 2 * j as nat, 2);
            let t = list@.take(j + 1);
            assert(t.drop_last() =~= list@.take(j as int));
            assert(t.last() == list@[j as int]);
            assert(steered(*rule, ws@, t.drop_last(), from, p0));
            assert(nudged(*rule, ws@, t.last() as int, p0, eval::views(ps@)));
            assert(steered(*rule, ws@, t, from, eval::views(ps@)));
        }
        j = j + 1;
    }
    assert(list@.take(j as int) =~= list@);
}

} // verus!
