//! Sums over the terms of a form, and the canonical order of terms.

use vstd::prelude::*;
use crate::bitvec::BitVec;
use crate::expr::Context;

verus! {

/// The terms of a form, each an atom with a coefficient.
pub type Terms = Seq<(u32, Seq<bool>)>;

/// The terms as plain values.
pub open spec fn tview(v: Seq<(u32, BitVec)>) -> Terms {
    v.map_values(|t: (u32, BitVec)| (t.0, t.1@))
}

/// The sum of a quantity over terms.
pub open spec fn tsum(t: Terms, g: spec_fn(u32, Seq<bool>) -> int) -> int
    decreases t.len(),
{
    if t.len() == 0 {
        0
    } else {
        tsum(t.drop_last(), g) + g(t.last().0, t.last().1)
    }
}

pub broadcast proof fn lemma_tsum_push(
    t: Terms,
    x: (u32, Seq<bool>),
    g: spec_fn(u32, Seq<bool>) -> int,
)
    ensures
        #[trigger] tsum(t.push(x), g) == tsum(t, g) + g(x.0, x.1),
{
    assert(t.push(x).drop_last() =~= t);
}

/// One more term of a prefix.
pub proof fn lemma_tsum_take(t: Terms, i: int, g: spec_fn(u32, Seq<bool>) -> int)
    requires
        0 <= i < t.len(),
    ensures
        tsum(t.take(i + 1), g) == tsum(t.take(i), g) + g(t[i].0, t[i].1),
{
    assert(t.take(i + 1).drop_last() =~= t.take(i));
}

/// A term counts the same wherever it stands.
pub proof fn lemma_tsum_insert(
    t: Terms,
    p: int,
    x: (u32, Seq<bool>),
    g: spec_fn(u32, Seq<bool>) -> int,
)
    requires
        0 <= p <= t.len(),
    ensures
        tsum(t.insert(p, x), g) == tsum(t, g) + g(x.0, x.1),
    decreases t.len(),
{
    if p == t.len() {
        assert(t.insert(p, x) =~= t.push(x));
        lemma_tsum_push(t, x, g);
    } else {
        assert(t.insert(p, x).drop_last() =~= t.drop_last().insert(p, x));
        lemma_tsum_insert(t.drop_last(), p, x, g);
    }
}

/// Equal quantities have equal sums.
pub proof fn lemma_tsum_same(
    t: Terms,
    g: spec_fn(u32, Seq<bool>) -> int,
    h: spec_fn(u32, Seq<bool>) -> int,
)
    requires
        forall|i: int| 0 <= i < t.len() ==> g((#[trigger] t[i]).0, t[i].1) == h(t[i].0, t[i].1),
    ensures
        tsum(t, g) == tsum(t, h),
    decreases t.len(),
{
    if t.len() > 0 {
        let d = t.drop_last();
        assert forall|i: int| 0 <= i < d.len() implies g((#[trigger] d[i]).0, d[i].1) == h(
            d[i].0,
            d[i].1,
        ) by {
            assert(d[i] == t[i]);
        }
        lemma_tsum_same(d, g, h);
        assert(t[t.len() - 1] == t.last());
    }
}

/// The terms `r` are the terms `t` in another order.
pub open spec fn reordered(t: Terms, r: Terms) -> bool {
    &&& r.len() == t.len()
    &&& forall|g: spec_fn(u32, Seq<bool>) -> int| #[trigger] tsum(r, g) == tsum(t, g)
    &&& forall|i: int| 0 <= i < r.len() ==> t.contains(#[trigger] r[i])
}

/// The terms in the context's canonical order of their atoms.
pub(crate) fn sorted_terms(cx: &Context, terms: &Vec<(u32, BitVec)>) -> (r: Vec<(u32, BitVec)>)
    requires
        cx.wf(),
        forall|i: int| 0 <= i < terms@.len() ==> (#[trigger] terms@[i]).0 < cx.n(),
    ensures
        reordered(tview(terms@), tview(r@)),
{
    let mut r: Vec<(u32, BitVec)> = Vec::with_capacity(terms.len());
    let ghost t = tview(terms@);
    let mut i: usize = 0;
    while i < terms.len()
        invariant
            i <= terms.len(),
            cx.wf(),
            t == tview(terms@),
            forall|i: int| 0 <= i < terms@.len() ==> (#[trigger] terms@[i]).0 < cx.n(),
            r@.len() == i,
            forall|k: int| 0 <= k < r@.len() ==> (#[trigger] r@[k]).0 < cx.n(),
            forall|g: spec_fn(u32, Seq<bool>) -> int| #[trigger]
                tsum(tview(r@), g) == tsum(t.take(i as int), g),
            forall|k: int| 0 <= k < r@.len() ==> t.contains(#[trigger] tview(r@)[k]),
        decreases terms.len() - i,
    {
        let a = terms[i].0;
        assert(a == terms@[i as int].0);
        let mut at: usize = i;
        while at > 0 && cx.before(a, r[at - 1].0)
            invariant
                at <= i,
                r@.len() == i,
                cx.wf(),
                a < cx.n(),
                forall|k: int| 0 <= k < r@.len() ==> (#[trigger] r@[k]).0 < cx.n(),
            decreases at,
        {
            at = at - 1;
        }
        let ghost before = r@;
        let x = (a, terms[i].1.dup());
        r.insert(at, x);
        proof {
            let y = (x.0, x.1@);
            assert(tview(r@) =~= tview(before).insert(at as int, y));
            assert(t[i as int] == y);
            assert forall|g: spec_fn(u32, Seq<bool>) -> int| #[trigger]
                tsum(tview(r@), g) == tsum(t.take(i + 1), g) by {
                lemma_tsum_insert(tview(before), at as int, y, g);
                lemma_tsum_take(t, i as int, g);
                assert(tsum(tview(before), g) == tsum(t.take(i as int), g));
            }
            assert forall|k: int| 0 <= k < r@.len() implies t.contains(
                #[trigger] tview(r@)[k],
            ) by {
                if k < at {
                    assert(tview(r@)[k] == tview(before)[k]);
                } else if k == at {
                    assert(tview(r@)[k] == y);
                } else {
                    assert(tview(r@)[k] == tview(before)[k - 1]);
                }
            }
            assert forall|k: int| 0 <= k < r@.len() implies (#[trigger] r@[k]).0 < cx.n() by {
                if k < at {
                    assert(r@[k] == before[k]);
                } else if k > at {
                    assert(r@[k] == before[k - 1]);
                }
            }
        }
        i = i + 1;
    }
    assert(t.take(i as int) =~= t);
    r
}

/// The atoms of terms, in increasing order.
pub(crate) fn atoms_of(terms: &Vec<(u32, BitVec)>) -> (r: Vec<u32>)
    ensures
        forall|i: int| 0 <= i < terms@.len() ==> r@.contains((#[trigger] terms@[i]).0),
{
    let mut r: Vec<u32> = Vec::with_capacity(terms.len());
    let mut i: usize = 0;
    while i < terms.len()
        invariant
            i <= terms.len(),
            r@.len() == i,
            forall|k: int| 0 <= k < i ==> r@.contains((#[trigger] terms@[k]).0),
        decreases terms.len() - i,
    {
        let a = terms[i].0;
        let mut at: usize = i;
        while at > 0 && r[at - 1] > a
            invariant
                at <= i,
                r@.len() == i,
            decreases at,
        {
            at = at - 1;
        }
        let ghost before = r@;
        r.insert(at, a);
        proof {
            assert forall|k: int| 0 <= k < i + 1 implies r@.contains((#[trigger] terms@[k]).0) by {
                if k < i {
                    let q = choose|q: int| 0 <= q < before.len() && before[q] == terms@[k].0;
                    if q < at {
                        assert(r@[q] == before[q]);
                    } else {
                        assert(r@[q + 1] == before[q]);
                    }
                } else {
                    assert(r@[at as int] == a);
                }
            }
        }
        i = i + 1;
    }
    r
}

} // verus!
