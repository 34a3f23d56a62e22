//! How many spans a set of values has, and which sets are one run of values.

use vstd::prelude::*;
use vstd::arithmetic::power2::pow2;
use crate::bits;
use crate::engine::pass::intervals;
use crate::engine::pass::intervals::{high_end, low_end, spans_ok, within, Span};

verus! {

/// Where the spans begin.
spec fn starts(s: Seq<Span>) -> Seq<int> {
    Seq::new(s.len(), |i: int| low_end(s[i]) as int)
}

/// Where the spans have ended.
spec fn stops(s: Seq<Span>) -> Seq<int> {
    Seq::new(s.len(), |i: int| high_end(s[i]) as int + 1)
}

/// A span begins exactly where the set does, and ends where it does.
proof fn lemma_turns(s: Seq<Span>, w: nat)
    requires
        spans_ok(s, w),
    ensures
        starts(s).to_set().len() == s.len(),
        starts(s).to_set().finite(),
        stops(s).to_set().len() == s.len(),
        stops(s).to_set().finite(),
        forall|x: int| #[trigger]
            starts(s).to_set().contains(x) <==> within(s, x) && !within(s, x - 1),
        forall|x: int| #[trigger]
            stops(s).to_set().contains(x) <==> within(s, x - 1) && !within(s, x),
{
    let a = starts(s);
    let b = stops(s);
    assert(a.no_duplicates()) by {
        assert forall|i: int, j: int| 0 <= i < a.len() && 0 <= j < a.len() && i != j implies a[i]
            != a[j] by {
            let _ = (s[i], s[j]);
        }
    }
    assert(b.no_duplicates()) by {
        assert forall|i: int, j: int| 0 <= i < b.len() && 0 <= j < b.len() && i != j implies b[i]
            != b[j] by {
            let _ = (s[i], s[j]);
        }
    }
    a.unique_seq_to_set();
    b.unique_seq_to_set();
    assert forall|x: int| #[trigger] a.to_set().contains(x) <==> within(s, x) && !within(
        s,
        x - 1,
    ) by {
        if a.to_set().contains(x) {
            let i = choose|i: int| 0 <= i < a.len() && a[i] == x;
            assert(low_end(s[i]) <= x <= high_end(s[i]));
            if within(s, x - 1) {
                let j = choose|j: int|
                    0 <= j < s.len() && low_end(#[trigger] s[j]) <= x - 1 <= high_end(s[j]);
                let _ = (s[i], s[j]);
            }
        }
        if within(s, x) && !within(s, x - 1) {
            let i = choose|i: int|
                0 <= i < s.len() && low_end(#[trigger] s[i]) <= x <= high_end(s[i]);
            if low_end(s[i]) < x {
                assert(low_end(s[i]) <= x - 1 <= high_end(s[i]));
            }
            assert(a[i] == x);
        }
    }
    assert forall|x: int| #[trigger] b.to_set().contains(x) <==> within(s, x - 1) && !within(
        s,
        x,
    ) by {
        if b.to_set().contains(x) {
            let i = choose|i: int| 0 <= i < b.len() && b[i] == x;
            assert(low_end(s[i]) <= x - 1 <= high_end(s[i]));
            if within(s, x) {
                let j = choose|j: int|
                    0 <= j < s.len() && low_end(#[trigger] s[j]) <= x <= high_end(s[j]);
                let _ = (s[i], s[j]);
            }
        }
        if within(s, x - 1) && !within(s, x) {
            let i = choose|i: int|
                0 <= i < s.len() && low_end(#[trigger] s[i]) <= x - 1 <= high_end(s[i]);
            if x <= high_end(s[i]) {
                assert(low_end(s[i]) <= x <= high_end(s[i]));
            }
            assert(b[i] == x);
        }
    }
}

/// Values are below the width's power of two.
proof fn lemma_inside(s: Seq<Span>, w: nat, x: int)
    requires
        spans_ok(s, w),
        within(s, x),
    ensures
        0 <= x < pow2(w),
{
    let k = choose|k: int| 0 <= k < s.len() && low_end(#[trigger] s[k]) <= x <= high_end(s[k]);
    bits::lemma_nat_bound(s[k].hi@);
}

/// Either of two sets has at most the spans of both.
pub proof fn lemma_union_count(a: Seq<Span>, b: Seq<Span>, o: Seq<Span>, w: nat)
    requires
        spans_ok(a, w),
        spans_ok(b, w),
        spans_ok(o, w),
        forall|x: int|
            0 <= x < pow2(w) ==> (#[trigger] within(o, x) <==> within(a, x) || within(b, x)),
    ensures
        o.len() <= a.len() + b.len(),
{
    lemma_turns(a, w);
    lemma_turns(b, w);
    lemma_turns(o, w);
    let t = starts(a).to_set() + starts(b).to_set();
    assert forall|x: int| starts(o).to_set().contains(x) implies t.contains(x) by {
        lemma_inside(o, w, x);
        assert(within(o, x));
        assert(!within(o, x - 1));
        if x >= 1 {
            assert(!(within(a, x - 1) || within(b, x - 1)));
        } else {
            if within(a, x - 1) {
                lemma_inside(a, w, x - 1);
            }
            if within(b, x - 1) {
                lemma_inside(b, w, x - 1);
            }
        }
    }
    vstd::set_lib::lemma_len_subset(starts(o).to_set(), t);
    vstd::set_lib::lemma_len_union(starts(a).to_set(), starts(b).to_set());
}

/// So has the part that two sets share.
pub proof fn lemma_intersect_count(a: Seq<Span>, b: Seq<Span>, o: Seq<Span>, w: nat)
    requires
        spans_ok(a, w),
        spans_ok(b, w),
        spans_ok(o, w),
        forall|x: int| #[trigger] within(o, x) <==> within(a, x) && within(b, x),
    ensures
        o.len() <= a.len() + b.len(),
{
    lemma_turns(a, w);
    lemma_turns(b, w);
    lemma_turns(o, w);
    let t = starts(a).to_set() + starts(b).to_set();
    assert forall|x: int| starts(o).to_set().contains(x) implies t.contains(x) by {
        assert(within(o, x));
        assert(!within(o, x - 1));
    }
    vstd::set_lib::lemma_len_subset(starts(o).to_set(), t);
    vstd::set_lib::lemma_len_union(starts(a).to_set(), starts(b).to_set());
}

/// What two sets do not share begins where one of them begins or ends.
pub proof fn lemma_differ_count(a: Seq<Span>, b: Seq<Span>, o: Seq<Span>, w: nat)
    requires
        spans_ok(a, w),
        spans_ok(b, w),
        spans_ok(o, w),
        forall|x: int|
            0 <= x < pow2(w) ==> (#[trigger] within(o, x) <==> within(a, x) != within(b, x)),
    ensures
        o.len() <= 2 * (a.len() + b.len()),
{
    lemma_turns(a, w);
    lemma_turns(b, w);
    lemma_turns(o, w);
    let p = starts(a).to_set() + stops(a).to_set();
    let q = starts(b).to_set() + stops(b).to_set();
    let t = p + q;
    assert forall|x: int| starts(o).to_set().contains(x) implies t.contains(x) by {
        lemma_inside(o, w, x);
        assert(within(o, x));
        assert(!within(o, x - 1));
        if x >= 1 {
            assert(within(a, x - 1) == within(b, x - 1));
        } else {
            if within(a, x - 1) {
                lemma_inside(a, w, x - 1);
            }
            if within(b, x - 1) {
                lemma_inside(b, w, x - 1);
            }
        }
        assert(p.contains(x) || q.contains(x));
    }
    vstd::set_lib::lemma_len_subset(starts(o).to_set(), t);
    vstd::set_lib::lemma_len_union(p, q);
    vstd::set_lib::lemma_len_union(starts(a).to_set(), stops(a).to_set());
    vstd::set_lib::lemma_len_union(starts(b).to_set(), stops(b).to_set());
}

/// The values that are not in a set begin at zero or where one of its spans has ended.
pub proof fn lemma_complement_count(a: Seq<Span>, o: Seq<Span>, w: nat)
    requires
        spans_ok(a, w),
        spans_ok(o, w),
        forall|x: int| 0 <= x < pow2(w) ==> (#[trigger] within(o, x) <==> !within(a, x)),
    ensures
        o.len() <= a.len() + 1,
{
    lemma_turns(a, w);
    lemma_turns(o, w);
    let z = set![0int];
    let t = stops(a).to_set() + z;
    assert forall|x: int| starts(o).to_set().contains(x) implies t.contains(x) by {
        lemma_inside(o, w, x);
        assert(within(o, x));
        assert(!within(o, x - 1));
        if x >= 1 {
            assert(within(a, x - 1));
        }
    }
    vstd::set_lib::lemma_len_subset(starts(o).to_set(), t);
    vstd::set_lib::lemma_len_union(stops(a).to_set(), z);
    assert(z.len() == 1);
}

/// The set holds exactly the values of one run, that may go on from the greatest at zero.
pub open spec fn one_run(s: Seq<Span>, w: nat) -> bool {
    exists|lo: int, hi: int|
        0 <= lo < pow2(w) && 0 <= hi < pow2(w) && #[trigger] runs(s, w, lo, hi)
}

/// The set holds the values from `lo` up to `hi`, going on from the greatest at zero.
pub open spec fn runs(s: Seq<Span>, w: nat, lo: int, hi: int) -> bool {
    forall|x: int|
        0 <= x < pow2(w) ==> (#[trigger] within(s, x) <==> intervals::cyclic(lo, hi, x))
}

/// A set of two or more spans that do not touch both ends, or of more than two, is not one run.
pub proof fn lemma_not_one_run(s: Seq<Span>, w: nat)
    requires
        spans_ok(s, w),
        s.len() != 1,
        s.len() == 2 ==> low_end(s[0]) != 0 || high_end(s[1]) + 1 != pow2(w),
    ensures
        !one_run(s, w),
{
    vstd::arithmetic::power2::lemma_pow2_pos(w);
    if one_run(s, w) {
        let (lo, hi) = choose|lo: int, hi: int|
            0 <= lo < pow2(w) && 0 <= hi < pow2(w) && #[trigger] runs(s, w, lo, hi);
        assert(within(s, lo));
        assert(s.len() >= 2);
        let a = low_end(s[0]) as int;
        let g = high_end(s[0]) as int + 1;
        let b = low_end(s[1]) as int;
        assert(low_end(s[0]) <= a <= high_end(s[0]));
        assert(low_end(s[1]) <= b <= high_end(s[1]));
        bits::lemma_nat_bound(s[0].hi@);
        bits::lemma_nat_bound(s[1].hi@);
        assert(within(s, a) && within(s, b));
        assert(!within(s, g)) by {
            if within(s, g) {
                let k = choose|k: int|
                    0 <= k < s.len() && low_end(#[trigger] s[k]) <= g <= high_end(s[k]);
                let _ = (s[0], s[1], s[k]);
            }
        }
        assert(intervals::cyclic(lo, hi, a) && intervals::cyclic(lo, hi, b) && !intervals::cyclic(
            lo,
            hi,
            g,
        ));
        // Then it goes on at zero.
        assert(lo > hi);
        let m = pow2(w) as int;
        assert(within(s, 0) && within(s, m - 1));
        let i = choose|i: int| 0 <= i < s.len() && low_end(#[trigger] s[i]) <= 0 <= high_end(s[i]);
        assert(i == 0) by {
            if i > 0 {
                let _ = (s[0], s[i]);
            }
        }
        let j = choose|j: int|
            0 <= j < s.len() && low_end(#[trigger] s[j]) <= m - 1 <= high_end(s[j]);
        bits::lemma_nat_bound(s[j].hi@);
        assert(j != 0) by {
            if j == 0 {
                let _ = (s[0], s[1]);
            }
        }
        if s.len() > 2 {
            let h = high_end(s[1]) as int + 1;
            let c = low_end(s[2]) as int;
            assert(low_end(s[2]) <= c <= high_end(s[2]));
            bits::lemma_nat_bound(s[2].hi@);
            assert(high_end(s[1]) + 1 < low_end(s[2]));
            assert(!within(s, h)) by {
                if within(s, h) {
                    let k = choose|k: int|
                        0 <= k < s.len() && low_end(#[trigger] s[k]) <= h <= high_end(s[k]);
                    let _ = (s[1], s[2], s[k]);
                }
            }
            assert(!intervals::cyclic(lo, hi, h));
            assert(g < b < h);
        }
    }
}

/// A set of every value is one span from end to end.
pub proof fn lemma_all_values(s: Seq<Span>, w: nat)
    requires
        spans_ok(s, w),
        forall|x: int| 0 <= x < pow2(w) ==> #[trigger] within(s, x),
    ensures
        s.len() == 1,
        low_end(s[0]) == 0,
        high_end(s[0]) + 1 == pow2(w),
{
    vstd::arithmetic::power2::lemma_pow2_pos(w);
    assert(within(s, 0));
    let m = pow2(w) as int;
    assert(within(s, m - 1));
    let i = choose|i: int| 0 <= i < s.len() && low_end(#[trigger] s[i]) <= 0 <= high_end(s[i]);
    let h = high_end(s[i]) as int + 1;
    bits::lemma_nat_bound(s[i].hi@);
    if h < m {
        assert(within(s, h));
        let k = choose|k: int| 0 <= k < s.len() && low_end(#[trigger] s[k]) <= h <= high_end(s[k]);
        let _ = (s[i], s[k]);
    }
    assert forall|k: int| #![trigger s[k]] 0 <= k < s.len() implies k == i by {
        let _ = (s[i], s[k]);
        bits::lemma_nat_bound(s[k].hi@);
    }
    if s.len() > 1 {
        let _ = (s[0], s[1]);
    }
}

} // verus!
