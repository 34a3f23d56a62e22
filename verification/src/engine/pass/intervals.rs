//! Sets of values as sorted, disjoint unsigned intervals.

use vstd::prelude::*;
use crate::bits;
use crate::algebra;
use vstd::arithmetic::power2::pow2;
use crate::bitvec::{BitVec, MAX_WIDTH};

verus! {

/// The values from `lo` to `hi`.
pub struct Span {
    /// The least.
    pub lo: BitVec,
    /// The greatest.
    pub hi: BitVec,
}

/// The least value of a span.
pub open spec fn low_end(s: Span) -> nat {
    bits::nat_of(s.lo@)
}

/// The greatest value of a span.
pub open spec fn high_end(s: Span) -> nat {
    bits::nat_of(s.hi@)
}

/// Whether `x` is in some span.
pub open spec fn within(s: Seq<Span>, x: int) -> bool {
    exists|k: int| 0 <= k < s.len() && low_end(#[trigger] s[k]) <= x <= high_end(s[k])
}

/// The spans are of width `w`.
pub open spec fn wide(s: Seq<Span>, w: nat) -> bool {
    forall|k: int|
        #![trigger s[k]]
        0 <= k < s.len() ==> s[k].lo@.len() == w && s[k].hi@.len() == w && low_end(s[k])
            <= high_end(s[k])
}

/// The spans are of width `w`, in order, and apart: no two of them overlap or touch.
pub open spec fn spans_ok(s: Seq<Span>, w: nat) -> bool {
    &&& wide(s, w)
    &&& forall|i: int, j: int|
        #![trigger s[i], s[j]]
        0 <= i < j < s.len() ==> high_end(s[i]) + 1 < low_end(s[j])
}

/// The cyclic interval from `a` up to `b`.
pub open spec fn cyclic(a: int, b: int, x: int) -> bool {
    if a <= b {
        a <= x <= b
    } else {
        x <= b || a <= x
    }
}

/// One more span.
pub proof fn lemma_within_push(s: Seq<Span>, p: Span)
    ensures
        forall|x: int| #[trigger] within(s.push(p), x) <==> within(s, x) || low_end(p) <= x <= high_end(p),
{
    assert forall|x: int| #[trigger] within(s.push(p), x) <==> within(s, x) || low_end(p) <= x <= high_end(
        p,
    ) by {
        let t = s.push(p);
        if within(s, x) {
            let k = choose|k: int| 0 <= k < s.len() && low_end(#[trigger] s[k]) <= x <= high_end(s[k]);
            assert(t[k] == s[k]);
        }
        if low_end(p) <= x <= high_end(p) {
            assert(t[s.len() as int] == p);
        }
        if within(t, x) {
            let k = choose|k: int| 0 <= k < t.len() && low_end(#[trigger] t[k]) <= x <= high_end(t[k]);
            if k < s.len() {
                assert(s[k] == t[k]);
            }
        }
    }
}

impl Span {
    /// A copy.
    pub fn dup(&self) -> (r: Span)
        ensures
            r.lo@ == self.lo@,
            r.hi@ == self.hi@,
    {
        Span { lo: self.lo.dup(), hi: self.hi.dup() }
    }
}

/// The same spans.
pub open spec fn alike(a: Seq<Span>, b: Seq<Span>) -> bool {
    a.len() == b.len() && forall|k: int|
        #![trigger a[k]]
        #![trigger b[k]]
        0 <= k < a.len() ==> a[k].lo@ == b[k].lo@ && a[k].hi@ == b[k].hi@
}

/// The same spans hold the same values.
pub proof fn lemma_alike(a: Seq<Span>, b: Seq<Span>, w: nat)
    requires
        alike(a, b),
    ensures
        forall|x: int| #[trigger] within(a, x) == within(b, x),
        wide(b, w) ==> wide(a, w),
        spans_ok(b, w) ==> spans_ok(a, w),
{
    assert forall|x: int| #[trigger] within(a, x) == within(b, x) by {
        if within(a, x) {
            let k = choose|k: int| 0 <= k < a.len() && low_end(#[trigger] a[k]) <= x <= high_end(a[k]);
            let _ = b[k];
        }
        if within(b, x) {
            let k = choose|k: int| 0 <= k < b.len() && low_end(#[trigger] b[k]) <= x <= high_end(b[k]);
            let _ = a[k];
        }
    }
    if spans_ok(b, w) {
        assert forall|i: int, j: int|
            #![trigger a[i], a[j]]
            0 <= i < j < a.len() implies high_end(a[i]) < low_end(a[j]) by {
            let _ = b[i];
            let _ = b[j];
        }
    }
}

/// A copy of a set.
pub fn dup_spans(s: &Vec<Span>) -> (r: Vec<Span>)
    ensures
        alike(r@, s@),
{
    let mut r: Vec<Span> = Vec::with_capacity(s.len());
    let mut i: usize = 0;
    while i < s.len()
        invariant
            i <= s@.len(),
            r@.len() == i,
            forall|k: int|
                #![trigger r@[k]]
                #![trigger s@[k]]
                0 <= k < i ==> r@[k].lo@ == s@[k].lo@ && r@[k].hi@ == s@[k].hi@,
        decreases s@.len() - i,
    {
        r.push(s[i].dup());
        i = i + 1;
    }
    r
}

/// Every value.
pub fn full(w: usize) -> (r: Vec<Span>)
    ensures
        spans_ok(r@, w as nat),
        forall|x: int| 0 <= x < pow2(w as nat) ==> #[trigger] within(r@, x),
{
    let lo = BitVec::fill(w, false);
    let hi = BitVec::fill(w, true);
    let mut r: Vec<Span> = Vec::new();
    proof {
        assert(lo@ =~= bits::zeros(w as nat));
        assert(hi@ =~= bits::ones(w as nat));
        bits::lemma_zeros_nat(w as nat);
        bits::lemma_ones_nat(w as nat);
        vstd::arithmetic::power2::lemma_pow2_pos(w as nat);
    }
    r.push(Span { lo, hi });
    proof {
        assert forall|x: int| 0 <= x < pow2(w as nat) implies #[trigger] within(r@, x) by {
            let _ = r@[0];
        }
    }
    r
}

/// One span.
pub fn just(lo: BitVec, hi: BitVec) -> (r: Vec<Span>)
    requires
        lo@.len() == hi@.len(),
        bits::nat_of(lo@) <= bits::nat_of(hi@),
    ensures
        spans_ok(r@, lo@.len()),
        r@.len() == 1,
        forall|x: int| #[trigger] within(r@, x) <==> bits::nat_of(lo@) <= x <= bits::nat_of(hi@),
{
    let mut r: Vec<Span> = Vec::new();
    let ghost p = Span { lo, hi };
    r.push(Span { lo, hi });
    proof {
        lemma_within_push(Seq::empty(), p);
        assert(r@ =~= Seq::empty().push(p));
        assert forall|x: int| !(#[trigger] within(Seq::<Span>::empty(), x)) by {}
    }
    r
}

/// The next value.
fn inc(v: &BitVec) -> (r: BitVec)
    requires
        0 < v@.len() <= MAX_WIDTH,
        bits::nat_of(v@) + 1 < pow2(v@.len()),
    ensures
        r@.len() == v@.len(),
        bits::nat_of(r@) == bits::nat_of(v@) + 1,
{
    let one = BitVec::from_u64(v.len(), 1);
    proof {
        algebra::lemma_one_nat(v@.len());
        bits::lemma_fits(1, v@.len());
        bits::lemma_fits((bits::nat_of(v@) + 1) as int, v@.len());
    }
    v.plus(&one)
}

/// The value before.
fn dec(v: &BitVec) -> (r: BitVec)
    requires
        0 < v@.len() <= MAX_WIDTH,
        bits::nat_of(v@) > 0,
    ensures
        r@.len() == v@.len(),
        bits::nat_of(r@) == bits::nat_of(v@) - 1,
{
    let one = BitVec::from_u64(v.len(), 1);
    proof {
        bits::lemma_nat_bound(v@);
        algebra::lemma_one_nat(v@.len());
        bits::lemma_fits(1, v@.len());
        bits::lemma_fits(bits::nat_of(v@) - 1, v@.len());
    }
    v.minus(&one)
}

/// Every value not in the set.
pub fn complement(s: &Vec<Span>, w: usize) -> (out: Vec<Span>)
    requires
        0 < w <= MAX_WIDTH,
        spans_ok(s@, w as nat),
    ensures
        spans_ok(out@, w as nat),
        forall|x: int| 0 <= x < pow2(w as nat) ==> (#[trigger] within(out@, x) <==> !within(s@, x)),
{
    let mut out: Vec<Span> = Vec::new();
    let mut next: Option<BitVec> = Some(BitVec::fill(w, false));
    let ghost m = pow2(w as nat) as int;
    // Where the values not yet decided begin.
    let ghost mut at: int = 0;
    proof {
        assert(next->Some_0@ =~= bits::zeros(w as nat));
        bits::lemma_zeros_nat(w as nat);
        vstd::arithmetic::power2::lemma_pow2_pos(w as nat);
    }
    let mut i: usize = 0;
    while i < s.len()
        invariant
            0 < w <= MAX_WIDTH,
            spans_ok(s@, w as nat),
            spans_ok(out@, w as nat),
            m == pow2(w as nat),
            i <= s@.len(),
            next is Some <==> at < m,
            next matches Some(n) ==> n@.len() == w && bits::nat_of(n@) == at,
            0 <= at <= m,
            i == 0 ==> at == 0,
            i > 0 ==> at == high_end(s@[i - 1]) + 1,
            forall|k: int| #![trigger out@[k]] 0 <= k < out@.len() ==> high_end(out@[k]) + 1 < at,
            forall|x: int|
                0 <= x < at ==> (#[trigger] within(out@, x) <==> !within(s@, x)),
        decreases s@.len() - i,
    {
        let ghost o0 = out@;
        let ghost at0 = at;
        let ghost si = s@[i as int];
        let p = s[i].dup();
        proof {
            bits::lemma_nat_bound(p.lo@);
            bits::lemma_nat_bound(p.hi@);
            if i > 0 {
                assert(high_end(s@[i - 1]) < low_end(s@[i as int]));
            }
        }
        if let Some(n) = next {
            if n.ult(&p.lo) {
                let hi = dec(&p.lo);
                out.push(Span { lo: n, hi });
                proof {
                    lemma_within_push(o0, out@[out@.len() - 1]);
                    assert(out@ =~= o0.push(out@[out@.len() - 1]));
                    assert forall|a: int, b: int|
                        #![trigger out@[a], out@[b]]
                        0 <= a < b < out@.len() implies high_end(out@[a]) + 1 < low_end(out@[b]) by {
                        if b < o0.len() {
                            assert(out@[a] == o0[a] && out@[b] == o0[b]);
                        } else {
                            assert(out@[a] == o0[a]);
                        }
                    }
                }
            }
        }
        proof {
            at = high_end(si) as int + 1;
            assert forall|x: int| 0 <= x < at implies (#[trigger] within(out@, x) <==> !within(
                s@,
                x,
            )) by {
                if x >= at0 {
                    assert forall|k: int| #![trigger s@[k]] 0 <= k < i implies high_end(s@[k]) < x by {
                        if k < i - 1 {
                            assert(high_end(s@[k]) < low_end(s@[i - 1]));
                        }
                    }
                    lemma_only(s@, w as nat, i as int, x);
                    assert(!within(o0, x)) by {
                        if within(o0, x) {
                            let k = choose|k: int|
                                0 <= k < o0.len() && low_end(#[trigger] o0[k]) <= x <= high_end(
                                    o0[k],
                                );
                            let _ = o0[k];
                        }
                    }
                }
            }
        }
        let top = p.hi.is_ones();
        proof {
            bits::lemma_ones_nat(w as nat);
            if !top && bits::nat_of(p.hi@) == m - 1 {
                bits::lemma_nat_injective(p.hi@, bits::ones(w as nat));
            }
        }
        next = if top {
            None
        } else {
            Some(inc(&p.hi))
        };
        i = i + 1;
    }
    let ghost o1 = out@;
    if let Some(n) = next {
        let hi = BitVec::fill(w, true);
        proof {
            assert(hi@ =~= bits::ones(w as nat));
            bits::lemma_ones_nat(w as nat);
        }
        out.push(Span { lo: n, hi });
        proof {
            lemma_within_push(o1, out@[out@.len() - 1]);
            assert(out@ =~= o1.push(out@[out@.len() - 1]));
            assert forall|a: int, b: int|
                #![trigger out@[a], out@[b]]
                0 <= a < b < out@.len() implies high_end(out@[a]) + 1 < low_end(out@[b]) by {
                if b < o1.len() {
                    assert(out@[a] == o1[a] && out@[b] == o1[b]);
                } else {
                    assert(out@[a] == o1[a]);
                }
            }
        }
    }
    proof {
        assert forall|x: int| 0 <= x < m implies (#[trigger] within(out@, x) <==> !within(s@, x)) by {
            if x >= at {
                assert(!within(s@, x)) by {
                    if within(s@, x) {
                        let k = choose|k: int|
                            0 <= k < s@.len() && low_end(#[trigger] s@[k]) <= x <= high_end(s@[k]);
                        if k < s@.len() - 1 {
                            assert(high_end(s@[k]) < low_end(s@[s@.len() - 1]));
                        }
                    }
                }
            } else {
                assert(within(o1, x) <==> !within(s@, x));
            }
        }
    }
    out
}

/// A value past the spans before span `i`, and not past its end, is in the set exactly when it
/// is in span `i`.
proof fn lemma_only(s: Seq<Span>, w: nat, i: int, x: int)
    requires
        spans_ok(s, w),
        0 <= i < s.len(),
        x <= high_end(s[i]),
        forall|k: int| #![trigger s[k]] 0 <= k < i ==> high_end(s[k]) < x,
    ensures
        within(s, x) <==> low_end(s[i]) <= x,
{
    if low_end(s[i]) <= x {
        assert(within(s, x));
    }
    if within(s, x) {
        let k = choose|k: int| 0 <= k < s.len() && low_end(#[trigger] s[k]) <= x <= high_end(s[k]);
        if k > i {
            assert(high_end(s[i]) < low_end(s[k]));
        }
    }
}

/// The values in both sets.
pub fn intersect(a: &Vec<Span>, b: &Vec<Span>, w: Ghost<nat>) -> (out: Vec<Span>)
    requires
        spans_ok(a@, w@),
        spans_ok(b@, w@),
    ensures
        spans_ok(out@, w@),
        forall|x: int| #[trigger] within(out@, x) <==> within(a@, x) && within(b@, x),
{
    let mut out: Vec<Span> = Vec::new();
    let mut i: usize = 0;
    let mut j: usize = 0;
    // Every value below is decided.
    let ghost mut at: int = 0;
    while i < a.len() && j < b.len()
        invariant
            spans_ok(a@, w@),
            spans_ok(b@, w@),
            spans_ok(out@, w@),
            i <= a@.len(),
            j <= b@.len(),
            forall|k: int| #![trigger a@[k]] 0 <= k < i ==> high_end(a@[k]) < at,
            forall|k: int| #![trigger b@[k]] 0 <= k < j ==> high_end(b@[k]) < at,
            i < a@.len() && j < b@.len() ==> at <= low_end(a@[i as int]) || at <= low_end(
                b@[j as int],
            ),
            forall|k: int| #![trigger out@[k]] 0 <= k < out@.len() ==> high_end(out@[k]) < at,
            i < a@.len() && j < b@.len() ==> forall|k: int|
                #![trigger out@[k]]
                0 <= k < out@.len() ==> high_end(out@[k]) + 1 < low_end(a@[i as int]) || high_end(
                    out@[k],
                ) + 1 < low_end(b@[j as int]),
            forall|x: int|
                x < at ==> (#[trigger] within(out@, x) <==> within(a@, x) && within(b@, x)),
        decreases a@.len() - i + b@.len() - j,
    {
        let ghost o0 = out@;
        let ghost at0 = at;
        let ghost ai = a@[i as int];
        let ghost bj = b@[j as int];
        let p = a[i].dup();
        let q = b[j].dup();
        let first = p.hi.ult(&q.hi);
        let lo = if p.lo.ult(&q.lo) {
            q.lo
        } else {
            p.lo
        };
        let hi = if first {
            p.hi
        } else {
            q.hi
        };
        let ghost l = bits::nat_of(lo@) as int;
        let ghost h = bits::nat_of(hi@) as int;
        if lo.ule(&hi) {
            out.push(Span { lo, hi });
            proof {
                lemma_within_push(o0, out@[out@.len() - 1]);
                assert(out@ =~= o0.push(out@[out@.len() - 1]));
                assert forall|c: int, d: int|
                    #![trigger out@[c], out@[d]]
                    0 <= c < d < out@.len() implies high_end(out@[c]) + 1 < low_end(out@[d]) by {
                    assert(out@[c] == o0[c]);
                    if d < o0.len() {
                        assert(out@[d] == o0[d]);
                    }
                }
            }
        }
        proof {
            assert forall|x: int| x < h + 1 implies (#[trigger] within(out@, x) <==> within(
                a@,
                x,
            ) && within(b@, x)) by {
                if x >= at0 {
                    assert(!within(o0, x)) by {
                        if within(o0, x) {
                            let k = choose|k: int|
                                0 <= k < o0.len() && low_end(#[trigger] o0[k]) <= x <= high_end(
                                    o0[k],
                                );
                            let _ = o0[k];
                        }
                    }
                    lemma_only(a@, w@, i as int, x);
                    lemma_only(b@, w@, j as int, x);
                } else {
                    assert(within(o0, x) <==> within(a@, x) && within(b@, x));
                }
            }
            at = if h + 1 > at0 {
                h + 1
            } else {
                at0
            };
            if first {
                if i + 1 < a@.len() {
                    assert(high_end(a@[i as int]) < low_end(a@[i + 1]));
                }
            } else {
                if j + 1 < b@.len() {
                    assert(high_end(b@[j as int]) < low_end(b@[j + 1]));
                }
            }
        }
        if first {
            i = i + 1;
        } else {
            j = j + 1;
        }
    }
    proof {
        assert forall|x: int| #[trigger] within(out@, x) <==> within(a@, x) && within(b@, x) by {
            if x >= at {
                if within(out@, x) {
                    let k = choose|k: int|
                        0 <= k < out@.len() && low_end(#[trigger] out@[k]) <= x <= high_end(
                            out@[k],
                        );
                    let _ = out@[k];
                }
                if within(a@, x) && within(b@, x) {
                    let k = choose|k: int|
                        0 <= k < a@.len() && low_end(#[trigger] a@[k]) <= x <= high_end(a@[k]);
                    let r = choose|k: int|
                        0 <= k < b@.len() && low_end(#[trigger] b@[k]) <= x <= high_end(b@[k]);
                    let _ = a@[k];
                    let _ = b@[r];
                }
            }
        }
    }
    out
}

/// The values in either set.
pub fn union(a: &Vec<Span>, b: &Vec<Span>, w: usize) -> (out: Vec<Span>)
    requires
        0 < w <= MAX_WIDTH,
        spans_ok(a@, w as nat),
        spans_ok(b@, w as nat),
    ensures
        spans_ok(out@, w as nat),
        forall|x: int|
            0 <= x < pow2(w as nat) ==> (#[trigger] within(out@, x) <==> within(a@, x) || within(
                b@,
                x,
            )),
{
    let c = complement(a, w);
    let d = complement(b, w);
    let e = intersect(&c, &d, Ghost(w as nat));
    let out = complement(&e, w);
    proof {
        assert forall|x: int| 0 <= x < pow2(w as nat) implies (#[trigger] within(out@, x)
            <==> within(a@, x) || within(b@, x)) by {
            let _ = within(c@, x);
            let _ = within(d@, x);
            let _ = within(e@, x);
        }
    }
    out
}

/// The values in one set and not in the other.
pub fn sym_diff(a: &Vec<Span>, b: &Vec<Span>, w: usize) -> (out: Vec<Span>)
    requires
        0 < w <= MAX_WIDTH,
        spans_ok(a@, w as nat),
        spans_ok(b@, w as nat),
    ensures
        spans_ok(out@, w as nat),
        forall|x: int|
            0 <= x < pow2(w as nat) ==> (#[trigger] within(out@, x) <==> within(a@, x) != within(
                b@,
                x,
            )),
{
    let c = complement(a, w);
    let d = complement(b, w);
    let e = intersect(a, &d, Ghost(w as nat));
    let f = intersect(&c, b, Ghost(w as nat));
    let out = union(&e, &f, w);
    proof {
        assert forall|x: int| 0 <= x < pow2(w as nat) implies (#[trigger] within(out@, x)
            <==> within(a@, x) != within(b@, x)) by {
            let _ = within(c@, x);
            let _ = within(d@, x);
            let _ = within(e@, x);
            let _ = within(f@, x);
        }
    }
    out
}

/// Adds the cyclic interval from `a` up to `b`: one span, or two touching both ends.
pub fn push_cyclic(out: &mut Vec<Span>, a: BitVec, b: BitVec)
    requires
        a@.len() == b@.len(),
        wide(old(out)@, a@.len()),
    ensures
        wide(final(out)@, a@.len()),
        forall|x: int|
            0 <= x < pow2(a@.len()) ==> (#[trigger] within(final(out)@, x) <==> within(
                old(out)@,
                x,
            ) || cyclic(bits::nat_of(a@) as int, bits::nat_of(b@) as int, x)),
{
    let ghost o0 = out@;
    let ghost w = a@.len();
    proof {
        bits::lemma_nat_bound(a@);
        bits::lemma_nat_bound(b@);
        bits::lemma_zeros_nat(w);
        bits::lemma_ones_nat(w);
    }
    if a.ule(&b) {
        out.push(Span { lo: a, hi: b });
        proof {
            lemma_within_push(o0, out@[o0.len() as int]);
            assert(out@ =~= o0.push(out@[o0.len() as int]));
        }
    } else {
        let n = a.len();
        let zero = BitVec::fill(n, false);
        let max = BitVec::fill(n, true);
        assert(zero@ =~= bits::zeros(w));
        assert(max@ =~= bits::ones(w));
        out.push(Span { lo: zero, hi: b });
        let ghost o1 = out@;
        proof {
            lemma_within_push(o0, o1[o0.len() as int]);
            assert(o1 =~= o0.push(o1[o0.len() as int]));
        }
        out.push(Span { lo: a, hi: max });
        proof {
            lemma_within_push(o1, out@[o1.len() as int]);
            assert(out@ =~= o1.push(out@[o1.len() as int]));
        }
    }
}

/// The spans are in the order of their ends below.
pub open spec fn rising(s: Seq<Span>) -> bool {
    forall|i: int, j: int|
        #![trigger s[i], s[j]]
        0 <= i <= j < s.len() ==> low_end(s[i]) <= low_end(s[j])
}

/// Puts a span in its place.
fn place(out: &mut Vec<Span>, p: Span, w: Ghost<nat>)
    requires
        wide(old(out)@, w@),
        rising(old(out)@),
        p.lo@.len() == w@,
        p.hi@.len() == w@,
        low_end(p) <= high_end(p),
    ensures
        wide(final(out)@, w@),
        rising(final(out)@),
        forall|x: int| #[trigger]
            within(final(out)@, x) <==> within(old(out)@, x) || low_end(p) <= x <= high_end(p),
        final(out)@.len() == old(out)@.len() + 1,
{
    let ghost o0 = out@;
    let ghost pp = p;
    let mut i: usize = 0;
    while i < out.len() && out[i].lo.ule(&p.lo)
        invariant
            out@ == o0,
            wide(o0, w@),
            p == pp,
            p.lo@.len() == w@,
            i <= out@.len(),
            forall|k: int| #![trigger o0[k]] 0 <= k < i ==> low_end(o0[k]) <= low_end(p),
        decreases out@.len() - i,
    {
        i = i + 1;
    }
    out.insert(i, p);
    proof {
        assert(out@ =~= o0.insert(i as int, pp));
        assert forall|k: int| 0 <= k < out@.len() implies #[trigger] out@[k] == (if k < i {
            o0[k]
        } else if k == i {
            pp
        } else {
            o0[k - 1]
        }) by {}
        assert forall|a: int, b: int| #![trigger out@[a], out@[b]] 0 <= a <= b < out@.len() implies low_end(
            out@[a],
        ) <= low_end(out@[b]) by {
            let a0 = if a < i {
                a
            } else {
                a - 1
            };
            let b0 = if b < i {
                b
            } else {
                b - 1
            };
            if a != i && b != i {
                assert(low_end(o0[a0]) <= low_end(o0[b0]));
            } else if a == i && b > i {
                assert(low_end(o0[i as int]) <= low_end(o0[b0]));
            }
        }
        assert forall|x: int| #[trigger] within(out@, x) <==> within(o0, x) || low_end(pp) <= x
            <= high_end(pp) by {
            if within(o0, x) {
                let k = choose|k: int|
                    0 <= k < o0.len() && low_end(#[trigger] o0[k]) <= x <= high_end(o0[k]);
                if k < i {
                    assert(out@[k] == o0[k]);
                } else {
                    assert(out@[k + 1] == o0[k]);
                }
            }
            if low_end(pp) <= x <= high_end(pp) {
                assert(out@[i as int] == pp);
            }
            if within(out@, x) {
                let k = choose|k: int|
                    0 <= k < out@.len() && low_end(#[trigger] out@[k]) <= x <= high_end(out@[k]);
                if k < i {
                    assert(out@[k] == o0[k]);
                } else if k > i {
                    assert(out@[k] == o0[k - 1]);
                }
            }
        }
    }
}

/// Spans in any order as a set: sorted, adjacent ones merged.
pub fn normalize(v: &Vec<Span>, w: usize) -> (out: Vec<Span>)
    requires
        0 < w <= MAX_WIDTH,
        wide(v@, w as nat),
    ensures
        spans_ok(out@, w as nat),
        forall|x: int| #[trigger] within(out@, x) <==> within(v@, x),
{
    let mut s: Vec<Span> = Vec::new();
    let mut i: usize = 0;
    proof {
        assert(v@.take(0) =~= Seq::empty());
    }
    while i < v.len()
        invariant
            wide(v@, w as nat),
            i <= v@.len(),
            wide(s@, w as nat),
            rising(s@),
            forall|x: int| #[trigger] within(s@, x) <==> within(v@.take(i as int), x),
        decreases v@.len() - i,
    {
        let p = v[i].dup();
        let ghost s0 = s@;
        let ghost pp = p;
        place(&mut s, p, Ghost(w as nat));
        proof {
            assert(v@.take(i + 1) =~= v@.take(i as int).push(v@[i as int]));
            lemma_within_push(v@.take(i as int), v@[i as int]);
            assert forall|x: int| #[trigger] within(s@, x) <==> within(v@.take(i + 1), x) by {
                let _ = within(s0, x);
            }
        }
        i = i + 1;
    }
    assert(v@.take(v@.len() as int) =~= v@);
    let mut out: Vec<Span> = Vec::new();
    let mut j: usize = 0;
    proof {
        assert(s@.take(0) =~= Seq::empty());
    }
    while j < s.len()
        invariant
            0 < w <= MAX_WIDTH,
            wide(s@, w as nat),
            rising(s@),
            j <= s@.len(),
            spans_ok(out@, w as nat),
            out@.len() > 0 ==> j > 0 && low_end(out@[out@.len() - 1]) <= low_end(s@[j - 1]),
            forall|x: int| #[trigger] within(out@, x) <==> within(s@.take(j as int), x),
        decreases s@.len() - j,
    {
        let p = s[j].dup();
        let ghost o0 = out@;
        let ghost sj = s@[j as int];
        let n = out.len();
        proof {
            assert(s@.take(j + 1) =~= s@.take(j as int).push(sj));
            lemma_within_push(s@.take(j as int), sj);
            if j > 0 {
                assert(low_end(s@[j - 1]) <= low_end(s@[j as int]));
            }
        }
        if n > 0 {
            let last = out[n - 1].dup();
            proof {
                bits::lemma_nat_bound(last.hi@);
                bits::lemma_ones_nat(w as nat);
            }
            let top = last.hi.is_ones();
            proof {
                if !top && bits::nat_of(last.hi@) == pow2(w as nat) - 1 {
                    bits::lemma_nat_injective(last.hi@, bits::ones(w as nat));
                }
            }
            let joins = if top {
                true
            } else {
                p.lo.ule(&inc(&last.hi))
            };
            if joins {
                proof {
                    bits::lemma_nat_bound(p.lo@);
                    bits::lemma_nat_bound(p.hi@);
                }
                if last.hi.ult(&p.hi) {
                    let merged = Span { lo: last.lo, hi: p.hi };
                    out.set(n - 1, merged);
                    proof {
                        let z = out@[n - 1];
                        assert forall|x: int| #[trigger] within(out@, x) <==> within(
                            s@.take(j + 1),
                            x,
                        ) by {
                            lemma_replace(o0, out@, n - 1, x);
                            let _ = within(o0, x);
                            let _ = within(s@.take(j as int), x);
                            if low_end(o0[n - 1]) <= x <= high_end(o0[n - 1]) {
                                assert(within(o0, x));
                            }
                        }
                        assert forall|a: int, b: int|
                            #![trigger out@[a], out@[b]]
                            0 <= a < b < out@.len() implies high_end(out@[a]) < low_end(out@[b]) by {
                            assert(out@[a] == o0[a]);
                            assert(high_end(o0[a]) < low_end(o0[b]));
                        }
                    }
                } else {
                    proof {
                        assert forall|x: int| #[trigger] within(out@, x) <==> within(
                            s@.take(j + 1),
                            x,
                        ) by {
                            let _ = within(s@.take(j as int), x);
                            if low_end(sj) <= x <= high_end(sj) {
                                assert(low_end(o0[n - 1]) <= x <= high_end(o0[n - 1]));
                            }
                        }
                    }
                }
                j = j + 1;
                continue;
            }
        }
        let ghost pp = p;
        out.push(p);
        proof {
            lemma_within_push(o0, pp);
            assert(out@ =~= o0.push(pp));
            assert forall|a: int, b: int|
                #![trigger out@[a], out@[b]]
                0 <= a < b < out@.len() implies high_end(out@[a]) < low_end(out@[b]) by {
                assert(out@[a] == o0[a]);
                if b < o0.len() {
                    assert(out@[b] == o0[b]);
                } else if a < n - 1 {
                    assert(high_end(o0[a]) < low_end(o0[n - 1]));
                }
            }
            assert forall|x: int| #[trigger] within(out@, x) <==> within(s@.take(j + 1), x) by {
                let _ = within(o0, x);
            }
        }
        j = j + 1;
    }
    assert(s@.take(s@.len() as int) =~= s@);
    out
}

/// One span replaced.
proof fn lemma_replace(a: Seq<Span>, b: Seq<Span>, i: int, x: int)
    requires
        0 <= i < a.len(),
        b == a.update(i, b[i]),
        low_end(b[i]) == low_end(a[i]),
        high_end(a[i]) <= high_end(b[i]),
    ensures
        within(b, x) <==> within(a, x) || low_end(b[i]) <= x <= high_end(b[i]),
{
    if within(a, x) {
        let k = choose|k: int| 0 <= k < a.len() && low_end(#[trigger] a[k]) <= x <= high_end(a[k]);
        if k != i {
            assert(b[k] == a[k]);
        } else {
            let _ = b[i];
        }
    }
    if low_end(b[i]) <= x <= high_end(b[i]) {
        assert(within(b, x));
    }
    if within(b, x) {
        let k = choose|k: int| 0 <= k < b.len() && low_end(#[trigger] b[k]) <= x <= high_end(b[k]);
        if k != i {
            assert(b[k] == a[k]);
        }
    }
}

/// Both lists of spans hold the same values.
pub open spec fn same_set(s: Seq<Span>, t: Seq<Span>, w: nat) -> bool {
    forall|x: int| 0 <= x < pow2(w) ==> #[trigger] within(s, x) == within(t, x)
}

/// The first `k` spans of lists that hold the same values are the same.
proof fn lemma_one_form(s: Seq<Span>, t: Seq<Span>, w: nat, k: int)
    requires
        spans_ok(s, w),
        spans_ok(t, w),
        same_set(s, t, w),
        0 <= k <= s.len(),
    ensures
        k <= t.len(),
        forall|i: int|
            #![trigger s[i]]
            #![trigger t[i]]
            0 <= i < k ==> low_end(s[i]) == low_end(t[i]) && high_end(s[i]) == high_end(t[i]),
    decreases k,
{
    if k > 0 {
        let e = k - 1;
        lemma_one_form(s, t, w, e);
        let p = s[e];
        bits::lemma_nat_bound(p.lo@);
        bits::lemma_nat_bound(p.hi@);
        let x = low_end(p) as int;
        assert(within(s, x));
        assert(within(t, x));
        let j = choose|j: int| 0 <= j < t.len() && low_end(#[trigger] t[j]) <= x <= high_end(t[j]);
        if j < e {
            assert(high_end(s[j]) + 1 < low_end(s[e]));
        }
        let q = t[e];
        bits::lemma_nat_bound(q.lo@);
        bits::lemma_nat_bound(q.hi@);
        if e < j {
            assert(high_end(t[e]) + 1 < low_end(t[j]));
        }
        let y = low_end(q) as int;
        assert(within(t, y));
        assert(within(s, y));
        let i = choose|i: int| 0 <= i < s.len() && low_end(#[trigger] s[i]) <= y <= high_end(s[i]);
        if i < e {
            assert(high_end(t[i]) + 1 < low_end(t[e]));
        } else if e < i {
            assert(high_end(s[e]) + 1 < low_end(s[i]));
        }
        assert(x == y);
        if high_end(p) < high_end(q) {
            let z = high_end(p) as int + 1;
            assert(within(t, z));
            assert(within(s, z));
            let a = choose|a: int|
                0 <= a < s.len() && low_end(#[trigger] s[a]) <= z <= high_end(s[a]);
            if a < e {
                assert(high_end(s[a]) + 1 < low_end(s[e]));
            } else if e < a {
                assert(high_end(s[e]) + 1 < low_end(s[a]));
            }
        } else if high_end(q) < high_end(p) {
            let z = high_end(q) as int + 1;
            assert(within(s, z));
            assert(within(t, z));
            let a = choose|a: int|
                0 <= a < t.len() && low_end(#[trigger] t[a]) <= z <= high_end(t[a]);
            if a < e {
                assert(high_end(t[a]) + 1 < low_end(t[e]));
            } else if e < a {
                assert(high_end(t[e]) + 1 < low_end(t[a]));
            }
        }
    }
}

/// A set of values has one list of spans in order and apart: no other such list is shorter.
pub proof fn law_sets_have_one_form(s: Seq<Span>, t: Seq<Span>, w: nat)
    requires
        spans_ok(s, w),
        spans_ok(t, w),
        same_set(s, t, w),
    ensures
        s.len() == t.len(),
        forall|i: int|
            #![trigger s[i]]
            0 <= i < s.len() ==> low_end(s[i]) == low_end(t[i]) && high_end(s[i]) == high_end(t[i]),
{
    lemma_one_form(s, t, w, s.len() as int);
    lemma_one_form(t, s, w, t.len() as int);
}

} // verus!
