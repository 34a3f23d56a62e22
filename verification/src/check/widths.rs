//! The width assignments that are tried.

use vstd::prelude::*;

verus! {

/// How far each of `n` width variables ranges: all widths for one, fewer for more.
pub open spec fn side(n: nat) -> nat {
    if n <= 1 {
        512
    } else if n == 2 {
        64
    } else if n == 3 {
        16
    } else if n == 4 {
        8
    } else if n == 5 {
        5
    } else if n == 6 {
        4
    } else if n == 7 {
        3
    } else {
        2
    }
}

/// An assignment of `n` widths in range.
pub open spec fn in_domain(ws: Seq<u16>, n: nat, most: nat) -> bool {
    &&& ws.len() == n
    &&& forall|i: int| #![trigger ws[i]] 0 <= i < n ==> 1 <= ws[i] <= most
}

/// The assignment is listed.
pub open spec fn listed(all: Seq<Vec<u16>>, ws: Seq<u16>) -> bool {
    exists|k: int| 0 <= k < all.len() && (#[trigger] all[k])@ == ws
}

/// Copies an assignment, with one more width.
fn with(ws: &Vec<u16>, w: u16) -> (r: Vec<u16>)
    ensures
        r@ == ws@.push(w),
{
    let mut r: Vec<u16> = Vec::with_capacity(ws.len());
    let mut i: usize = 0;
    while i < ws.len()
        invariant
            i <= ws@.len(),
            r@ == ws@.take(i as int),
        decreases ws@.len() - i,
    {
        r.push(ws[i]);
        i = i + 1;
        assert(r@ =~= ws@.take(i as int));
    }
    assert(r@ =~= ws@);
    r.push(w);
    r
}

/// Every assignment of `prev` with every width for one more variable.
fn extend(prev: &Vec<Vec<u16>>, n: usize, most: u16) -> (r: Vec<Vec<u16>>)
    requires
        most <= 512,
        forall|k: int|
            0 <= k < prev@.len() ==> in_domain((#[trigger] prev@[k])@, n as nat, most as nat),
        forall|ws: Seq<u16>| #[trigger] in_domain(ws, n as nat, most as nat) ==> listed(prev@, ws),
    ensures
        forall|k: int|
            0 <= k < r@.len() ==> in_domain((#[trigger] r@[k])@, (n + 1) as nat, most as nat),
        forall|ws: Seq<u16>| #[trigger]
            in_domain(ws, (n + 1) as nat, most as nat) ==> listed(r@, ws),
{
    let mut r: Vec<Vec<u16>> = Vec::new();
    let mut k: usize = 0;
    while k < prev.len()
        invariant
            most <= 512,
            k <= prev@.len(),
            forall|j: int|
                0 <= j < prev@.len() ==> in_domain((#[trigger] prev@[j])@, n as nat, most as nat),
            forall|j: int|
                0 <= j < r@.len() ==> in_domain((#[trigger] r@[j])@, (n + 1) as nat, most as nat),
            forall|j: int, w: u16|
                #![trigger prev@[j]@.push(w)]
                0 <= j < k && 1 <= w <= most ==> listed(r@, prev@[j]@.push(w)),
        decreases prev@.len() - k,
    {
        let mut w: u16 = 1;
        while w <= most
            invariant
                most <= 512,
                1 <= w <= most + 1,
                k < prev@.len(),
                forall|j: int|
                    0 <= j < prev@.len() ==> in_domain(
                        (#[trigger] prev@[j])@,
                        n as nat,
                        most as nat,
                    ),
                forall|j: int|
                    0 <= j < r@.len() ==> in_domain(
                        (#[trigger] r@[j])@,
                        (n + 1) as nat,
                        most as nat,
                    ),
                forall|j: int, v: u16|
                    #![trigger prev@[j]@.push(v)]
                    0 <= j < k && 1 <= v <= most ==> listed(r@, prev@[j]@.push(v)),
                forall|v: u16|
                    #![trigger prev@[k as int]@.push(v)]
                    1 <= v < w ==> listed(r@, prev@[k as int]@.push(v)),
            decreases most + 1 - w,
        {
            let ghost r0 = r@;
            let v = with(&prev[k], w);
            r.push(v);
            proof {
                let _ = prev@[k as int];
                assert(r@[r0.len() as int]@ == prev@[k as int]@.push(w));
                assert forall|ws: Seq<u16>| #[trigger] listed(r0, ws) implies listed(r@, ws) by {
                    let q = choose|q: int| 0 <= q < r0.len() && (#[trigger] r0[q])@ == ws;
                    assert(r@[q] == r0[q]);
                }
                assert forall|j: int| 0 <= j < r@.len() implies in_domain(
                    (#[trigger] r@[j])@,
                    (n + 1) as nat,
                    most as nat,
                ) by {
                    if j < r0.len() {
                        assert(r@[j] == r0[j]);
                    } else {
                        let p = prev@[k as int]@;
                        assert forall|i: int| #![trigger r@[j]@[i]] 0 <= i < n + 1 implies 1 <= r@[j]@[i]
                            <= most by {
                            if i < n {
                                assert(r@[j]@[i] == p[i]);
                            }
                        }
                    }
                }
            }
            w = w + 1;
        }
        k = k + 1;
    }
    proof {
        assert forall|ws: Seq<u16>| #[trigger] in_domain(ws, (n + 1) as nat, most as nat) implies listed(
            r@,
            ws,
        ) by {
            let p = ws.drop_last();
            assert forall|i: int| #![trigger p[i]] 0 <= i < n implies 1 <= p[i] <= most by {
                assert(p[i] == ws[i]);
            }
            assert(in_domain(p, n as nat, most as nat));
            let j = choose|j: int| 0 <= j < prev@.len() && (#[trigger] prev@[j])@ == p;
            let _ = ws[n as int];
            assert(prev@[j]@.push(ws.last()) =~= ws);
        }
    }
    r
}

/// Every assignment of `n` widths in range.
pub(crate) fn width_assignments(n: usize) -> (r: Vec<Vec<u16>>)
    requires
        n <= 8,
    ensures
        forall|k: int| 0 <= k < r@.len() ==> in_domain((#[trigger] r@[k])@, n as nat, side(n as nat)),
        forall|ws: Seq<u16>| #[trigger] in_domain(ws, n as nat, side(n as nat)) ==> listed(r@, ws),
{
    let most: u16 = match n {
        0 | 1 => 512,
        2 => 64,
        3 => 16,
        4 => 8,
        5 => 5,
        6 => 4,
        7 => 3,
        _ => 2,
    };
    let first: Vec<u16> = Vec::new();
    let mut r: Vec<Vec<u16>> = Vec::new();
    r.push(first);
    proof {
        assert forall|ws: Seq<u16>| #[trigger] in_domain(ws, 0, most as nat) implies listed(r@, ws) by {
            assert(ws =~= r@[0]@);
        }
    }
    let mut i: usize = 0;
    while i < n
        invariant
            i <= n <= 8,
            most == side(n as nat),
            forall|k: int|
                0 <= k < r@.len() ==> in_domain((#[trigger] r@[k])@, i as nat, most as nat),
            forall|ws: Seq<u16>| #[trigger] in_domain(ws, i as nat, most as nat) ==> listed(r@, ws),
        decreases n - i,
    {
        r = extend(&r, i, most);
        i = i + 1;
        proof {
            let j = (i - 1) as usize;
            assert((j + 1) as nat == i as nat);
            assert forall|ws: Seq<u16>| #[trigger] in_domain(ws, i as nat, most as nat) implies listed(
                r@,
                ws,
            ) by {
                assert(in_domain(ws, (j + 1) as nat, most as nat));
            }
        }
    }
    r
}

} // verus!
