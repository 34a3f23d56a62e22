//! Total preorders of a few values, as ranks: ties share a rank, and the ranks are `0..=max`.

use vstd::prelude::*;
use vstd::arithmetic::power::pow;

verus! {

/// The most values ranked (541 preorders at 5).
pub const MAX_ATOMS: usize = 5;

/// Some value has rank `v`.
pub open spec fn taken(r: Seq<u8>, v: int) -> bool {
    exists|j: int| 0 <= j < r.len() && #[trigger] r[j] == v
}

/// Every rank below one that is taken is taken.
pub open spec fn dense(r: Seq<u8>) -> bool {
    forall|i: int, v: int|
        #![trigger r[i], taken(r, v)]
        0 <= i < r.len() && 0 <= v < r[i] ==> taken(r, v)
}

/// The ranks are in the order of the keys.
pub open spec fn orders(r: Seq<u8>, keys: Seq<int>) -> bool {
    &&& r.len() == keys.len()
    &&& forall|i: int, j: int|
        #![trigger r[i], r[j]]
        0 <= i < keys.len() && 0 <= j < keys.len() ==> (r[i] <= r[j] <==> keys[i] <= keys[j])
}

/// Ranks of `k` values.
pub open spec fn preorder(r: Seq<u8>, k: nat) -> bool {
    &&& r.len() == k
    &&& forall|i: int| 0 <= i < k ==> #[trigger] r[i] < k
    &&& dense(r)
}

/// The index of the greatest key below `x`, if there is one.
proof fn greatest_below(keys: Seq<int>, x: int) -> (j: int)
    ensures
        0 <= j < keys.len() && keys[j] < x && (forall|i: int|
            0 <= i < keys.len() && keys[i] < x ==> keys[i] <= keys[j]) || j == -1 && (forall|
            i: int,
        |
            0 <= i < keys.len() ==> keys[i] >= x),
    decreases keys.len(),
{
    if keys.len() == 0 {
        -1
    } else {
        let rest = keys.drop_last();
        let j = greatest_below(rest, x);
        assert forall|i: int| 0 <= i < rest.len() implies rest[i] == keys[i] by {}
        if keys.last() < x && (j == -1 || keys[j] < keys.last()) {
            keys.len() - 1
        } else {
            j
        }
    }
}

/// Keys stand in some preorder.
pub proof fn rank_of(keys: Seq<int>) -> (r: Seq<u8>)
    requires
        keys.len() <= 200,
    ensures
        preorder(r, keys.len()),
        orders(r, keys),
    decreases keys.len(),
{
    if keys.len() == 0 {
        Seq::empty()
    } else {
        let n = keys.len() - 1;
        let rest = keys.drop_last();
        let x = keys.last();
        let r0 = rank_of(rest);
        assert forall|i: int| 0 <= i < n implies rest[i] == keys[i] by {}
        if exists|j: int| 0 <= j < n && keys[j] == x {
            let j = choose|j: int| 0 <= j < n && keys[j] == x;
            let r = r0.push(r0[j]);
            assert forall|i: int, v: int|
                #![trigger r[i], taken(r, v)]
                0 <= i < r.len() && 0 <= v < r[i] implies taken(r, v) by {
                let i0 = if i == n {
                    j
                } else {
                    i
                };
                assert(r0[i0] == r[i]);
                assert(taken(r0, v));
                let t = choose|t: int| 0 <= t < r0.len() && #[trigger] r0[t] == v;
                assert(r[t] == v);
            }
            assert forall|a: int, b: int|
                #![trigger r[a], r[b]]
                0 <= a < keys.len() && 0 <= b < keys.len() implies (r[a] <= r[b] <==> keys[a]
                <= keys[b]) by {
                let a0 = if a == n {
                    j
                } else {
                    a
                };
                let b0 = if b == n {
                    j
                } else {
                    b
                };
                assert(r0[a0] == r[a] && r0[b0] == r[b]);
                assert(rest[a0] == keys[a] && rest[b0] == keys[b]);
            }
            r
        } else {
            let j = greatest_below(rest, x);
            let p: u8 = if j == -1 {
                0
            } else {
                (r0[j] + 1) as u8
            };
            assert forall|i: int| 0 <= i < n implies (#[trigger] r0[i] < p <==> keys[i] < x) by {
                assert(keys[i] != x);
                if j != -1 {
                    assert(r0[i] <= r0[j] <==> rest[i] <= rest[j]);
                }
            }
            let r = Seq::new(
                keys.len(),
                |i: int|
                    if i == n {
                        p
                    } else if r0[i] >= p {
                        (r0[i] + 1) as u8
                    } else {
                        r0[i]
                    },
            );
            assert forall|i: int, v: int|
                #![trigger r[i], taken(r, v)]
                0 <= i < r.len() && 0 <= v < r[i] implies taken(r, v) by {
                if v == p {
                    assert(r[n] == v);
                } else if v < p {
                    let t = if v == r0[j] {
                        j
                    } else {
                        assert(taken(r0, v));
                        choose|t: int| 0 <= t < r0.len() && #[trigger] r0[t] == v
                    };
                    assert(r[t] == v);
                } else {
                    assert(r0[i] + 1 == r[i]);
                    assert(taken(r0, v - 1));
                    let t = choose|t: int| 0 <= t < r0.len() && #[trigger] r0[t] == v - 1;
                    assert(r[t] == v);
                }
            }
            assert forall|a: int, b: int|
                #![trigger r[a], r[b]]
                0 <= a < keys.len() && 0 <= b < keys.len() implies (r[a] <= r[b] <==> keys[a]
                <= keys[b]) by {
                if a < n && b < n {
                    assert(r0[a] <= r0[b] <==> rest[a] <= rest[b]);
                }
                if a < n {
                    assert(r0[a] < p <==> keys[a] < x);
                }
                if b < n {
                    assert(r0[b] < p <==> keys[b] < x);
                }
            }
            r
        }
    }
}

/// The `n` low digits of `c` in base `k`, the least significant first.
pub open spec fn digits(c: nat, k: nat, n: nat) -> Seq<u8>
    decreases n,
{
    if n == 0 {
        Seq::empty()
    } else {
        seq![(c % k) as u8] + digits(c / k, k, (n - 1) as nat)
    }
}

/// Every list of `n` digits in base `k` is the digits of a number below `k^n`.
proof fn code_of(r: Seq<u8>, k: nat) -> (c: nat)
    requires
        k > 0,
        k <= 255,
        forall|i: int| 0 <= i < r.len() ==> #[trigger] r[i] < k,
    ensures
        c < pow(k as int, r.len()),
        digits(c, k, r.len()) == r,
    decreases r.len(),
{
    reveal(pow);
    if r.len() == 0 {
        assert(digits(0, k, 0) =~= r);
        0
    } else {
        let rest = r.skip(1);
        assert forall|i: int| 0 <= i < rest.len() implies #[trigger] rest[i] < k by {
            assert(rest[i] == r[i + 1]);
        }
        let c0 = code_of(rest, k);
        let d = r[0] as nat;
        let c = d + k * c0;
        assert(r[0] < k);
        assert(c % k == d && c / k == c0) by {
            vstd::arithmetic::mul::lemma_mul_is_commutative(k as int, c0 as int);
            vstd::arithmetic::div_mod::lemma_fundamental_div_mod_converse(
                c as int,
                k as int,
                c0 as int,
                d as int,
            );
        }
        let p = pow(k as int, rest.len());
        assert(c < k * p) by (nonlinear_arith)
            requires
                c == d + k * c0,
                d < k,
                c0 < p,
        ;
        assert(pow(k as int, r.len()) == k * p);
        assert(digits(c, k, r.len()) =~= r) by {
            assert(r =~= seq![r[0]] + rest);
        }
        c
    }
}

/// The greatest of some ranks.
fn highest(r: &Vec<u8>) -> (m: u8)
    requires
        r@.len() > 0,
    ensures
        forall|i: int| 0 <= i < r@.len() ==> #[trigger] r@[i] <= m,
        taken(r@, m as int),
{
    let mut m: u8 = r[0];
    assert(taken(r@, m as int));
    let mut i: usize = 1;
    while i < r.len()
        invariant
            1 <= i <= r.len(),
            forall|j: int| 0 <= j < i ==> #[trigger] r@[j] <= m,
            taken(r@, m as int),
        decreases r.len() - i,
    {
        if r[i] > m {
            m = r[i];
            assert(taken(r@, m as int));
        }
        i = i + 1;
    }
    m
}

/// Whether some value has rank `v`.
fn takes(r: &Vec<u8>, v: u8) -> (b: bool)
    ensures
        b == taken(r@, v as int),
{
    let mut i: usize = 0;
    while i < r.len()
        invariant
            i <= r.len(),
            forall|j: int| 0 <= j < i ==> #[trigger] r@[j] != v,
        decreases r.len() - i,
    {
        if r[i] == v {
            return true;
        }
        i = i + 1;
    }
    false
}

/// Whether every rank below one that is taken is taken.
fn is_dense(r: &Vec<u8>) -> (b: bool)
    requires
        r@.len() > 0,
    ensures
        b == dense(r@),
{
    let m = highest(r);
    let ghost w = choose|j: int| 0 <= j < r@.len() && #[trigger] r@[j] == m;
    let mut v: u8 = 0;
    while v < m
        invariant
            v <= m,
            0 <= w < r@.len(),
            r@[w] == m,
            forall|u: int| 0 <= u < v ==> taken(r@, u),
        decreases m - v,
    {
        if !takes(r, v) {
            assert(!dense(r@)) by {
                if dense(r@) {
                    let _ = r@[w];
                    assert(taken(r@, v as int));
                }
            }
            return false;
        }
        v = v + 1;
    }
    true
}

/// `k` to the power of itself.
fn self_power(k: usize) -> (t: u32)
    requires
        1 <= k <= MAX_ATOMS,
    ensures
        t == pow(k as int, k as nat),
        t <= 3125,
{
    proof {
        reveal(pow);
        assert(pow(1, 1) == 1) by {
            reveal_with_fuel(pow, 2);
        }
        assert(pow(2, 2) == 4) by {
            reveal_with_fuel(pow, 3);
        }
        assert(pow(3, 3) == 27) by {
            reveal_with_fuel(pow, 4);
        }
        assert(pow(4, 4) == 256) by {
            reveal_with_fuel(pow, 5);
        }
        assert(pow(5, 5) == 3125) by {
            reveal_with_fuel(pow, 6);
        }
    }
    if k == 1 {
        1
    } else if k == 2 {
        4
    } else if k == 3 {
        27
    } else if k == 4 {
        256
    } else {
        3125
    }
}

/// The digits of `code` in base `k`.
fn spread(code: u32, k: usize) -> (r: Vec<u8>)
    requires
        1 <= k <= MAX_ATOMS,
    ensures
        r@ == digits(code as nat, k as nat, k as nat),
        forall|i: int| 0 <= i < r@.len() ==> #[trigger] r@[i] < k,
{
    let mut r: Vec<u8> = Vec::new();
    let mut c: u32 = code;
    let base: u32 = k as u32;
    proof {
        assert(digits(code as nat, k as nat, k as nat) =~= r@ + digits(
            c as nat,
            k as nat,
            k as nat,
        ));
    }
    while r.len() < k
        invariant
            1 <= k <= MAX_ATOMS,
            base == k,
            r@.len() <= k,
            forall|i: int| 0 <= i < r@.len() ==> #[trigger] r@[i] < k,
            digits(code as nat, k as nat, k as nat) == r@ + digits(
                c as nat,
                k as nat,
                (k - r@.len()) as nat,
            ),
        decreases k - r@.len(),
    {
        let ghost r0 = r@;
        let ghost c0 = c as nat;
        let d: u32 = c % base;
        r.push(d as u8);
        c = c / base;
        proof {
            let m = (k - r0.len()) as nat;
            assert(digits(c0, k as nat, m) =~= seq![(c0 % (k as nat)) as u8] + digits(
                c0 / (k as nat),
                k as nat,
                (m - 1) as nat,
            ));
            assert(r0 + digits(c0, k as nat, m) =~= r@ + digits(
                c as nat,
                k as nat,
                (m - 1) as nat,
            ));
        }
    }
    assert(r@ + digits(c as nat, k as nat, 0) =~= r@);
    r
}

/// Some entry is `r`.
pub open spec fn holds_rank(v: Seq<Vec<u8>>, r: Seq<u8>) -> bool {
    exists|p: int| 0 <= p < v.len() && (#[trigger] v[p])@ == r
}

/// Every total preorder of `k` values, once the code of its ranks comes up.
pub fn enumerate_preorders(k: usize) -> (out: Vec<Vec<u8>>)
    requires
        1 <= k <= MAX_ATOMS,
    ensures
        out@.len() <= 3125,
        forall|p: int| 0 <= p < out@.len() ==> preorder((#[trigger] out@[p])@, k as nat),
        forall|r: Seq<u8>| preorder(r, k as nat) ==> #[trigger] holds_rank(out@, r),
{
    let mut out: Vec<Vec<u8>> = Vec::new();
    let total = self_power(k);
    let mut code: u32 = 0;
    while code < total
        invariant
            1 <= k <= MAX_ATOMS,
            code <= total <= 3125,
            out@.len() <= code,
            forall|p: int| 0 <= p < out@.len() ==> preorder((#[trigger] out@[p])@, k as nat),
            forall|c: nat|
                c < code && dense(#[trigger] digits(c, k as nat, k as nat)) ==> holds_rank(
                    out@,
                    digits(c, k as nat, k as nat),
                ),
        decreases total - code,
    {
        let r = spread(code, k);
        let ghost o0 = out@;
        proof {
            lemma_digits_len(code as nat, k as nat, k as nat);
        }
        if is_dense(&r) {
            out.push(r);
        }
        proof {
            assert forall|c: nat|
                c < code + 1 && dense(#[trigger] digits(c, k as nat, k as nat)) implies holds_rank(
                out@,
                digits(c, k as nat, k as nat),
            ) by {
                if c == code {
                    assert(out@[out@.len() - 1]@ == digits(c, k as nat, k as nat));
                } else {
                    assert(holds_rank(o0, digits(c, k as nat, k as nat)));
                    let p = choose|p: int|
                        0 <= p < o0.len() && (#[trigger] o0[p])@ == digits(c, k as nat, k as nat);
                    assert(out@[p]@ == digits(c, k as nat, k as nat));
                }
            }
        }
        code = code + 1;
    }
    proof {
        assert forall|r: Seq<u8>| preorder(r, k as nat) implies #[trigger] holds_rank(out@, r) by {
            let c = code_of(r, k as nat);
            assert(digits(c, k as nat, k as nat) == r);
        }
    }
    out
}

proof fn lemma_digits_len(c: nat, k: nat, n: nat)
    requires
        k > 0,
    ensures
        digits(c, k, n).len() == n,
    decreases n,
{
    if n > 0 {
        lemma_digits_len(c / k, k, (n - 1) as nat);
        let d = digits(c / k, k, (n - 1) as nat);
        assert(digits(c, k, n) == seq![(c % k) as u8] + d);
    }
}

} // verus!
