//! Linear combinations of bitwise functions by their values at the corners, where every atom is
//! zero or all ones.
//!
//! At each bit position the atoms have one of the patterns the corners have, so a bitwise
//! function has there the bit of its value at that corner. Weighing the corner values of a
//! linear combination by the positions of their patterns gives back its value, negated, because
//! all ones is minus one: the corner values determine it.

use vstd::prelude::*;
use crate::term;
use crate::modular;
use crate::bits;
use vstd::arithmetic::power2::pow2;
use crate::term::{Env, Term};

verus! {

broadcast use crate::term::lemma_value_len;

/// The atoms' bits at position `b`.
pub open spec fn pattern(tm: Seq<Term>, atoms: Seq<u32>, env: Env, b: int) -> Seq<bool> {
    Seq::new(atoms.len(), |j: int| term::value(tm[atoms[j] as int], env)[b])
}

/// The corner with the atoms' bits at position `b`.
pub open spec fn corner(tm: Seq<Term>, atoms: Seq<u32>, env: Env, b: int) -> int {
    bits::nat_of(pattern(tm, atoms, env, b)) as int
}

/// The corner at each position.
pub open spec fn corners(tm: Seq<Term>, atoms: Seq<u32>, env: Env) -> spec_fn(int) -> int {
    |b: int| corner(tm, atoms, env, b)
}

/// A corner is one of `2^t`, and has the atoms' bits.
pub proof fn lemma_corner(tm: Seq<Term>, atoms: Seq<u32>, env: Env, b: int)
    ensures
        0 <= corner(tm, atoms, env, b) < pow2(atoms.len()),
        forall|j: int|
            0 <= j < atoms.len() ==> #[trigger] bits::int_bit(
                corner(tm, atoms, env, b),
                j as nat,
            ) == term::value(tm[atoms[j] as int], env)[b],
{
    let s = pattern(tm, atoms, env, b);
    bits::lemma_nat_bound(s);
    assert forall|j: int| 0 <= j < atoms.len() implies #[trigger] bits::int_bit(
        corner(tm, atoms, env, b),
        j as nat,
    ) == term::value(tm[atoms[j] as int], env)[b] by {
        bits::lemma_bit_of_nat(s, j);
    }
}

/// The numbers at the corners, weighed by the positions below `n`.
pub open spec fn dot(r: spec_fn(int) -> int, cs: spec_fn(int) -> int, n: nat) -> int
    decreases n,
{
    if n == 0 {
        0
    } else {
        dot(r, cs, (n - 1) as nat) + r(cs(n - 1)) * pow2((n - 1) as nat)
    }
}

/// The numbers at the corners.
pub open spec fn nums(row: Seq<Seq<bool>>) -> spec_fn(int) -> int {
    |p: int| modular::num(row[p])
}

/// Weighing is linear.
pub proof fn lemma_dot(
    z: spec_fn(int) -> int,
    x: spec_fn(int) -> int,
    y: spec_fn(int) -> int,
    a: int,
    c: int,
    d: int,
    cs: spec_fn(int) -> int,
    w: nat,
    n: nat,
)
    requires
        forall|b: int|
            #![trigger cs(b)]
            0 <= b < n ==> modular::eqm(z(cs(b)), a * x(cs(b)) + c * y(cs(b)) + d, w),
    ensures
        modular::eqm(dot(z, cs, n), a * dot(x, cs, n) + c * dot(y, cs, n) + d * (pow2(n) - 1), w),
    decreases n,
{
    if n == 0 {
        bits::lemma_pow2_zero();
        assert(a * 0 + c * 0 + d * 0 == 0) by (nonlinear_arith);
    } else {
        let m = (n - 1) as nat;
        lemma_dot(z, x, y, a, c, d, cs, w, m);
        let p = pow2(m) as int;
        let q = cs(n - 1);
        bits::lemma_pow2_step(m);
        modular::lemma_eqm_mul(z(q), a * x(q) + c * y(q) + d, p, p, w);
        modular::lemma_eqm_add(
            dot(z, cs, m),
            a * dot(x, cs, m) + c * dot(y, cs, m) + d * (p - 1),
            z(q) * p,
            (a * x(q) + c * y(q) + d) * p,
            w,
        );
        let u = dot(x, cs, m);
        let v = dot(y, cs, m);
        let xq = x(q);
        let yq = y(q);
        let ax = a * xq;
        let cy = c * yq;
        assert((ax + cy + d) * p == ax * p + cy * p + d * p) by (nonlinear_arith);
        assert(a * (u + xq * p) == a * u + ax * p) by (nonlinear_arith)
            requires
                ax == a * xq,
        ;
        assert(c * (v + yq * p) == c * v + cy * p) by (nonlinear_arith)
            requires
                cy == c * yq,
        ;
        assert(d * (p - 1) + d * p == d * (2 * p - 1)) by (nonlinear_arith);
    }
}

/// The corner values give the node: weighed, they are its value negated.
pub open spec fn tells(tm: Seq<Term>, atoms: Seq<u32>, row: Seq<Seq<bool>>, i: u32, w: nat) -> bool {
    forall|env: Env|
        #![trigger term::value(tm[i as int], env)]
        modular::eqm(
            modular::num(term::value(tm[i as int], env)) + dot(
                nums(row),
                corners(tm, atoms, env),
                w,
            ),
            0,
            w,
        )
}

/// Every corner value is zero or all ones, and the node has at each position the bit of its
/// corner.
pub open spec fn uniform(tm: Seq<Term>, atoms: Seq<u32>, row: Seq<Seq<bool>>, i: u32, w: nat) -> bool {
    &&& forall|p: int|
        #![trigger row[p]]
        0 <= p < row.len() ==> row[p] == bits::zeros(w) || row[p] == bits::ones(w)
    &&& forall|env: Env, b: int|
        #![trigger term::value(tm[i as int], env)[b]]
        0 <= b < w ==> term::value(tm[i as int], env)[b] == (row[corner(tm, atoms, env, b)]
            == bits::ones(w))
}

/// A value and the weighed bits of its corners.
proof fn lemma_bits(v: Seq<bool>, r: spec_fn(int) -> int, cs: spec_fn(int) -> int, n: nat)
    requires
        n <= v.len(),
        forall|b: int|
            #![trigger cs(b)]
            0 <= b < n ==> r(cs(b)) == (if v[b] {
                pow2(v.len()) - 1
            } else {
                0int
            }),
    ensures
        modular::num(v.take(n as int)) + dot(r, cs, n) == pow2(v.len()) * modular::num(
            v.take(n as int),
        ),
    decreases n,
{
    let m = pow2(v.len()) as int;
    if n == 0 {
        assert(v.take(0) =~= Seq::empty());
        assert(m * 0 == 0);
    } else {
        let k = (n - 1) as nat;
        lemma_bits(v, r, cs, k);
        bits::lemma_nat_take_step(v, n - 1);
        let p = pow2(k) as int;
        let _ = cs(n - 1);
        let x = modular::num(v.take(k as int));
        assert(1 * p == p && 0 * p == 0);
        assert(m * (x + p) == m * x + m * p) by (nonlinear_arith);
        assert((m - 1) * p == m * p - p) by (nonlinear_arith);
    }
}

/// A bitwise function is told by its corner values.
pub proof fn lemma_uniform_tells(
    tm: Seq<Term>,
    atoms: Seq<u32>,
    row: Seq<Seq<bool>>,
    i: u32,
    w: nat,
)
    requires
        term::tok(tm[i as int]),
        term::twidth(tm[i as int]) == w,
        row.len() == pow2(atoms.len()),
        uniform(tm, atoms, row, i, w),
    ensures
        tells(tm, atoms, row, i, w),
{
    bits::lemma_ones_nat(w);
    bits::lemma_zeros_nat(w);
    assert forall|env: Env| #![trigger term::value(tm[i as int], env)] modular::eqm(
        modular::num(term::value(tm[i as int], env)) + dot(
            nums(row),
            corners(tm, atoms, env),
            w,
        ),
        0,
        w,
    ) by {
        let v = term::value(tm[i as int], env);
        let cs = corners(tm, atoms, env);
        assert forall|b: int| #![trigger cs(b)] 0 <= b < w implies nums(row)(cs(b)) == (if v[b] {
            pow2(v.len()) - 1
        } else {
            0int
        }) by {
            lemma_corner(tm, atoms, env, b);
            let _ = row[corner(tm, atoms, env, b)];
            let _ = term::value(tm[i as int], env)[b];
            if w > 0 {
                assert(bits::zeros(w)[0] != bits::ones(w)[0]);
            }
        }
        lemma_bits(v, nums(row), cs, w);
        assert(v.take(w as int) =~= v);
        modular::lemma_eqm_modulus(w, modular::num(v));
        vstd::arithmetic::mul::lemma_mul_is_commutative(pow2(w) as int, modular::num(v));
    }
}

/// A node whose corner values combine those of two others linearly, as the nodes do, is told by
/// them.
pub proof fn lemma_tells(
    tm: Seq<Term>,
    atoms: Seq<u32>,
    z: Seq<Seq<bool>>,
    i: u32,
    x: Seq<Seq<bool>>,
    ix: u32,
    y: Seq<Seq<bool>>,
    iy: u32,
    a: int,
    c: int,
    d: int,
    w: nat,
)
    requires
        w > 0,
        z.len() == pow2(atoms.len()),
        tells(tm, atoms, x, ix, w),
        tells(tm, atoms, y, iy, w),
        forall|p: int|
            #![trigger z[p]]
            0 <= p < z.len() ==> modular::eqm(
                modular::num(z[p]),
                a * modular::num(x[p]) + c * modular::num(y[p]) + d,
                w,
            ),
        forall|env: Env|
            #![trigger term::value(tm[i as int], env)]
            modular::eqm(
                modular::num(term::value(tm[i as int], env)),
                a * modular::num(term::value(tm[ix as int], env)) + c * modular::num(
                    term::value(tm[iy as int], env),
                ) + d,
                w,
            ),
    ensures
        tells(tm, atoms, z, i, w),
{
    assert forall|env: Env| #![trigger term::value(tm[i as int], env)] modular::eqm(
        modular::num(term::value(tm[i as int], env)) + dot(
            nums(z),
            corners(tm, atoms, env),
            w,
        ),
        0,
        w,
    ) by {
        let cs = corners(tm, atoms, env);
        assert forall|b: int| #![trigger cs(b)] 0 <= b < w implies modular::eqm(
            nums(z)(cs(b)),
            a * nums(x)(cs(b)) + c * nums(y)(cs(b)) + d,
            w,
        ) by {
            lemma_corner(tm, atoms, env, b);
            let _ = z[cs(b)];
        }
        lemma_dot(nums(z), nums(x), nums(y), a, c, d, cs, w, w);
        let vx = modular::num(term::value(tm[ix as int], env));
        let vy = modular::num(term::value(tm[iy as int], env));
        let dx = dot(nums(x), cs, w);
        let dy = dot(nums(y), cs, w);
        let vi = modular::num(term::value(tm[i as int], env));
        let dz = dot(nums(z), cs, w);
        let m = pow2(w) as int;
        modular::lemma_eqm_add(
            vi,
            a * vx + c * vy + d,
            dz,
            a * dx + c * dy + d * (m - 1),
            w,
        );
        modular::lemma_eqm_mul(a, a, vx + dx, 0, w);
        modular::lemma_eqm_mul(c, c, vy + dy, 0, w);
        modular::lemma_eqm_add(a * (vx + dx), a * 0, c * (vy + dy), c * 0, w);
        modular::lemma_eqm_modulus(w, d);
        modular::lemma_eqm_add(
            a * (vx + dx) + c * (vy + dy),
            a * 0 + c * 0,
            d * m,
            0,
            w,
        );
        assert(a * (vx + dx) == a * vx + a * dx) by (nonlinear_arith);
        assert(c * (vy + dy) == c * vy + c * dy) by (nonlinear_arith);
        assert(d + d * (m - 1) == d * m) by (nonlinear_arith);
        assert(a * 0 + c * 0 == 0) by (nonlinear_arith);
    }
}

/// A constant is told by itself at every corner.
pub proof fn lemma_const_tells(
    tm: Seq<Term>,
    atoms: Seq<u32>,
    z: Seq<Seq<bool>>,
    i: u32,
    v: Seq<bool>,
)
    requires
        z.len() == pow2(atoms.len()),
        forall|p: int| #![trigger z[p]] 0 <= p < z.len() ==> z[p] == v,
        forall|env: Env| #[trigger] term::value(tm[i as int], env) == v,
    ensures
        tells(tm, atoms, z, i, v.len()),
{
    let w = v.len();
    let k = modular::num(v);
    assert forall|env: Env| #![trigger term::value(tm[i as int], env)] modular::eqm(
        modular::num(term::value(tm[i as int], env)) + dot(
            nums(z),
            corners(tm, atoms, env),
            w,
        ),
        0,
        w,
    ) by {
        let cs = corners(tm, atoms, env);
        assert forall|b: int| #![trigger cs(b)] 0 <= b < w implies modular::eqm(
            nums(z)(cs(b)),
            0 * nums(z)(cs(b)) + 0 * nums(z)(cs(b)) + k,
            w,
        ) by {
            lemma_corner(tm, atoms, env, b);
            let _ = z[cs(b)];
            assert(0 * nums(z)(cs(b)) == 0);
        }
        lemma_dot(nums(z), nums(z), nums(z), 0, 0, k, cs, w, w);
        let m = pow2(w) as int;
        let dz = dot(nums(z), cs, w);
        assert(0 * dz == 0);
        modular::lemma_eqm_add(k, k, dz, k * (m - 1), w);
        modular::lemma_eqm_modulus(w, k);
        assert(k + k * (m - 1) == k * m) by (nonlinear_arith);
    }
}

/// Two nodes with one row of corner values are equal.
pub proof fn lemma_same_corners(
    tm: Seq<Term>,
    atoms: Seq<u32>,
    row: Seq<Seq<bool>>,
    v: Seq<bool>,
    u: Seq<bool>,
    env: Env,
    w: nat,
)
    requires
        v.len() == w,
        u.len() == w,
        modular::eqm(modular::num(v) + dot(nums(row), corners(tm, atoms, env), w), 0, w),
        modular::eqm(modular::num(u) + dot(nums(row), corners(tm, atoms, env), w), 0, w),
    ensures
        u == v,
{
    let d = dot(nums(row), corners(tm, atoms, env), w);
    modular::lemma_eqm_sub(modular::num(v) + d, 0, d, d, w);
    modular::lemma_eqm_sub(modular::num(u) + d, 0, d, d, w);
    modular::lemma_eqm_same(u, v);
}

} // verus!
