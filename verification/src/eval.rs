//! Evaluation: the value of a node over its operands' values, and the seeded points at which
//! values are sampled.

use vstd::prelude::*;
use crate::expr;
use crate::bitvec::BitVec;
use crate::expr::{Context, Node};
use crate::term::Env;

verus! {

broadcast use {crate::term::lemma_value_len, crate::dfs::lemma_freight_push};

/// The step of the generator.
pub const STRIDE: u64 = 0x9e37_79b9_7f4a_7c15;

/// The state of the generator for point `k` after `j` steps.
pub open spec fn stream(seed: u64, k: u64, j: nat) -> u64
    decreases j,
{
    if j == 0 {
        seed ^ k.wrapping_mul(STRIDE)
    } else {
        stream(seed, k, (j - 1) as nat).wrapping_add(STRIDE)
    }
}

/// A state, mixed.
pub open spec fn mixed(x: u64) -> u64 {
    let a = (x ^ (x >> 30)).wrapping_mul(0xbf58_476d_1ce4_e5b9);
    let b = (a ^ (a >> 27)).wrapping_mul(0x94d0_49bb_1331_11eb);
    b ^ (b >> 31)
}

/// Bit `i` of the value at point `k` of the symbol with key `seed`: zero, all ones, then seeded
/// random values.
pub open spec fn point_bit(seed: u64, k: u64, i: int) -> bool {
    if k == 0 {
        false
    } else if k == 1 {
        true
    } else {
        (mixed(stream(seed, k, (i / 64 + 1) as nat)) >> ((i % 64) as u64)) & 1 == 1
    }
}

/// The assignment of point `k`.
pub open spec fn point_env(k: u64) -> Env {
    |key: int, i: int| point_bit(key as u64, k, i)
}

pub(crate) fn mix(x: u64) -> (r: u64)
    ensures
        r == mixed(x),
{
    let a: u64 = (x ^ (x >> 30)).wrapping_mul(0xbf58_476d_1ce4_e5b9);
    let b: u64 = (a ^ (a >> 27)).wrapping_mul(0x94d0_49bb_1331_11eb);
    b ^ (b >> 31)
}

/// The `n`-bit value of a symbol (identified by its key) at point `k`: zero, all ones, then
/// seeded random values. Deterministic.
pub(crate) fn point_value(seed: u64, n: usize, k: u64) -> (r: BitVec)
    ensures
        r@ == Seq::new(n as nat, |i: int| point_bit(seed, k, i)),
{
    let mut v: Vec<bool> = Vec::with_capacity(n);
    let mut x: u64 = seed ^ k.wrapping_mul(STRIDE);
    let mut z: u64 = 0;
    let mut i: usize = 0;
    while i < n
        invariant
            i <= n,
            v@.len() == i,
            forall|j: int| 0 <= j < i ==> #[trigger] v@[j] == point_bit(seed, k, j),
            i % 64 == 0 ==> x == stream(seed, k, (i / 64) as nat),
            i % 64 != 0 ==> x == stream(seed, k, (i / 64 + 1) as nat),
            i % 64 != 0 ==> z == mixed(x),
        decreases n - i,
    {
        if i % 64 == 0 {
            x = x.wrapping_add(STRIDE);
            z = mix(x);
        }
        assert(x == stream(seed, k, (i / 64 + 1) as nat));
        let s: u64 = (i % 64) as u64;
        let b = if k == 0 {
            false
        } else if k == 1 {
            true
        } else {
            (z >> s) & 1 == 1
        };
        v.push(b);
        i = i + 1;
    }
    let r = BitVec::from_bools(v);
    assert(r@ =~= Seq::new(n as nat, |i: int| point_bit(seed, k, i)));
    r
}

/// A state, `j` steps on.
pub open spec fn advanced(x: u64, j: nat) -> u64
    decreases j,
{
    if j == 0 {
        x
    } else {
        advanced(x, (j - 1) as nat).wrapping_add(STRIDE)
    }
}

/// A state, `j` steps back.
spec fn retreated(x: u64, j: nat) -> u64
    decreases j,
{
    if j == 0 {
        x
    } else {
        retreated(x.wrapping_sub(STRIDE), (j - 1) as nat)
    }
}

/// The state that is mixed to `z`.
pub open spec fn unmixed(z: u64) -> u64 {
    let b = z ^ (z >> 31) ^ (z >> 62);
    let a = b.wrapping_mul(0x3196_42b2_d24d_8ec3);
    let a = a ^ (a >> 27) ^ (a >> 54);
    let x = a.wrapping_mul(0x96de_1b17_3f11_9089);
    x ^ (x >> 30) ^ (x >> 60)
}

proof fn lemma_times_back(x: u64, c: u64, d: u64, k: nat)
    requires
        c as nat * d as nat == 1 + k * 0x1_0000_0000_0000_0000,
    ensures
        x.wrapping_mul(c).wrapping_mul(d) == x,
{
    let m: int = 0x1_0000_0000_0000_0000;
    let p = x as int * c as int;
    vstd::arithmetic::div_mod::lemma_mul_mod_noop_left(p, d as int, m);
    assert(p * d == x as int + (x as int * k as int) * m) by (nonlinear_arith)
        requires
            p == x as int * c as int,
            c as int * d as int == 1 + k as int * m,
    ;
    vstd::arithmetic::div_mod::lemma_mod_multiples_vanish(x as int * k as int, x as int, m);
    assert(m * (x as int * k as int) == (x as int * k as int) * m) by (nonlinear_arith);
    vstd::arithmetic::div_mod::lemma_small_mod(x as nat, m as nat);
}

/// Mixing loses nothing: every number is that of exactly one state.
pub proof fn lemma_mixed(x: u64)
    ensures
        mixed(unmixed(x)) == x,
        unmixed(mixed(x)) == x,
{
    // From a state and back.
    let a0 = x ^ (x >> 30);
    let a = a0.wrapping_mul(0xbf58_476d_1ce4_e5b9);
    let b0 = a ^ (a >> 27);
    let b = b0.wrapping_mul(0x94d0_49bb_1331_11eb);
    let z = b ^ (b >> 31);
    assert(0xbf58_476d_1ce4_e5b9u64 as nat * 0x96de_1b17_3f11_9089u64 as nat == 1
        + 8125545580553827436 * 0x1_0000_0000_0000_0000);
    assert(0x94d0_49bb_1331_11ebu64 as nat * 0x3196_42b2_d24d_8ec3u64 as nat == 1
        + 2077064247507883091 * 0x1_0000_0000_0000_0000);
    assert(z ^ (z >> 31) ^ (z >> 62) == b) by (bit_vector)
        requires
            z == b ^ (b >> 31),
    ;
    lemma_times_back(b0, 0x94d0_49bb_1331_11eb, 0x3196_42b2_d24d_8ec3, 2077064247507883091);
    assert(b0 ^ (b0 >> 27) ^ (b0 >> 54) == a) by (bit_vector)
        requires
            b0 == a ^ (a >> 27),
    ;
    lemma_times_back(a0, 0xbf58_476d_1ce4_e5b9, 0x96de_1b17_3f11_9089, 8125545580553827436);
    assert(a0 ^ (a0 >> 30) ^ (a0 >> 60) == x) by (bit_vector)
        requires
            a0 == x ^ (x >> 30),
    ;
    assert(unmixed(mixed(x)) == x);
    // From a number and back.
    let b = x ^ (x >> 31) ^ (x >> 62);
    let a1 = b.wrapping_mul(0x3196_42b2_d24d_8ec3);
    let a = a1 ^ (a1 >> 27) ^ (a1 >> 54);
    let y1 = a.wrapping_mul(0x96de_1b17_3f11_9089);
    let y = y1 ^ (y1 >> 30) ^ (y1 >> 60);
    assert(y ^ (y >> 30) == y1) by (bit_vector)
        requires
            y == y1 ^ (y1 >> 30) ^ (y1 >> 60),
    ;
    lemma_times_back(a, 0x96de_1b17_3f11_9089, 0xbf58_476d_1ce4_e5b9, 8125545580553827436);
    assert(a ^ (a >> 27) == a1) by (bit_vector)
        requires
            a == a1 ^ (a1 >> 27) ^ (a1 >> 54),
    ;
    lemma_times_back(b, 0x3196_42b2_d24d_8ec3, 0x94d0_49bb_1331_11eb, 2077064247507883091);
    assert(b ^ (b >> 31) == x) by (bit_vector)
        requires
            b == x ^ (x >> 31) ^ (x >> 62),
    ;
}

proof fn lemma_retreated(x: u64, j: nat)
    ensures
        advanced(retreated(x, j), j) == x,
    decreases j,
{
    if j > 0 {
        lemma_retreated(x.wrapping_sub(STRIDE), (j - 1) as nat);
    }
}

pub proof fn lemma_advanced_apart(x: u64, y: u64, j: nat)
    requires
        x != y,
    ensures
        advanced(x, j) != advanced(y, j),
    decreases j,
{
    if j > 0 {
        lemma_advanced_apart(x, y, (j - 1) as nat);
    }
}

pub proof fn lemma_advanced_twice(x: u64, a: nat, b: nat)
    ensures
        advanced(advanced(x, a), b) == advanced(x, a + b),
    decreases b,
{
    if b > 0 {
        lemma_advanced_twice(x, a, (b - 1) as nat);
    }
}

proof fn lemma_stream(seed: u64, k: u64, j: nat)
    ensures
        stream(seed, k, j) == advanced(seed ^ k.wrapping_mul(STRIDE), j),
    decreases j,
{
    if j > 0 {
        lemma_stream(seed, k, (j - 1) as nat);
    }
}

/// The number with these bits.
pub open spec fn word_of(t: Seq<bool>) -> u64
    decreases t.len(),
{
    if t.len() == 0 {
        0
    } else if t.last() {
        word_of(t.drop_last()) | (1u64 << ((t.len() - 1) as u64))
    } else {
        word_of(t.drop_last())
    }
}

/// Bit `i` of a number.
pub open spec fn bit_of(z: u64, i: int) -> bool {
    (z >> (i as u64)) & 1 == 1
}

pub proof fn lemma_word_of(t: Seq<bool>, i: int)
    requires
        t.len() <= 64,
        0 <= i < 64,
    ensures
        bit_of(word_of(t), i) == (i < t.len() && t[i]),
    decreases t.len(),
{
    let s = i as u64;
    if t.len() == 0 {
        assert((0u64 >> s) & 1 == 0) by (bit_vector);
    } else {
        lemma_word_of(t.drop_last(), i);
        let z = word_of(t.drop_last());
        let m = (t.len() - 1) as u64;
        assert(((z | (1u64 << m)) >> s) & 1 == (if s == m {
            1u64
        } else {
            (z >> s) & 1
        })) by (bit_vector)
            requires
                s < 64,
                m < 64,
        ;
    }
}

/// A number with no bits above `m` that is not zero has a bit set.
proof fn lemma_some_bit(d: u64, m: u64)
    requires
        d != 0,
        m < 64,
        (d >> m) >> 1 == 0,
    ensures
        exists|i: int| 0 <= i < 64 && #[trigger] bit_of(d, i),
    decreases m,
{
    if (d >> m) & 1 == 1 {
        assert(bit_of(d, m as int));
    } else {
        assert((d >> m) & 1 != 1 && (d >> m) >> 1 == 0 && d != 0 && m < 64 ==> m != 0 && (d >> ((m
            - 1) as u64)) >> 1 == 0) by (bit_vector);
        lemma_some_bit(d, (m - 1) as u64);
    }
}

/// Different numbers differ in a bit.
proof fn lemma_apart(x: u64, y: u64)
    requires
        x != y,
    ensures
        exists|i: int| 0 <= i < 64 && #[trigger] bit_of(x, i) != bit_of(y, i),
{
    let d = x ^ y;
    assert(d != 0 && (d >> 63) >> 1 == 0) by (bit_vector)
        requires
            d == x ^ y,
            x != y,
    ;
    lemma_some_bit(d, 63);
    let i = choose|i: int| 0 <= i < 64 && #[trigger] bit_of(d, i);
    let s = i as u64;
    assert((d >> s) & 1 == 1 ==> ((x >> s) & 1 == 1) != ((y >> s) & 1 == 1)) by (bit_vector)
        requires
            d == x ^ y,
            s < 64,
    ;
    assert(bit_of(x, i) != bit_of(y, i));
}

/// The points tell symbols apart: at every random point, each full word of the values of two
/// symbols differs in a bit. (Two symbols of a few bits may share all their values: there are
/// fewer lists of values than symbols.)
pub proof fn law_points_tell_symbols_apart(a: u64, b: u64, k: u64, q: nat)
    requires
        a != b,
        k >= 2,
    ensures
        exists|i: int|
            64 * q <= i < 64 * q + 64 && #[trigger] point_env(k)(a as int, i) != point_env(k)(
                b as int,
                i,
            ),
{
    let c = k.wrapping_mul(STRIDE);
    assert(a ^ c != b ^ c) by (bit_vector)
        requires
            a != b,
    ;
    lemma_stream(a, k, q + 1);
    lemma_stream(b, k, q + 1);
    lemma_advanced_apart(a ^ c, b ^ c, q + 1);
    let x = stream(a, k, q + 1);
    let y = stream(b, k, q + 1);
    lemma_mixed(x);
    lemma_mixed(y);
    lemma_apart(mixed(x), mixed(y));
    let j = choose|j: int|
        0 <= j < 64 && #[trigger] bit_of(mixed(x), j) != bit_of(mixed(y), j);
    let i = 64 * q + j;
    assert(i / 64 == q && i % 64 == j);
    assert(point_env(k)(a as int, i) == bit_of(mixed(x), j));
    assert(point_env(k)(b as int, i) == bit_of(mixed(y), j));
}

/// Word `q` of the value of a symbol begins with these bits.
pub open spec fn word_at(env: Env, key: u64, q: nat, t: Seq<bool>) -> bool {
    forall|i: int| 0 <= i < t.len() ==> #[trigger] env(key as int, 64 * q + i) == t[i]
}

/// The points range over all values: at every random point, each value of up to a word, and each
/// word of a wider one, is that of some symbol.
pub proof fn law_points_reach_every_value(k: u64, q: nat, t: Seq<bool>)
    requires
        k >= 2,
        t.len() <= 64,
    ensures
        exists|key: u64| #[trigger] word_at(point_env(k), key, q, t),
{
    let z = word_of(t);
    let c = k.wrapping_mul(STRIDE);
    let x = retreated(unmixed(z), q + 1);
    let key = x ^ c;
    assert(key ^ c == x) by (bit_vector)
        requires
            key == x ^ c,
    ;
    lemma_stream(key, k, q + 1);
    lemma_retreated(unmixed(z), q + 1);
    lemma_mixed(z);
    assert forall|i: int| 0 <= i < t.len() implies #[trigger] point_env(k)(key as int, 64 * q + i)
        == t[i] by {
        lemma_word_of(t, i);
        let p = 64 * q + i;
        assert(p / 64 == q && p % 64 == i);
        assert(point_env(k)(key as int, p) == bit_of(z, i));
    }
    assert(word_at(point_env(k), key, q, t));
}

/// No random point is like another: the values of a symbol of a word or more differ at any two.
pub proof fn law_points_differ(key: u64, k: u64, l: u64, q: nat)
    requires
        k >= 2,
        l >= 2,
        k != l,
    ensures
        exists|i: int|
            64 * q <= i < 64 * q + 64 && #[trigger] point_env(k)(key as int, i) != point_env(l)(
                key as int,
                i,
            ),
{
    let c = k.wrapping_mul(STRIDE);
    let d = l.wrapping_mul(STRIDE);
    assert(STRIDE as nat * 0xf1de_83e1_9937_733du64 as nat == 1 + 10771413168148108919
        * 0x1_0000_0000_0000_0000);
    lemma_times_back(k, STRIDE, 0xf1de_83e1_9937_733d, 10771413168148108919);
    lemma_times_back(l, STRIDE, 0xf1de_83e1_9937_733d, 10771413168148108919);
    assert(c != d);
    assert(key ^ c != key ^ d) by (bit_vector)
        requires
            c != d,
    ;
    lemma_stream(key, k, q + 1);
    lemma_stream(key, l, q + 1);
    lemma_advanced_apart(key ^ c, key ^ d, q + 1);
    let x = stream(key, k, q + 1);
    let y = stream(key, l, q + 1);
    lemma_mixed(x);
    lemma_mixed(y);
    lemma_apart(mixed(x), mixed(y));
    let j = choose|j: int|
        0 <= j < 64 && #[trigger] bit_of(mixed(x), j) != bit_of(mixed(y), j);
    let i = 64 * q + j;
    assert(i / 64 == q && i % 64 == j);
    assert(point_env(k)(key as int, i) == bit_of(mixed(x), j));
    assert(point_env(l)(key as int, i) == bit_of(mixed(y), j));
}

/// Every number is drawn from some state.
pub proof fn lemma_drawn(z: u64, j: nat)
    ensures
        exists|s: u64| mixed(#[trigger] advanced(s, j)) == z,
{
    let s = retreated(unmixed(z), j);
    lemma_retreated(unmixed(z), j);
    lemma_mixed(z);
    assert(mixed(advanced(s, j)) == z);
}

impl Context {
    /// The value of node `i`, which is no symbol, over its operands' values.
    pub(crate) fn node_value(&self, i: u32, ks: &Vec<BitVec>, Ghost(env): Ghost<Env>) -> (r: BitVec)
        requires
            self.wf(),
            i < self.n(),
            !(self.nodes@[i as int] is Sym),
            ks@.len() == expr::kids(self.nodes@[i as int]).len(),
            forall|j: int|
                #![trigger ks@[j]]
                0 <= j < ks@.len() ==> ks@[j]@ == self.val(
                    expr::kids(self.nodes@[i as int])[j] as int,
                    env,
                ),
        ensures
            r@ == self.val(i as int, env),
    {
        let node = self.node(i);
        let w: usize = self.wid(i) as usize;
        let ghost k = expr::kids(node);
        proof {
            assert(self.ok_at(i as int));
            if k.len() > 0 {
                assert(self.ok_at(k[0] as int));
            }
            if k.len() > 1 {
                assert(self.ok_at(k[1] as int));
            }
            if k.len() > 2 {
                assert(self.ok_at(k[2] as int));
            }
        }
        match node {
            Node::Const(c) => self.consts[c as usize].dup(),
            Node::Sym(_) => BitVec::fill(w, false),
            Node::Un(op, a) => BitVec::apply_un(op, &ks[0]),
            Node::Bin(op, a, b) => BitVec::apply_bin(op, &ks[0], &ks[1]),
            Node::Cmp(op, a, b) => BitVec::from_bool(BitVec::apply_rel(op, &ks[0], &ks[1])),
            Node::Zext(a) => ks[0].zext(w),
            Node::Sext(a) => ks[0].sext(w),
            Node::Extract(a, lo) => ks[0].extract(lo as usize, w),
            Node::Concat(h, l) => ks[0].concat(&ks[1]),
            Node::Select(c, a, b) => if ks[0].at(0) {
                ks[1].dup()
            } else {
                ks[2].dup()
            },
        }
    }
}

} // verus!
