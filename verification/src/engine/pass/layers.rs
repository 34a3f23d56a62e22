//! Invertible layers: a node that is an injective function of one operand, the others fixed.
//!
//! A layer is undone against a constant (`f(x) == c` is `x == v`, or never holds), or cancelled
//! between two nodes that share its parameters (`f(x) == f(y)` is `x == y`). Beside the plain
//! layers (complement, negation, sums, xors, odd products, rotations, reversals, extensions,
//! concatenations) there are triangular ones, `v ^ g(v)` where each bit of `g(v)` depends only
//! on higher bits of `v`: the bits of `v` follow one by one from the top.

use vstd::prelude::*;
use vstd::arithmetic::div_mod::*;
use vstd::arithmetic::power2::*;
use crate::algebra;
use crate::bits;
use crate::modular;
use crate::ops;
use crate::bitvec::BitVec;
use crate::expr::{Context, Node};
use crate::ops::{BinOp, UnOp};
use crate::term::Env;

verus! {

broadcast use crate::term::lemma_value_len;

/// Adding and subtracting undo one another.
pub proof fn lemma_undo_add(a: Seq<bool>, k: Seq<bool>)
    requires
        a.len() == k.len(),
    ensures
        ops::bin_value(BinOp::Sub, ops::bin_value(BinOp::Add, a, k), k) == a,
        ops::bin_value(BinOp::Add, ops::bin_value(BinOp::Sub, a, k), k) == a,
        ops::bin_value(BinOp::Sub, k, ops::bin_value(BinOp::Sub, k, a)) == a,
{
    let w = a.len();
    let (x, y) = (modular::num(a), modular::num(k));
    modular::lemma_eqm_ops(a, k);
    modular::lemma_eqm_ops(k, a);
    let s = ops::bin_value(BinOp::Add, a, k);
    let d = ops::bin_value(BinOp::Sub, a, k);
    let e = ops::bin_value(BinOp::Sub, k, a);
    modular::lemma_eqm_ops(s, k);
    modular::lemma_eqm_ops(d, k);
    modular::lemma_eqm_ops(k, e);
    modular::lemma_eqm_sub(modular::num(s), x + y, y, y, w);
    modular::lemma_eqm_add(modular::num(d), x - y, y, y, w);
    modular::lemma_eqm_sub(y, y, modular::num(e), y - x, w);
    modular::lemma_eqm_same(ops::bin_value(BinOp::Sub, s, k), a);
    modular::lemma_eqm_same(ops::bin_value(BinOp::Add, d, k), a);
    modular::lemma_eqm_same(ops::bin_value(BinOp::Sub, k, e), a);
}

/// A xor undoes itself.
pub proof fn lemma_undo_xor(a: Seq<bool>, k: Seq<bool>)
    requires
        a.len() == k.len(),
    ensures
        ops::bin_value(BinOp::Xor, ops::bin_value(BinOp::Xor, a, k), k) == a,
        ops::bin_value(BinOp::Xor, a, k) == ops::bin_value(BinOp::Xor, k, a),
{
    assert(ops::xor_bits(ops::xor_bits(a, k), k) =~= a);
    assert(ops::xor_bits(a, k) =~= ops::xor_bits(k, a));
}

/// Sums and products do not depend on the order of their operands.
pub proof fn lemma_swap(a: Seq<bool>, b: Seq<bool>)
    requires
        a.len() == b.len(),
    ensures
        ops::bin_value(BinOp::Add, a, b) == ops::bin_value(BinOp::Add, b, a),
        ops::bin_value(BinOp::Mul, a, b) == ops::bin_value(BinOp::Mul, b, a),
{
    vstd::arithmetic::mul::lemma_mul_is_commutative(
        bits::nat_of(a) as int,
        bits::nat_of(b) as int,
    );
}

/// A product by an inverse undoes a product.
pub proof fn lemma_undo_mul(a: Seq<bool>, k: Seq<bool>, inv: Seq<bool>)
    requires
        a.len() == k.len(),
        a.len() == inv.len(),
        ops::bin_value(BinOp::Mul, k, inv) == bits::bits_of(1, a.len()),
    ensures
        ops::bin_value(BinOp::Mul, ops::bin_value(BinOp::Mul, a, k), inv) == a,
        ops::bin_value(BinOp::Mul, ops::bin_value(BinOp::Mul, a, inv), k) == a,
{
    let w = a.len();
    let (x, y, z) = (modular::num(a), modular::num(k), modular::num(inv));
    let p = ops::bin_value(BinOp::Mul, a, k);
    let q = ops::bin_value(BinOp::Mul, a, inv);
    modular::lemma_eqm_ops(a, k);
    modular::lemma_eqm_ops(a, inv);
    modular::lemma_eqm_ops(p, inv);
    modular::lemma_eqm_ops(q, k);
    modular::lemma_eqm_ops(k, inv);
    modular::lemma_eqm_nat(1, w);
    assert(modular::eqm(y * z, 1, w));
    modular::lemma_eqm_mul(x, x, y * z, 1, w);
    modular::lemma_eqm_mul(modular::num(p), x * y, z, z, w);
    modular::lemma_eqm_mul(modular::num(q), x * z, y, y, w);
    assert(x * y * z == x * (y * z)) by (nonlinear_arith);
    assert(x * z * y == x * (y * z)) by (nonlinear_arith);
    modular::lemma_eqm_same(ops::bin_value(BinOp::Mul, p, inv), a);
    modular::lemma_eqm_same(ops::bin_value(BinOp::Mul, q, k), a);
}

/// What an odd number times `d` is a multiple of, `d` is: for powers of two.
proof fn lemma_odd(d: int, k: int, w: nat)
    requires
        k % 2 == 1,
        (d * k) % (pow2(w) as int) == 0,
    ensures
        d % (pow2(w) as int) == 0,
    decreases w,
{
    lemma_pow2_pos(w);
    if w == 0 {
        bits::lemma_pow2_zero();
    } else {
        let v = (w - 1) as nat;
        let m = pow2(v) as int;
        lemma_pow2_pos(v);
        bits::lemma_pow2_step(v);
        assert(pow2(w) == 2 * m);
        let q = (d * k) / (2 * m);
        lemma_fundamental_div_mod(d * k, 2 * m);
        assert(d * k == 2 * (m * q)) by (nonlinear_arith)
            requires
                d * k == (2 * m) * q,
        ;
        let h = k / 2;
        assert(k == 2 * h + 1);
        assert(d * k == 2 * (d * h) + d) by (nonlinear_arith)
            requires
                k == 2 * h + 1,
        ;
        assert(d % 2 == 0);
        let e = d / 2;
        assert(d == 2 * e);
        assert(e * k == m * q) by (nonlinear_arith)
            requires
                d * k == 2 * (m * q),
                d == 2 * e,
        ;
        vstd::arithmetic::mul::lemma_mul_is_commutative(m, q);
        lemma_mod_multiples_basic(q, m);
        lemma_odd(e, k, v);
        let r = e / m;
        lemma_fundamental_div_mod(e, m);
        assert(d == r * (2 * m)) by (nonlinear_arith)
            requires
                d == 2 * e,
                e == m * r,
        ;
        lemma_mod_multiples_basic(r, 2 * m);
    }
}

/// A product by an odd value is injective.
pub proof fn lemma_odd_product(a: Seq<bool>, b: Seq<bool>, k: Seq<bool>)
    requires
        a.len() == k.len(),
        b.len() == k.len(),
        k.len() > 0,
        k[0],
        ops::bin_value(BinOp::Mul, a, k) == ops::bin_value(BinOp::Mul, b, k),
    ensures
        a == b,
{
    let w = k.len();
    let p = pow2(w) as int;
    lemma_pow2_pos(w);
    let (x, y, z) = (modular::num(a), modular::num(b), modular::num(k));
    modular::lemma_eqm_ops(a, k);
    modular::lemma_eqm_ops(b, k);
    bits::lemma_bit_of_nat(k, 0);
    bits::lemma_pow2_zero();
    assert(z % 2 == 1);
    assert(modular::eqm(x * z, y * z, w));
    modular::lemma_eqm_sub(x * z, y * z, y * z, y * z, w);
    assert(x * z - y * z == (x - y) * z) by (nonlinear_arith);
    lemma_small_mod(0, p as nat);
    assert(((x - y) * z) % p == 0);
    lemma_odd(x - y, z, w);
    modular::lemma_eqm_add(x - y, 0, y, y, w);
    modular::lemma_eqm_same(a, b);
}

/// A rotation by `k` is undone by one by `w - k % w`, and the other way around.
pub proof fn lemma_undo_rot(a: Seq<bool>, k: Seq<bool>)
    requires
        a.len() > 0,
    ensures
        ops::bin_value(BinOp::RotR, ops::bin_value(BinOp::RotL, a, k), k) == a,
        ops::bin_value(BinOp::RotL, ops::bin_value(BinOp::RotR, a, k), k) == a,
{
    let w = a.len() as int;
    let n = bits::nat_of(k) as int;
    let m = w - n % w;
    let l = ops::rotl_bits(a, n as nat);
    let r = ops::rotl_bits(a, m as nat);
    assert forall|i: int| 0 <= i < w implies #[trigger] ops::rotl_bits(l, m as nat)[i] == a[i] by {
        lemma_turn(i, n, w);
    }
    assert forall|i: int| 0 <= i < w implies #[trigger] ops::rotl_bits(r, n as nat)[i] == a[i] by {
        lemma_turn(i, n, w);
    }
    assert(ops::rotl_bits(l, m as nat) =~= a);
    assert(ops::rotl_bits(r, n as nat) =~= a);
}

/// Turning back and forth.
proof fn lemma_turn(i: int, n: int, w: int)
    requires
        0 <= i < w,
        n >= 0,
    ensures
        0 <= (i - (w - n % w)) % w < w,
        0 <= (i - n) % w < w,
        ((i - (w - n % w)) % w - n) % w == i,
        ((i - n) % w - (w - n % w)) % w == i,
{
    let m = w - n % w;
    lemma_mod_bound(i - m, w);
    lemma_mod_bound(i - n, w);
    lemma_sub_mod_noop_left(i - m, n, w);
    lemma_sub_mod_noop_left(i - n, m, w);
    lemma_fundamental_div_mod(n, w);
    let q = n / w;
    assert(i - m - n == i + w * (-1 - q)) by (nonlinear_arith)
        requires
            m == w - n % w,
            n == w * q + n % w,
    ;
    lemma_mod_multiples_vanish(-1 - q, i, w);
    lemma_small_mod(i as nat, w as nat);
}

proof fn lemma_sub_mod_noop_left(x: int, y: int, m: int)
    requires
        m > 0,
    ensures
        (x % m - y) % m == (x - y) % m,
{
    lemma_sub_mod_noop(x, y, m);
    lemma_sub_mod_noop(x % m, y, m);
    lemma_mod_twice(x, m);
}

/// An extension shows the value it extends.
pub proof fn lemma_extended(a: Seq<bool>, w: nat)
    requires
        0 < a.len() <= w,
    ensures
        ops::zext_bits(a, w).take(a.len() as int) == a,
        ops::sext_bits(a, w).take(a.len() as int) == a,
{
    assert(ops::zext_bits(a, w).take(a.len() as int) =~= a);
    assert(ops::sext_bits(a, w).take(a.len() as int) =~= a);
}

/// The inverse of an odd value, if there is one.
fn inverse(k: &BitVec) -> (r: Option<BitVec>)
    requires
        k@.len() > 0,
    ensures
        r matches Some(v) ==> v@.len() == k@.len() && ops::bin_value(BinOp::Mul, k@, v@)
            == bits::bits_of(1, k@.len()),
{
    if !k.at(0) {
        return None;
    }
    let n: usize = k.len();
    let one = BitVec::from_u64(n, 1);
    let two = BitVec::from_u64(n, 2);
    let mut v = k.dup();
    let mut i: usize = 0;
    // Each step doubles how many low bits are right.
    while i < 12
        invariant
            n == k@.len(),
            two@.len() == n,
            v@.len() == n,
        decreases 12 - i,
    {
        let e = two.minus(&k.times(&v));
        v = v.times(&e);
        i = i + 1;
    }
    if k.times(&v).same(&one) {
        Some(v)
    } else {
        None
    }
}

/// What undoing a layer gives.
pub enum Undone {
    /// The constant has no preimage.
    Never,
    /// The operand is this constant.
    To(u32, BitVec),
}

/// Undoing a layer of `x` against `c` is right.
pub open(crate) spec fn undone_ok(u: Undone, cx: &Context, x: u32, c: Seq<bool>) -> bool {
    match u {
        Undone::Never => forall|env: Env| #[trigger] cx.val(x as int, env) != c,
        Undone::To(y, v) => y < x && cx.w(y as int) == v@.len() && forall|env: Env|
            #![trigger cx.val(x as int, env)]
            #![trigger cx.val(y as int, env)]
            cx.val(x as int, env) == c <==> cx.val(y as int, env) == v@,
    }
}

/// `v` is what `c` is before the operation with `k` (`inv` its inverse, for a product).
spec fn before(op: BinOp, right: bool, k: Seq<bool>, inv: Seq<bool>, c: Seq<bool>, v: Seq<bool>) -> bool {
    match op {
        BinOp::Add => v == ops::bin_value(BinOp::Sub, c, k),
        BinOp::Xor => v == ops::bin_value(BinOp::Xor, c, k),
        BinOp::Sub => v == if right {
            ops::bin_value(BinOp::Add, c, k)
        } else {
            ops::bin_value(BinOp::Sub, k, c)
        },
        BinOp::Mul => v == ops::bin_value(BinOp::Mul, c, inv) && inv.len() == k.len()
            && ops::bin_value(BinOp::Mul, k, inv) == bits::bits_of(1, k.len()),
        BinOp::RotL => right && v == ops::bin_value(BinOp::RotR, c, k),
        BinOp::RotR => right && v == ops::bin_value(BinOp::RotL, c, k),
        _ => false,
    }
}

/// What comes before an operation with a constant is the only value that it takes to `c`.
proof fn lemma_before(
    op: BinOp,
    right: bool,
    s: Seq<bool>,
    k: Seq<bool>,
    inv: Seq<bool>,
    c: Seq<bool>,
    v: Seq<bool>,
)
    requires
        s.len() == k.len(),
        c.len() == k.len(),
        k.len() > 0,
        before(op, right, k, inv, c, v),
    ensures
        (if right {
            ops::bin_value(op, s, k)
        } else {
            ops::bin_value(op, k, s)
        }) == c <==> s == v,
{
    match op {
        BinOp::Add | BinOp::Sub => {
            lemma_undo_add(s, k);
            lemma_undo_add(c, k);
            lemma_swap(s, k);
        },
        BinOp::Xor => {
            lemma_undo_xor(s, k);
            lemma_undo_xor(c, k);
        },
        BinOp::Mul => {
            lemma_undo_mul(s, k, inv);
            lemma_undo_mul(c, k, inv);
            lemma_swap(s, k);
        },
        _ => {
            lemma_undo_rot(s, k);
            lemma_undo_rot(c, k);
        },
    }
}

/// Undoes a binary layer with one constant operand.
fn undo_bin(cx: &Context, x: u32, op: BinOp, a: u32, b: u32, c: &BitVec) -> (r: Option<Undone>)
    requires
        cx.wf(),
        x < cx.n(),
        cx.nodes@[x as int] == Node::Bin(op, a, b),
        cx.w(x as int) == c@.len(),
    ensures
        r matches Some(u) ==> undone_ok(u, cx, x, c@),
{
    proof {
        assert(cx.ok_at(x as int));
        assert(cx.ok_at(a as int));
        assert(cx.ok_at(b as int));
    }
    // The constant, the other operand, and whether the constant is on the right.
    let (k, y, right) = match (cx.const_val(a), cx.const_val(b)) {
        (None, Some(k)) => (k, a, true),
        (Some(k), None) => (k, b, false),
        _ => {
            return None;
        },
    };
    let ghost mut inv: Seq<bool> = k@;
    let v = match op {
        BinOp::Add => c.minus(&k),
        BinOp::Xor => c.xor(&k),
        BinOp::Sub => if right {
            c.plus(&k)
        } else {
            k.minus(c)
        },
        BinOp::Mul => {
            let i = match inverse(&k) {
                Some(i) => i,
                None => {
                    return None;
                },
            };
            proof {
                inv = i@;
            }
            c.times(&i)
        },
        BinOp::RotL => {
            if !right {
                return None;
            }
            BitVec::apply_bin(BinOp::RotR, c, &k)
        },
        BinOp::RotR => {
            if !right {
                return None;
            }
            BitVec::apply_bin(BinOp::RotL, c, &k)
        },
        _ => {
            return None;
        },
    };
    assert(before(op, right, k@, inv, c@, v@));
    proof {
        ops::lemma_bin_len(BinOp::Sub, c@, k@);
        ops::lemma_bin_len(BinOp::Sub, k@, c@);
        ops::lemma_bin_len(BinOp::Add, c@, k@);
        ops::lemma_bin_len(BinOp::Mul, c@, inv);
        ops::lemma_bin_len(BinOp::RotL, c@, k@);
        ops::lemma_bin_len(BinOp::RotR, c@, k@);
        assert forall|env: Env|
            #![trigger cx.val(x as int, env)]
            #![trigger cx.val(y as int, env)]
            cx.val(x as int, env) == c@ <==> cx.val(y as int, env) == v@ by {
            let (p, q) = (cx.val(a as int, env), cx.val(b as int, env));
            assert(cx.val(x as int, env) == ops::bin_value(op, p, q));
            assert(if right {
                q == k@
            } else {
                p == k@
            });
            lemma_before(op, right, cx.val(y as int, env), k@, inv, c@, v@);
        }
    }
    Some(Undone::To(y, v))
}

/// Undoes the layer of `x` against `c`, if it is one whose parameters are constants.
pub(crate) fn undo(cx: &Context, x: u32, c: &BitVec) -> (r: Option<Undone>)
    requires
        cx.wf(),
        x < cx.n(),
        cx.w(x as int) == c@.len(),
    ensures
        r matches Some(u) ==> undone_ok(u, cx, x, c@),
{
    proof {
        assert(cx.ok_at(x as int));
    }
    match cx.node(x) {
        Node::Un(op, a) => {
            proof {
                assert(cx.ok_at(a as int));
            }
            if op != UnOp::Not && op != UnOp::Neg && op != UnOp::BitRev && op != UnOp::Bswap {
                return None;
            }
            let v = BitVec::apply_un(op, c);
            proof {
                assert forall|env: Env|
                    #![trigger cx.val(x as int, env)]
                    #![trigger cx.val(a as int, env)]
                    cx.val(x as int, env) == c@ <==> cx.val(a as int, env) == v@ by {
                    algebra::lemma_involution(op, cx.val(a as int, env));
                    algebra::lemma_involution(op, c@);
                }
                ops::lemma_un_len(op, c@);
            }
            Some(Undone::To(a, v))
        },
        Node::Bin(op, a, b) => {
            match undo_bin(cx, x, op, a, b, c) {
                Some(u) => Some(u),
                None => {
                    if op != BinOp::Xor {
                        return None;
                    }
                    proof {
                        assert(cx.ok_at(a as int));
                        assert(cx.ok_at(b as int));
                    }
                    if let Some(d) = triangle(cx, a, b, c) {
                        proof {
                            lemma_triangle(cx, x, a, b, a, b, c@, d@);
                        }
                        return Some(Undone::To(a, d));
                    }
                    if let Some(d) = triangle(cx, b, a, c) {
                        proof {
                            lemma_triangle(cx, x, a, b, b, a, c@, d@);
                        }
                        return Some(Undone::To(b, d));
                    }
                    None
                },
            }
        },
        Node::Zext(a) => {
            let wa: usize = cx.wid(a) as usize;
            proof {
                assert(cx.ok_at(a as int));
            }
            let low = c.extract(0, wa);
            let fits = low.zext(c.len()).same(c);
            proof {
                assert forall|env: Env|
                    #![trigger cx.val(x as int, env)]
                    #![trigger cx.val(a as int, env)]
                    cx.val(x as int, env) == c@ <==> cx.val(a as int, env) == low@ && fits by {
                    lemma_extended(cx.val(a as int, env), c@.len());
                    assert(c@.take(wa as int) =~= low@);
                }
            }
            if fits {
                Some(Undone::To(a, low))
            } else {
                Some(Undone::Never)
            }
        },
        Node::Sext(a) => {
            let wa: usize = cx.wid(a) as usize;
            proof {
                assert(cx.ok_at(a as int));
            }
            let low = c.extract(0, wa);
            let fits = low.sext(c.len()).same(c);
            proof {
                assert forall|env: Env|
                    #![trigger cx.val(x as int, env)]
                    #![trigger cx.val(a as int, env)]
                    cx.val(x as int, env) == c@ <==> cx.val(a as int, env) == low@ && fits by {
                    lemma_extended(cx.val(a as int, env), c@.len());
                    assert(c@.take(wa as int) =~= low@);
                }
            }
            if fits {
                Some(Undone::To(a, low))
            } else {
                Some(Undone::Never)
            }
        },
        Node::Concat(h, l) => {
            let wh: usize = cx.wid(h) as usize;
            let wl: usize = cx.wid(l) as usize;
            proof {
                assert(cx.ok_at(h as int));
                assert(cx.ok_at(l as int));
            }
            let low = c.extract(0, wl);
            let high = c.extract(wl, wh);
            proof {
                assert forall|env: Env| #[trigger]
                    cx.val(x as int, env) == c@ <==> cx.val(l as int, env) == low@ && cx.val(
                        h as int,
                        env,
                    ) == high@ by {
                    let v = cx.val(x as int, env);
                    assert(v.subrange(0, wl as int) =~= cx.val(l as int, env));
                    assert(v.subrange(wl as int, wl + wh) =~= cx.val(h as int, env));
                    assert(c@ =~= low@ + high@);
                }
            }
            match (cx.const_val(h), cx.const_val(l)) {
                (None, Some(k)) => {
                    if k.same(&low) {
                        proof {
                            assert forall|env: Env| #[trigger] cx.val(h as int, env) == high@ <==> cx.val(
                                x as int,
                                env,
                            ) == c@ by {
                                let _ = cx.val(x as int, env);
                            }
                        }
                        Some(Undone::To(h, high))
                    } else {
                        Some(Undone::Never)
                    }
                },
                (Some(k), None) => {
                    if k.same(&high) {
                        proof {
                            assert forall|env: Env| #[trigger] cx.val(l as int, env) == low@ <==> cx.val(
                                x as int,
                                env,
                            ) == c@ by {
                                let _ = cx.val(x as int, env);
                            }
                        }
                        Some(Undone::To(l, low))
                    } else {
                        Some(Undone::Never)
                    }
                },
                _ => None,
            }
        },
        _ => None,
    }
}

/// Two values agree on the bits from `k` on.
pub open spec fn agree_from(s: Seq<bool>, t: Seq<bool>, k: int) -> bool {
    &&& s.len() == t.len()
    &&& forall|i: int| #![trigger s[i]] k <= i < s.len() ==> s[i] == t[i]
}

/// Bit `i` of node `t` is `tv[i]` wherever `v` agrees with `d` from bit `deps[i]` on.
pub open(crate) spec fn near(
    cx: &Context,
    t: u32,
    v: u32,
    d: Seq<bool>,
    tv: Seq<bool>,
    deps: Seq<usize>,
) -> bool {
    &&& t < cx.n()
    &&& tv.len() == cx.w(t as int)
    &&& deps.len() == tv.len()
    &&& forall|env: Env, i: int|
        #![trigger cx.val(t as int, env)[i]]
        0 <= i < tv.len() && agree_from(cx.val(v as int, env), d, deps[i] as int) ==> cx.val(
            t as int,
            env,
        )[i] == tv[i]
}

/// Fewer bits known to agree.
proof fn lemma_from_less(s: Seq<bool>, t: Seq<bool>, j: int, k: int)
    requires
        agree_from(s, t, j),
        j <= k,
    ensures
        agree_from(s, t, k),
{
}

/// The smaller of two.
fn least(a: usize, b: usize) -> (r: usize)
    ensures
        r <= a,
        r <= b,
        r == a || r == b,
{
    if a < b {
        a
    } else {
        b
    }
}

/// The value of node `t` where `v` is `d`, and for each bit from which bit of `v` on it depends
/// on `v`.
fn read_at(cx: &Context, t: u32, v: u32, d: &BitVec, depth: usize) -> (r: Option<(BitVec, Vec<usize>)>)
    requires
        cx.wf(),
        t < cx.n(),
        v < cx.n(),
        cx.w(v as int) == d@.len(),
    ensures
        r matches Some((tv, deps)) ==> near(cx, t, v, d@, tv@, deps@),
    decreases depth,
{
    let w: usize = d.len();
    proof {
        assert(cx.ok_at(t as int));
        assert(cx.ok_at(v as int));
    }
    if t == v {
        let mut deps: Vec<usize> = Vec::with_capacity(w);
        let mut i: usize = 0;
        while i < w
            invariant
                i <= w,
                deps@.len() == i,
                forall|j: int| 0 <= j < i ==> #[trigger] deps@[j] == j,
            decreases w - i,
        {
            deps.push(i);
            i = i + 1;
        }
        return Some((d.dup(), deps));
    }
    if let Some(k) = cx.const_val(t) {
        let deps = vec![w; k.len()];
        return Some((k, deps));
    }
    if depth == 0 {
        return None;
    }
    match cx.node(t) {
        Node::Un(op, a) => {
            if op != UnOp::Not {
                return None;
            }
            let (x, dx) = read_at(cx, a, v, d, depth - 1)?;
            proof {
                assert(cx.ok_at(a as int));
                assert forall|env: Env, i: int|
                    #![trigger cx.val(t as int, env)[i]]
                    0 <= i < x@.len() && agree_from(cx.val(v as int, env), d@, dx@[i] as int) implies cx.val(
                    t as int,
                    env,
                )[i] == !x@[i] by {
                    let _ = cx.val(a as int, env)[i];
                }
            }
            Some((x.not(), dx))
        },
        Node::Bin(op, a, b) => {
            proof {
                assert(cx.ok_at(a as int));
                assert(cx.ok_at(b as int));
            }
            if op == BinOp::And || op == BinOp::Or || op == BinOp::Xor {
                let (x, dx) = read_at(cx, a, v, d, depth - 1)?;
                let (y, dy) = read_at(cx, b, v, d, depth - 1)?;
                let tv = BitVec::apply_bin(op, &x, &y);
                let n: usize = x.len();
                let mut deps: Vec<usize> = Vec::with_capacity(n);
                let mut i: usize = 0;
                while i < n
                    invariant
                        i <= n,
                        n == x@.len(),
                        n == y@.len(),
                        dx@.len() == n,
                        dy@.len() == n,
                        deps@.len() == i,
                        forall|j: int|
                            #![trigger deps@[j]]
                            0 <= j < i ==> (deps@[j] <= dx@[j] && deps@[j] <= dy@[j]) || (op
                                == BinOp::And && !y@[j] && deps@[j] == dy@[j]) || (op == BinOp::And
                                && !x@[j] && deps@[j] == dx@[j]),
                    decreases n - i,
                {
                    let m = least(dx[i], dy[i]);
                    if op == BinOp::And && !y.at(i) {
                        deps.push(dy[i]);
                    } else if op == BinOp::And && !x.at(i) {
                        deps.push(dx[i]);
                    } else {
                        deps.push(m);
                    }
                    i = i + 1;
                }
                proof {
                    ops::lemma_bin_len(op, x@, y@);
                    assert forall|env: Env, i: int|
                        #![trigger cx.val(t as int, env)[i]]
                        0 <= i < tv@.len() && agree_from(
                            cx.val(v as int, env),
                            d@,
                            deps@[i] as int,
                        ) implies cx.val(t as int, env)[i] == tv@[i] by {
                        let _ = deps@[i];
                        let p = cx.val(a as int, env)[i];
                        let q = cx.val(b as int, env)[i];
                        let s = cx.val(v as int, env);
                        if deps@[i] <= dx@[i] {
                            lemma_from_less(s, d@, deps@[i] as int, dx@[i] as int);
                        }
                        if deps@[i] <= dy@[i] {
                            lemma_from_less(s, d@, deps@[i] as int, dy@[i] as int);
                        }
                    }
                }
                return Some((tv, deps));
            }
            if op != BinOp::LShr {
                return None;
            }
            let (x, dx) = read_at(cx, a, v, d, depth - 1)?;
            let n: usize = x.len();
            if let Some(kv) = cx.const_val(b) {
                let k: usize = kv.amount(n);
                let tv = x.shr(k, false);
                let mut deps: Vec<usize> = Vec::with_capacity(n);
                let mut i: usize = 0;
                while i < n
                    invariant
                        i <= n,
                        n == x@.len() <= 512,
                        k <= n,
                        dx@.len() == n,
                        deps@.len() == i,
                        forall|j: int|
                            #![trigger deps@[j]]
                            0 <= j < i ==> deps@[j] == (if j + k < n {
                                dx@[j + k]
                            } else {
                                w
                            }),
                    decreases n - i,
                {
                    if i + k < n {
                        deps.push(dx[i + k]);
                    } else {
                        deps.push(w);
                    }
                    i = i + 1;
                }
                proof {
                    assert forall|env: Env, i: int|
                        #![trigger cx.val(t as int, env)[i]]
                        0 <= i < tv@.len() && agree_from(
                            cx.val(v as int, env),
                            d@,
                            deps@[i] as int,
                        ) implies cx.val(t as int, env)[i] == tv@[i] by {
                        let _ = deps@[i];
                        assert(cx.val(b as int, env) == kv@);
                        assert(cx.val(t as int, env) == ops::shr_bits(
                            cx.val(a as int, env),
                            bits::nat_of(kv@),
                            false,
                        ));
                        if i + k < n {
                            let _ = cx.val(a as int, env)[i + k];
                        }
                    }
                }
                return Some((tv, deps));
            }
            let (y, dy) = read_at(cx, b, v, d, depth - 1)?;
            Some(shifted(cx, t, a, b, v, d, &x, &dx, &y, &dy))
        },
        _ => None,
    }
}

/// The bits from `k` on are never set.
spec fn clear_from(x: Seq<bool>, dx: Seq<usize>, k: int, w: int) -> bool {
    forall|q: int| #![trigger x[q]] k <= q < x.len() ==> !x[q] && dx[q] >= w
}

proof fn lemma_clear(x: Seq<bool>, dx: Seq<usize>, k: int, w: int)
    requires
        clear_from(x, dx, k + 1, w),
        0 <= k < x.len(),
        !x[k],
        dx[k] >= w,
    ensures
        clear_from(x, dx, k, w),
{
    assert forall|q: int| #![trigger x[q]] k <= q < x.len() implies !x[q] && dx[q] >= w by {
        if q > k {
            assert(k + 1 <= q);
        }
    }
}

/// A bit of a shift depends on `v` from `dep` on: as far as its amount and the bits at and above
/// it do, or not at all where those are never set.
spec fn dep_ok(dep: usize, j: int, x: Seq<bool>, dx: Seq<usize>, all: int, w: int) -> bool {
    ||| dep <= all && forall|q: int| j <= q < x.len() ==> dep <= #[trigger] dx[q]
    ||| dep == w && clear_from(x, dx, j, w)
}

/// The right shift `t` of `a` by `b`, an amount that depends on `v` too.
fn shifted(
    cx: &Context,
    t: u32,
    a: u32,
    b: u32,
    v: u32,
    d: &BitVec,
    x: &BitVec,
    dx: &Vec<usize>,
    y: &BitVec,
    dy: &Vec<usize>,
) -> (r: (BitVec, Vec<usize>))
    requires
        cx.wf(),
        t < cx.n(),
        v < cx.n(),
        cx.nodes@[t as int] == Node::Bin(BinOp::LShr, a, b),
        cx.w(v as int) == d@.len(),
        near(cx, a, v, d@, x@, dx@),
        near(cx, b, v, d@, y@, dy@),
    ensures
        near(cx, t, v, d@, r.0@, r.1@),
{
    proof {
        assert(cx.ok_at(t as int));
        assert(cx.ok_at(a as int));
        assert(cx.ok_at(b as int));
        assert(cx.ok_at(v as int));
    }
    let w: usize = d.len();
    let n: usize = x.len();
    let tv = BitVec::apply_bin(BinOp::LShr, x, y);
    // Where `v` agrees from here on, the amount is `y`.
    let mut all: usize = w;
    let mut i: usize = 0;
    while i < n
        invariant
            i <= n == dy@.len(),
            all <= w,
            forall|j: int| 0 <= j < i ==> all <= #[trigger] dy@[j],
        decreases n - i,
    {
        all = least(all, dy[i]);
        i = i + 1;
    }
    let mut deps: Vec<usize> = vec![w; n];
    let mut zero = true;
    let mut low: usize = w;
    let mut k: usize = n;
    while k > 0
        invariant
            k <= n == x@.len(),
            dx@.len() == n,
            deps@.len() == n,
            all <= w,
            low <= w,
            forall|j: int| 0 <= j < k ==> #[trigger] deps@[j] == w,
            forall|j: int| k <= j < n ==> low <= #[trigger] dx@[j],
            zero ==> clear_from(x@, dx@, k as int, w as int),
            forall|j: int|
                #![trigger deps@[j]]
                k <= j < n ==> dep_ok(deps@[j], j, x@, dx@, all as int, w as int),
        decreases k,
    {
        let ghost deps0 = deps@;
        k = k - 1;
        low = least(low, dx[k]);
        let set = x.at(k);
        if set || dx[k] < w {
            zero = false;
        }
        proof {
            if zero {
                lemma_clear(x@, dx@, k as int, w as int);
            }
        }
        if !zero {
            deps.set(k, least(low, all));
        }
        proof {
            assert forall|j: int|
                #![trigger deps@[j]]
                k <= j < n implies dep_ok(deps@[j], j, x@, dx@, all as int, w as int) by {
                if j > k {
                    assert(deps@[j] == deps0[j]);
                } else if zero {
                    assert(deps0[k as int] == w);
                } else {
                    assert(deps@[j] <= all);
                }
            }
        }
    }
    proof {
        ops::lemma_bin_len(BinOp::LShr, x@, y@);
        assert forall|env: Env, i: int|
            #![trigger cx.val(t as int, env)[i]]
            0 <= i < tv@.len() && agree_from(cx.val(v as int, env), d@, deps@[i] as int) implies cx.val(
            t as int,
            env,
        )[i] == tv@[i] by {
            let s = cx.val(v as int, env);
            let p = cx.val(a as int, env);
            let q = cx.val(b as int, env);
            let _ = deps@[i];
            if deps@[i] <= all && (forall|j: int| i <= j < n ==> deps@[i] <= #[trigger] dx@[j]) {
                assert forall|j: int| 0 <= j < n implies q[j] == y@[j] by {
                    let _ = dy@[j];
                    lemma_from_less(s, d@, deps@[i] as int, dy@[j] as int);
                    let _ = cx.val(b as int, env)[j];
                }
                assert(q =~= y@);
                let m = bits::nat_of(y@) as int;
                if i + m < n {
                    let _ = dx@[i + m];
                    lemma_from_less(s, d@, deps@[i] as int, dx@[i + m] as int);
                    let _ = cx.val(a as int, env)[i + m];
                }
            } else {
                let m = bits::nat_of(q) as int;
                if i + m < n {
                    let _ = x@[i + m];
                    let _ = cx.val(a as int, env)[i + m];
                }
                let m2 = bits::nat_of(y@) as int;
                if i + m2 < n {
                    let _ = x@[i + m2];
                }
            }
        }
    }
    (tv, deps)
}

/// Each bit depends only on higher ones.
fn strict(deps: &Vec<usize>) -> (r: bool)
    ensures
        r ==> forall|i: int| #![trigger deps@[i]] 0 <= i < deps@.len() ==> deps@[i] > i,
{
    let mut i: usize = 0;
    while i < deps.len()
        invariant
            i <= deps@.len(),
            forall|j: int| #![trigger deps@[j]] 0 <= j < i ==> deps@[j] > j,
        decreases deps@.len() - i,
    {
        if deps[i] <= i {
            return false;
        }
        i = i + 1;
    }
    true
}

/// How deep a triangular layer is read.
const DEPTH: usize = 6;

/// What makes `d` the only solution of `v ^ t == c`.
pub open(crate) spec fn only(cx: &Context, v: u32, t: u32, c: Seq<bool>, d: Seq<bool>) -> bool {
    exists|tv: Seq<bool>, deps: Seq<usize>|
        #![trigger near(cx, t, v, d, tv, deps)]
        near(cx, t, v, d, tv, deps) && d == ops::xor_bits(c, tv) && forall|i: int|
            #![trigger deps[i]]
            0 <= i < deps.len() ==> deps[i] > i
}

/// The value of `v` where `v ^ t == c`, if each bit of `t` depends only on higher bits of `v`.
fn triangle(cx: &Context, v: u32, t: u32, c: &BitVec) -> (r: Option<BitVec>)
    requires
        cx.wf(),
        v < cx.n(),
        t < cx.n(),
        cx.w(v as int) == c@.len(),
        cx.w(t as int) == c@.len(),
    ensures
        r matches Some(d) ==> d@.len() == c@.len() && only(cx, v, t, c@, d@),
{
    proof {
        assert(cx.ok_at(v as int));
    }
    let mut d = c.dup();
    let mut i: usize = 0;
    while i <= c.len()
        invariant
            cx.wf(),
            v < cx.n(),
            t < cx.n(),
            cx.w(v as int) == c@.len(),
            cx.w(t as int) == c@.len(),
            d@.len() == c@.len(),
            c@.len() < usize::MAX,
        decreases c@.len() + 1 - i,
    {
        let (tv, deps) = read_at(cx, t, v, &d, DEPTH)?;
        let e = c.xor(&tv);
        if e.same(&d) {
            if strict(&deps) {
                assert(near(cx, t, v, d@, tv@, deps@));
                return Some(d);
            }
            return None;
        }
        if !strict(&deps) {
            return None;
        }
        d = e;
        i = i + 1;
    }
    None
}

/// A triangular layer has one solution.
proof fn lemma_triangle(
    cx: &Context,
    x: u32,
    a: u32,
    b: u32,
    v: u32,
    t: u32,
    c: Seq<bool>,
    d: Seq<bool>,
)
    requires
        cx.wf(),
        x < cx.n(),
        cx.nodes@[x as int] == Node::Bin(BinOp::Xor, a, b),
        (v == a && t == b) || (v == b && t == a),
        cx.w(x as int) == c.len(),
        d.len() == c.len(),
        only(cx, v, t, c, d),
    ensures
        forall|env: Env|
            #![trigger cx.val(x as int, env)]
            #![trigger cx.val(v as int, env)]
            cx.val(x as int, env) == c <==> cx.val(v as int, env) == d,
{
    assert(cx.ok_at(x as int));
    assert(cx.ok_at(a as int));
    assert(cx.ok_at(b as int));
    let (tv, deps) = choose|tv: Seq<bool>, deps: Seq<usize>|
        #![trigger near(cx, t, v, d, tv, deps)]
        near(cx, t, v, d, tv, deps) && d == ops::xor_bits(c, tv) && forall|i: int|
            #![trigger deps[i]]
            0 <= i < deps.len() ==> deps[i] > i;
    assert forall|env: Env|
        #![trigger cx.val(x as int, env)]
        #![trigger cx.val(v as int, env)]
        cx.val(x as int, env) == c <==> cx.val(v as int, env) == d by {
        let s = cx.val(v as int, env);
        let u = cx.val(t as int, env);
        let r = cx.val(x as int, env);
        assert forall|i: int| 0 <= i < c.len() implies r[i] == (s[i] != u[i]) by {}
        if r == c {
            lemma_from_top(cx, env, v, t, c, d, tv, deps, 0);
            assert(s =~= d);
        }
        if s == d {
            assert forall|i: int| 0 <= i < c.len() implies r[i] == c[i] by {
                let _ = deps[i];
                assert(u[i] == tv[i]);
                assert(d[i] == (c[i] != tv[i]));
            }
            assert(r =~= c);
        }
    }
}

/// The bits of a solution, from the top down to bit `k`.
proof fn lemma_from_top(
    cx: &Context,
    env: Env,
    v: u32,
    t: u32,
    c: Seq<bool>,
    d: Seq<bool>,
    tv: Seq<bool>,
    deps: Seq<usize>,
    k: int,
)
    requires
        0 <= k <= c.len(),
        near(cx, t, v, d, tv, deps),
        d == ops::xor_bits(c, tv),
        d.len() == c.len(),
        tv.len() == c.len(),
        forall|i: int| #![trigger deps[i]] 0 <= i < deps.len() ==> deps[i] > i,
        cx.val(v as int, env).len() == c.len(),
        forall|i: int|
            0 <= i < c.len() ==> c[i] == (cx.val(v as int, env)[i] != #[trigger] cx.val(
                t as int,
                env,
            )[i]),
    ensures
        agree_from(cx.val(v as int, env), d, k),
    decreases c.len() - k,
{
    let s = cx.val(v as int, env);
    if k < c.len() {
        lemma_from_top(cx, env, v, t, c, d, tv, deps, k + 1);
        let _ = deps[k];
        lemma_from_less(s, d, k + 1, deps[k] as int);
        assert(cx.val(t as int, env)[k] == tv[k]);
        assert(d[k] == (c[k] != tv[k]));
        assert(s[k] == d[k]);
    }
}

} // verus!
