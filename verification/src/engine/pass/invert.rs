//! The invert pass: equalities through invertible maps (see [`layers`](crate::engine::pass::layers)).
//!
//! At `a == b` and `a != b`:
//!
//! - both sides one injective layer over different operands (`f(x) == f(y)`, `f` fixed by the
//!   operands the sides share): the operands are compared instead, layer after layer;
//! - against a constant (`f(x) == c`): `x` is compared with the preimage of `c`, through every
//!   layer whose parameters are constants, and the comparison is a constant when `c` has no
//!   preimage;
//! - `a1 | ... | an == 0` (and `a1 & ... & an == ones`): every `ai` is solved against the
//!   constant on its own, and the answers are intersected, so one value compared with two
//!   different constants is false.
//!
//! Orderings are never touched: a bijection does not preserve them. A rewrite replaces a
//! comparison by one of proper subterms of its operands and a constant, or by a constant, so
//! like a rule it strictly decreases the termination order, and it is committed whether or not
//! the operands are shared elsewhere; a split is committed only when its result is a smaller
//! tree.

use vstd::prelude::*;
use crate::algebra;
use crate::bits;
use crate::ops;
use crate::term;
use crate::engine::fin;
use crate::engine::pass::layers;
use crate::engine::runner;
use crate::bitvec::BitVec;
use crate::engine::budget::Counter;
use crate::engine::fin::{Fin, Step, Stop};
use crate::engine::pass::layers::{undo, Undone};
use crate::engine::runner::Runner;
use crate::engine::stats::{bump, PassKind};
use crate::expr::{Context, Node};
use crate::facts::reliance::{Hyp, Reliance};
use crate::ops::{BinOp, CmpOp, UnOp};
use crate::term::Env;

verus! {

broadcast use crate::term::lemma_value_len;

/// The most operands of a tree that is split.
pub const MAX_SPLIT: usize = 16;

/// How deep a triangular layer is compared.
const DEPTH: usize = 6;

/// Bit `i` of nodes `t` and `u` is the same wherever `v` and `y` agree from bit `deps[i]` on.
spec fn alike(cx: &Context, t: u32, u: u32, v: u32, y: u32, deps: Seq<usize>) -> bool {
    &&& t < cx.n()
    &&& u < cx.n()
    &&& cx.w(t as int) == cx.w(u as int)
    &&& deps.len() == cx.w(t as int)
    &&& forall|env: Env, i: int|
        #![trigger cx.val(t as int, env)[i]]
        0 <= i < deps.len() && layers::agree_from(
            cx.val(v as int, env),
            cx.val(y as int, env),
            deps[i] as int,
        ) ==> cx.val(t as int, env)[i] == cx.val(u as int, env)[i]
}

/// The nodes `t` over `v` and `u` over `y` compared: for each bit, from which bit of `v` and `y`
/// on it depends on them; none where the two are not the same function.
fn compare_reads(cx: &Context, t: u32, u: u32, v: u32, y: u32, depth: usize) -> (r: Option<Vec<usize>>)
    requires
        cx.wf(),
        t < cx.n(),
        u < cx.n(),
        v < cx.n(),
        y < cx.n(),
        cx.w(v as int) == cx.w(y as int),
    ensures
        r matches Some(deps) ==> alike(cx, t, u, v, y, deps@),
    decreases depth,
{
    let w: usize = cx.wid(v) as usize;
    proof {
        assert(cx.ok_at(t as int));
        assert(cx.ok_at(u as int));
        assert(cx.ok_at(v as int));
        assert(cx.ok_at(y as int));
    }
    let n: usize = cx.wid(t) as usize;
    if cx.wid(u) as usize != n {
        return None;
    }
    if t == u {
        let deps = vec![w; n];
        return Some(deps);
    }
    if t == v && u == y {
        let mut deps: Vec<usize> = Vec::with_capacity(n);
        let mut i: usize = 0;
        while i < n
            invariant
                i <= n,
                deps@.len() == i,
                forall|j: int| 0 <= j < i ==> #[trigger] deps@[j] == j,
            decreases n - i,
        {
            deps.push(i);
            i = i + 1;
        }
        return Some(deps);
    }
    if depth == 0 {
        return None;
    }
    match (cx.node(t), cx.node(u)) {
        (Node::Un(UnOp::Not, a), Node::Un(UnOp::Not, b)) => {
            let deps = compare_reads(cx, a, b, v, y, depth - 1)?;
            proof {
                assert forall|env: Env, i: int|
                    #![trigger cx.val(t as int, env)[i]]
                    0 <= i < deps@.len() && layers::agree_from(
                        cx.val(v as int, env),
                        cx.val(y as int, env),
                        deps@[i] as int,
                    ) implies cx.val(t as int, env)[i] == cx.val(u as int, env)[i] by {
                    let _ = cx.val(a as int, env)[i];
                    let _ = cx.val(b as int, env)[i];
                }
            }
            Some(deps)
        },
        (Node::Bin(op, a, b), Node::Bin(op2, c, d)) => {
            if op != op2 {
                return None;
            }
            proof {
                assert(cx.ok_at(a as int));
                assert(cx.ok_at(b as int));
                assert(cx.ok_at(c as int));
                assert(cx.ok_at(d as int));
            }
            if op == BinOp::And || op == BinOp::Or || op == BinOp::Xor {
                let p = compare_reads(cx, a, c, v, y, depth - 1)?;
                let q = compare_reads(cx, b, d, v, y, depth - 1)?;
                let mut deps: Vec<usize> = Vec::with_capacity(n);
                let mut i: usize = 0;
                while i < n
                    invariant
                        i <= n,
                        p@.len() == n,
                        q@.len() == n,
                        deps@.len() == i,
                        forall|j: int|
                            #![trigger deps@[j]]
                            0 <= j < i ==> deps@[j] <= p@[j] && deps@[j] <= q@[j],
                    decreases n - i,
                {
                    if p[i] < q[i] {
                        deps.push(p[i]);
                    } else {
                        deps.push(q[i]);
                    }
                    i = i + 1;
                }
                proof {
                    assert forall|env: Env, i: int|
                        #![trigger cx.val(t as int, env)[i]]
                        0 <= i < deps@.len() && layers::agree_from(
                            cx.val(v as int, env),
                            cx.val(y as int, env),
                            deps@[i] as int,
                        ) implies cx.val(t as int, env)[i] == cx.val(u as int, env)[i] by {
                        let _ = deps@[i];
                        let _ = cx.val(a as int, env)[i];
                        let _ = cx.val(b as int, env)[i];
                    }
                }
                return Some(deps);
            }
            if op != BinOp::LShr || b != d {
                return None;
            }
            let kv = cx.const_val(b)?;
            let k: usize = kv.amount(n);
            let p = compare_reads(cx, a, c, v, y, depth - 1)?;
            let mut deps: Vec<usize> = Vec::with_capacity(n);
            let mut i: usize = 0;
            while i < n
                invariant
                    i <= n <= 512,
                    k <= n,
                    p@.len() == n,
                    deps@.len() == i,
                    forall|j: int|
                        #![trigger deps@[j]]
                        0 <= j < i ==> deps@[j] == (if j + k < n {
                            p@[j + k]
                        } else {
                            w
                        }),
                decreases n - i,
            {
                if i + k < n {
                    deps.push(p[i + k]);
                } else {
                    deps.push(w);
                }
                i = i + 1;
            }
            proof {
                assert forall|env: Env, i: int|
                    #![trigger cx.val(t as int, env)[i]]
                    0 <= i < deps@.len() && layers::agree_from(
                        cx.val(v as int, env),
                        cx.val(y as int, env),
                        deps@[i] as int,
                    ) implies cx.val(t as int, env)[i] == cx.val(u as int, env)[i] by {
                    let _ = deps@[i];
                    assert(cx.val(b as int, env) == kv@);
                    let m = bits::nat_of(kv@);
                    assert(cx.val(t as int, env) == ops::shr_bits(cx.val(a as int, env), m, false));
                    assert(cx.val(u as int, env) == ops::shr_bits(cx.val(c as int, env), m, false));
                    if i + k < n {
                        let _ = cx.val(a as int, env)[i + k];
                    }
                }
            }
            Some(deps)
        },
        _ => None,
    }
}

/// Whether `v ^ t` and `y ^ u` are one triangular layer over `v` and `y`.
fn same_triangle(cx: &Context, v: u32, t: u32, y: u32, u: u32) -> (r: bool)
    requires
        cx.wf(),
        t < cx.n(),
        u < cx.n(),
        v < cx.n(),
        y < cx.n(),
        cx.w(v as int) == cx.w(y as int),
        cx.w(t as int) == cx.w(v as int),
        cx.w(u as int) == cx.w(v as int),
    ensures
        r ==> forall|env: Env|
            #![trigger cx.val(v as int, env), cx.val(t as int, env), cx.val(y as int, env), cx.val(u as int, env)]
            ops::xor_bits(cx.val(v as int, env), cx.val(t as int, env)) == ops::xor_bits(
                cx.val(y as int, env),
                cx.val(u as int, env),
            ) <==> cx.val(v as int, env) == cx.val(y as int, env),
{
    let deps = match compare_reads(cx, t, u, v, y, DEPTH) {
        Some(d) => d,
        None => {
            return false;
        },
    };
    let mut i: usize = 0;
    while i < deps.len()
        invariant
            i <= deps@.len(),
            forall|j: int| #![trigger deps@[j]] 0 <= j < i ==> deps@[j] > j,
        decreases deps@.len() - i,
    {
        if deps[i] <= i {
            return false;
        }
        i = i + 1;
    }
    proof {
        assert(cx.ok_at(v as int));
        assert(cx.ok_at(t as int));
        assert(cx.ok_at(y as int));
        assert(cx.ok_at(u as int));
        assert forall|env: Env|
            #![trigger cx.val(v as int, env), cx.val(t as int, env), cx.val(y as int, env), cx.val(u as int, env)]
            ops::xor_bits(cx.val(v as int, env), cx.val(t as int, env)) == ops::xor_bits(
                cx.val(y as int, env),
                cx.val(u as int, env),
            ) <==> cx.val(v as int, env) == cx.val(y as int, env) by {
            let (p, q) = (cx.val(v as int, env), cx.val(t as int, env));
            let (r, s) = (cx.val(y as int, env), cx.val(u as int, env));
            let (f, g) = (ops::xor_bits(p, q), ops::xor_bits(r, s));
            if f == g {
                lemma_down(cx, env, t, u, v, y, deps@, 0);
                assert(p =~= r);
            }
            if p == r {
                assert forall|j: int| 0 <= j < p.len() implies f[j] == g[j] by {
                    let _ = deps@[j];
                    assert(q[j] == s[j]);
                }
                assert(f =~= g);
            }
        }
    }
    true
}

/// Two equal triangular layers have equal operands, from the top down to bit `k`.
proof fn lemma_down(cx: &Context, env: Env, t: u32, u: u32, v: u32, y: u32, deps: Seq<usize>, k: int)
    requires
        alike(cx, t, u, v, y, deps),
        forall|i: int| #![trigger deps[i]] 0 <= i < deps.len() ==> deps[i] > i,
        cx.val(v as int, env).len() == deps.len(),
        cx.val(y as int, env).len() == deps.len(),
        cx.val(t as int, env).len() == deps.len(),
        cx.val(u as int, env).len() == deps.len(),
        0 <= k <= deps.len(),
        ops::xor_bits(cx.val(v as int, env), cx.val(t as int, env)) == ops::xor_bits(
            cx.val(y as int, env),
            cx.val(u as int, env),
        ),
    ensures
        layers::agree_from(cx.val(v as int, env), cx.val(y as int, env), k),
    decreases deps.len() - k,
{
    let (p, q) = (cx.val(v as int, env), cx.val(t as int, env));
    let (r, s) = (cx.val(y as int, env), cx.val(u as int, env));
    if k < deps.len() {
        lemma_down(cx, env, t, u, v, y, deps, k + 1);
        let _ = deps[k];
        assert(layers::agree_from(p, r, deps[k] as int));
        assert(cx.val(t as int, env)[k] == cx.val(u as int, env)[k]);
        assert(ops::xor_bits(p, q)[k] == ops::xor_bits(r, s)[k]);
        assert(p[k] == r[k]);
    }
}

/// `x` and `y` are equal exactly where `p` and `q` are, wherever what it relies on holds.
pub open(crate) spec fn same_eq(cx: &Context, h: Hyp, rel: Reliance, x: u32, y: u32, p: u32, q: u32) -> bool {
    &&& p < cx.n()
    &&& q < cx.n()
    &&& cx.w(p as int) == cx.w(q as int)
    &&& forall|env: Env|
        #![trigger cx.val(x as int, env), cx.val(y as int, env)]
        #![trigger cx.val(p as int, env), cx.val(q as int, env)]
        rel.admits(h, env) ==> (cx.val(x as int, env) == cx.val(y as int, env) <==> cx.val(
            p as int,
            env,
        ) == cx.val(q as int, env))
}

/// What two nodes have in common at one layer.
enum Common {
    /// Nothing.
    Nothing,
    /// An injective layer over these operands.
    Layer(u32, u32),
    /// A product by this operand, of these operands.
    Product(u32, u32, u32),
}

spec fn common_ok(c: Common, cx: &Context, x: u32, y: u32) -> bool {
    match c {
        Common::Nothing => true,
        Common::Layer(p, q) => p < x && q < y && p < cx.n() && q < cx.n() && cx.w(p as int) == cx.w(
            q as int,
        ) && forall|env: Env|
            #![trigger cx.val(x as int, env), cx.val(y as int, env)]
            #![trigger cx.val(p as int, env), cx.val(q as int, env)]
            cx.val(x as int, env) == cx.val(y as int, env) <==> cx.val(p as int, env) == cx.val(
                q as int,
                env,
            ),
        Common::Product(p, q, k) => p < x && q < y && p < cx.n() && q < cx.n() && k < cx.n() && cx.w(
            p as int,
        ) == cx.w(k as int) && cx.w(q as int) == cx.w(k as int) && forall|env: Env|
            #![trigger cx.val(x as int, env), cx.val(y as int, env)]
            #![trigger cx.val(p as int, env), cx.val(q as int, env)]
            cx.val(x as int, env) == ops::bin_value(
                BinOp::Mul,
                cx.val(p as int, env),
                cx.val(k as int, env),
            ) && cx.val(y as int, env) == ops::bin_value(
                BinOp::Mul,
                cx.val(q as int, env),
                cx.val(k as int, env),
            ),
    }
}

/// The operand that two commutative nodes share, and their other operands.
fn shared(a: u32, b: u32, c: u32, d: u32) -> (r: Option<(u32, u32, u32)>)
    ensures
        r matches Some((p, q, k)) ==> ((a == p && b == k) || (a == k && b == p)) && ((c == q && d
            == k) || (c == k && d == q)),
{
    if b == d {
        Some((a, c, b))
    } else if a == c {
        Some((b, d, a))
    } else if a == d {
        Some((b, c, a))
    } else if b == c {
        Some((a, d, b))
    } else {
        None
    }
}

/// What two binary nodes have in common.
fn common_bin(cx: &Context, x: u32, y: u32, op: BinOp, a: u32, b: u32, c: u32, d: u32) -> (r: Common)
    requires
        cx.wf(),
        x < cx.n(),
        y < cx.n(),
        cx.w(x as int) == cx.w(y as int),
        cx.nodes@[x as int] == Node::Bin(op, a, b),
        cx.nodes@[y as int] == Node::Bin(op, c, d),
    ensures
        common_ok(r, cx, x, y),
{
    proof {
        assert(cx.ok_at(x as int));
        assert(cx.ok_at(y as int));
        assert(cx.ok_at(a as int));
        assert(cx.ok_at(b as int));
        assert(cx.ok_at(c as int));
        assert(cx.ok_at(d as int));
    }
    match op {
        BinOp::Add | BinOp::Xor | BinOp::Mul => {
            if let Some((p, q, k)) = shared(a, b, c, d) {
                proof {
                    assert forall|env: Env|
                        #![trigger cx.val(x as int, env), cx.val(y as int, env)]
                        #![trigger cx.val(p as int, env), cx.val(q as int, env)]
                        cx.val(x as int, env) == ops::bin_value(
                            op,
                            cx.val(p as int, env),
                            cx.val(k as int, env),
                        ) && cx.val(y as int, env) == ops::bin_value(
                            op,
                            cx.val(q as int, env),
                            cx.val(k as int, env),
                        ) && (op != BinOp::Mul ==> (cx.val(x as int, env) == cx.val(y as int, env)
                            <==> cx.val(p as int, env) == cx.val(q as int, env))) by {
                        let (s, t, m) = (
                            cx.val(p as int, env),
                            cx.val(q as int, env),
                            cx.val(k as int, env),
                        );
                        layers::lemma_swap(s, m);
                        layers::lemma_swap(t, m);
                        layers::lemma_undo_xor(s, m);
                        layers::lemma_undo_xor(t, m);
                        layers::lemma_undo_add(s, m);
                        layers::lemma_undo_add(t, m);
                        assert(cx.val(x as int, env) == ops::bin_value(op, s, m));
                        assert(cx.val(y as int, env) == ops::bin_value(op, t, m));
                    }
                }
                if op == BinOp::Mul {
                    return Common::Product(p, q, k);
                }
                return Common::Layer(p, q);
            }
            if op == BinOp::Xor {
                if same_triangle(cx, a, b, c, d) {
                    proof {
                        assert forall|env: Env|
                            #![trigger cx.val(x as int, env), cx.val(y as int, env)]
                            #![trigger cx.val(a as int, env), cx.val(c as int, env)]
                            cx.val(x as int, env) == cx.val(y as int, env) <==> cx.val(a as int, env)
                                == cx.val(c as int, env) by {
                            let _ = cx.val(b as int, env);
                            let _ = cx.val(d as int, env);
                        }
                    }
                    return Common::Layer(a, c);
                }
                if same_triangle(cx, b, a, d, c) {
                    proof {
                        assert forall|env: Env|
                            #![trigger cx.val(x as int, env), cx.val(y as int, env)]
                            #![trigger cx.val(b as int, env), cx.val(d as int, env)]
                            cx.val(x as int, env) == cx.val(y as int, env) <==> cx.val(b as int, env)
                                == cx.val(d as int, env) by {
                            layers::lemma_undo_xor(cx.val(a as int, env), cx.val(b as int, env));
                            layers::lemma_undo_xor(cx.val(c as int, env), cx.val(d as int, env));
                        }
                    }
                    return Common::Layer(b, d);
                }
            }
            Common::Nothing
        },
        BinOp::Sub => {
            if b == d || a == c {
                let (p, q) = if b == d {
                    (a, c)
                } else {
                    (b, d)
                };
                proof {
                    assert forall|env: Env|
                        #![trigger cx.val(x as int, env), cx.val(y as int, env)]
                        #![trigger cx.val(p as int, env), cx.val(q as int, env)]
                        cx.val(x as int, env) == cx.val(y as int, env) <==> cx.val(p as int, env)
                            == cx.val(q as int, env) by {
                        let m = if b == d {
                            cx.val(b as int, env)
                        } else {
                            cx.val(a as int, env)
                        };
                        layers::lemma_undo_add(cx.val(p as int, env), m);
                        layers::lemma_undo_add(cx.val(q as int, env), m);
                    }
                }
                return Common::Layer(p, q);
            }
            Common::Nothing
        },
        BinOp::RotL | BinOp::RotR => {
            if b == d {
                proof {
                    assert forall|env: Env|
                        #![trigger cx.val(x as int, env), cx.val(y as int, env)]
                        #![trigger cx.val(a as int, env), cx.val(c as int, env)]
                        cx.val(x as int, env) == cx.val(y as int, env) <==> cx.val(a as int, env)
                            == cx.val(c as int, env) by {
                        layers::lemma_undo_rot(cx.val(a as int, env), cx.val(b as int, env));
                        layers::lemma_undo_rot(cx.val(c as int, env), cx.val(b as int, env));
                    }
                }
                return Common::Layer(a, c);
            }
            Common::Nothing
        },
        _ => Common::Nothing,
    }
}

/// What two nodes of one width have in common.
fn common(cx: &Context, x: u32, y: u32) -> (r: Common)
    requires
        cx.wf(),
        x < cx.n(),
        y < cx.n(),
        cx.w(x as int) == cx.w(y as int),
    ensures
        common_ok(r, cx, x, y),
{
    proof {
        assert(cx.ok_at(x as int));
        assert(cx.ok_at(y as int));
    }
    match (cx.node(x), cx.node(y)) {
        (Node::Un(op, a), Node::Un(op2, b)) => {
            if op != op2 || !(op == UnOp::Not || op == UnOp::Neg || op == UnOp::BitRev || op
                == UnOp::Bswap) {
                return Common::Nothing;
            }
            proof {
                assert(cx.ok_at(a as int));
                assert(cx.ok_at(b as int));
                assert forall|env: Env|
                    #![trigger cx.val(x as int, env), cx.val(y as int, env)]
                    #![trigger cx.val(a as int, env), cx.val(b as int, env)]
                    cx.val(x as int, env) == cx.val(y as int, env) <==> cx.val(a as int, env)
                        == cx.val(b as int, env) by {
                    algebra::lemma_involution(op, cx.val(a as int, env));
                    algebra::lemma_involution(op, cx.val(b as int, env));
                }
            }
            Common::Layer(a, b)
        },
        (Node::Bin(op, a, b), Node::Bin(op2, c, d)) => {
            if op != op2 {
                return Common::Nothing;
            }
            common_bin(cx, x, y, op, a, b, c, d)
        },
        (Node::Zext(a), Node::Zext(b)) => {
            if cx.wid(a) != cx.wid(b) {
                return Common::Nothing;
            }
            proof {
                assert(cx.ok_at(a as int));
                assert(cx.ok_at(b as int));
                assert forall|env: Env|
                    #![trigger cx.val(x as int, env), cx.val(y as int, env)]
                    #![trigger cx.val(a as int, env), cx.val(b as int, env)]
                    cx.val(x as int, env) == cx.val(y as int, env) <==> cx.val(a as int, env)
                        == cx.val(b as int, env) by {
                    layers::lemma_extended(cx.val(a as int, env), cx.w(x as int));
                    layers::lemma_extended(cx.val(b as int, env), cx.w(x as int));
                }
            }
            Common::Layer(a, b)
        },
        (Node::Sext(a), Node::Sext(b)) => {
            if cx.wid(a) != cx.wid(b) {
                return Common::Nothing;
            }
            proof {
                assert(cx.ok_at(a as int));
                assert(cx.ok_at(b as int));
                assert forall|env: Env|
                    #![trigger cx.val(x as int, env), cx.val(y as int, env)]
                    #![trigger cx.val(a as int, env), cx.val(b as int, env)]
                    cx.val(x as int, env) == cx.val(y as int, env) <==> cx.val(a as int, env)
                        == cx.val(b as int, env) by {
                    layers::lemma_extended(cx.val(a as int, env), cx.w(x as int));
                    layers::lemma_extended(cx.val(b as int, env), cx.w(x as int));
                }
            }
            Common::Layer(a, b)
        },
        (Node::Concat(a, b), Node::Concat(c, d)) => {
            proof {
                assert(cx.ok_at(a as int));
                assert(cx.ok_at(b as int));
                assert(cx.ok_at(c as int));
                assert(cx.ok_at(d as int));
            }
            if b != d && a != c {
                return Common::Nothing;
            }
            let (p, q) = if b == d {
                (a, c)
            } else {
                (b, d)
            };
            proof {
                assert forall|env: Env|
                    #![trigger cx.val(x as int, env), cx.val(y as int, env)]
                    #![trigger cx.val(p as int, env), cx.val(q as int, env)]
                    cx.val(x as int, env) == cx.val(y as int, env) <==> cx.val(p as int, env)
                        == cx.val(q as int, env) by {
                    let n = cx.val(b as int, env).len() as int;
                    let (r, s) = (cx.val(x as int, env), cx.val(y as int, env));
                    assert(cx.val(d as int, env).len() == n);
                    assert(r.take(n) =~= cx.val(b as int, env));
                    assert(s.take(n) =~= cx.val(d as int, env));
                    assert(r.skip(n) =~= cx.val(a as int, env));
                    assert(s.skip(n) =~= cx.val(c as int, env));
                }
            }
            Common::Layer(p, q)
        },
        _ => Common::Nothing,
    }
}

/// Node `x` is `c` exactly where node `y` is `v`.
pub open(crate) spec fn same_at(cx: &Context, x: u32, c: Seq<bool>, y: u32, v: Seq<bool>) -> bool {
    &&& y < cx.n()
    &&& cx.w(y as int) == v.len()
    &&& forall|env: Env|
        #![trigger cx.val(x as int, env)]
        #![trigger cx.val(y as int, env)]
        cx.val(x as int, env) == c <==> cx.val(y as int, env) == v
}

/// What an equality with a constant is.
enum Solved {
    /// It never holds.
    Never,
    /// It is one with another constant, of a node below.
    Eq(u32, BitVec),
    /// Nothing simpler.
    Same,
}

spec fn solved_ok(s: Solved, cx: &Context, x: u32, c: Seq<bool>) -> bool {
    match s {
        Solved::Never => forall|env: Env| #[trigger] cx.val(x as int, env) != c,
        Solved::Eq(y, v) => same_at(cx, x, c, y, v@),
        Solved::Same => true,
    }
}

impl<'a> Runner<'a> {
    /// Whether the lowest bit of `k` is known to be set.
    fn odd(&mut self, cx: &Context, k: u32) -> (out: Result<(bool, Fin), Stop>)
        requires
            old(self).wf(cx),
            k < cx.n(),
        ensures
            runner::went(final(self), cx, old(self), cx),
            out matches Err(e) ==> final(self).refuses(cx, e),
            out matches Ok((true, fin)) ==> forall|env: Env|
                fin.rel.admits(final(self).hyp@, env) ==> (#[trigger] cx.val(k as int, env))[0],
    {
        proof {
            assert(cx.ok_at(k as int));
        }
        let (f, fin) = self.known(cx, k)?;
        match f {
            Some(b) => {
                if b.one.at(0) {
                    proof {
                        assert forall|env: Env| fin.rel.admits(self.hyp@, env) implies (
                        #[trigger] cx.val(k as int, env))[0] by {
                            assert(b.admits(cx.val(k as int, env)));
                        }
                    }
                    Ok((true, fin))
                } else {
                    Ok((false, fin))
                }
            },
            None => Ok((false, fin)),
        }
    }

    /// `f(x) == f(y)` as `x == y`, through every common injective layer: the operands that are
    /// left, and whether there was such a layer.
    fn cancel(&mut self, cx: &Context, a: u32, b: u32) -> (out: Result<(u32, u32, bool, Fin), Stop>)
        requires
            old(self).wf(cx),
            a < cx.n(),
            b < cx.n(),
            cx.w(a as int) == cx.w(b as int),
        ensures
            runner::went(final(self), cx, old(self), cx),
            out matches Err(e) ==> final(self).refuses(cx, e),
            out matches Ok((p, q, any, fin)) ==> same_eq(
                cx,
                final(self).hyp@,
                fin.rel,
                a,
                b,
                p,
                q,
            ),
    {
        let mut x: u32 = a;
        let mut y: u32 = b;
        let mut any = false;
        let mut fin = Fin::full();
        let ghost h = self.hyp@;
        loop
            invariant
                runner::went(self, cx, old(self), cx),
                h == self.hyp@,
                cx.wf(),
                x < cx.n(),
                y < cx.n(),
                cx.w(x as int) == cx.w(y as int),
                same_eq(cx, h, fin.rel, a, b, x, y),
            decreases x,
        {
            let ghost rel0 = fin.rel;
            let (p, q) = match common(cx, x, y) {
                Common::Nothing => {
                    return Ok((x, y, any, fin));
                },
                Common::Layer(p, q) => {
                    proof {
                        assert forall|env: Env|
                            #![trigger cx.val(a as int, env), cx.val(b as int, env)]
                            #![trigger cx.val(p as int, env), cx.val(q as int, env)]
                            fin.rel.admits(h, env) implies (cx.val(a as int, env) == cx.val(
                            b as int,
                            env,
                        ) <==> cx.val(p as int, env) == cx.val(q as int, env)) by {
                            let _ = cx.val(x as int, env);
                            let _ = cx.val(y as int, env);
                        }
                    }
                    (p, q)
                },
                Common::Product(p, q, k) => {
                    let (yes, f) = self.odd(cx, k)?;
                    fin = fin.and(if yes {
                        f
                    } else {
                        f.unchanged()
                    });
                    proof {
                        assert forall|env: Env|
                            #![trigger cx.val(a as int, env), cx.val(b as int, env)]
                            #![trigger cx.val(x as int, env), cx.val(y as int, env)]
                            fin.rel.admits(h, env) implies (cx.val(a as int, env) == cx.val(
                            b as int,
                            env,
                        ) <==> cx.val(x as int, env) == cx.val(y as int, env)) by {
                            assert(rel0.admits(h, env));
                        }
                    }
                    if !yes {
                        return Ok((x, y, any, fin));
                    }
                    proof {
                        assert(cx.ok_at(k as int));
                        assert(cx.ok_at(p as int));
                        assert(cx.ok_at(q as int));
                        assert forall|env: Env|
                            #![trigger cx.val(a as int, env), cx.val(b as int, env)]
                            #![trigger cx.val(p as int, env), cx.val(q as int, env)]
                            fin.rel.admits(h, env) implies (cx.val(a as int, env) == cx.val(
                            b as int,
                            env,
                        ) <==> cx.val(p as int, env) == cx.val(q as int, env)) by {
                            let (s, t) = (cx.val(p as int, env), cx.val(q as int, env));
                            let (u, v) = (cx.val(x as int, env), cx.val(y as int, env));
                            if u == v {
                                assert(cx.val(k as int, env)[0]);
                                layers::lemma_odd_product(s, t, cx.val(k as int, env));
                            }
                        }
                    }
                    (p, q)
                },
            };
            self.charge(Counter::PassWork, 1)?;
            x = p;
            y = q;
            any = true;
        }
    }

    /// `f(x) == c` as `x == v`, through every layer whose parameters are constants.
    fn solve(&mut self, cx: &Context, lhs: u32, c: &BitVec) -> (out: Result<Solved, Stop>)
        requires
            old(self).wf(cx),
            lhs < cx.n(),
            cx.w(lhs as int) == c@.len(),
        ensures
            runner::went(final(self), cx, old(self), cx),
            out matches Err(e) ==> final(self).refuses(cx, e),
            out matches Ok(s) ==> solved_ok(s, cx, lhs, c@),
    {
        let mut x: u32 = lhs;
        let mut v = c.dup();
        let mut any = false;
        loop
            invariant
                runner::went(self, cx, old(self), cx),
                cx.wf(),
                x < cx.n(),
                cx.w(x as int) == v@.len(),
                same_at(cx, lhs, c@, x, v@),
            decreases x,
        {
            self.charge(Counter::PassWork, 1)?;
            match undo(cx, x, &v) {
                None => {
                    return Ok(
                        if any {
                            Solved::Eq(x, v)
                        } else {
                            Solved::Same
                        },
                    );
                },
                Some(Undone::Never) => {
                    proof {
                        assert forall|env: Env| #[trigger] cx.val(lhs as int, env) != c@ by {
                            let _ = cx.val(x as int, env);
                        }
                    }
                    return Ok(Solved::Never);
                },
                Some(Undone::To(y, u)) => {
                    proof {
                        assert forall|env: Env|
                            #![trigger cx.val(lhs as int, env)]
                            #![trigger cx.val(y as int, env)]
                            cx.val(lhs as int, env) == c@ <==> cx.val(y as int, env) == u@ by {
                            let _ = cx.val(x as int, env);
                        }
                    }
                    x = y;
                    v = u;
                    any = true;
                },
            }
        }
    }
}

/// Every one of the nodes is `c`.
spec fn all_are(cx: &Context, ls: Seq<u32>, c: Seq<bool>, env: Env) -> bool {
    forall|i: int| 0 <= i < ls.len() ==> cx.val((#[trigger] ls[i]) as int, env) == c
}

/// The nodes are in the arena, `w` wide.
spec fn all_fit(cx: &Context, ls: Seq<u32>, w: nat) -> bool {
    forall|i: int|
        #![trigger ls[i]]
        0 <= i < ls.len() ==> ls[i] < cx.n() && cx.w(ls[i] as int) == w
}

/// A join is the constant where both its operands are.
proof fn lemma_joined(join: BinOp, a: Seq<bool>, b: Seq<bool>, c: Seq<bool>)
    requires
        a.len() == c.len(),
        b.len() == c.len(),
        (join == BinOp::Or && c == bits::zeros(c.len())) || (join == BinOp::And && c == bits::ones(
            c.len(),
        )),
    ensures
        ops::bin_value(join, a, b) == c <==> a == c && b == c,
{
    let r = ops::bin_value(join, a, b);
    if r == c {
        assert forall|i: int| 0 <= i < c.len() implies a[i] == c[i] && b[i] == c[i] by {
            assert(r[i] == c[i]);
        }
        assert(a =~= c);
        assert(b =~= c);
    }
    if a == c && b == c {
        assert(r =~= c);
    }
}

/// The operands of a tree of joins, at most [`MAX_SPLIT`].
fn operands(cx: &Context, join: BinOp, lhs: u32, Ghost(c): Ghost<Seq<bool>>) -> (r: Option<Vec<u32>>)
    requires
        cx.wf(),
        lhs < cx.n(),
        cx.w(lhs as int) == c.len(),
        (join == BinOp::Or && c == bits::zeros(c.len())) || (join == BinOp::And && c == bits::ones(
            c.len(),
        )),
    ensures
        r matches Some(ls) ==> all_fit(cx, ls@, c.len()) && forall|env: Env|
            (#[trigger] cx.val(lhs as int, env) == c <==> all_are(cx, ls@, c, env)),
{
    let mut leaves: Vec<u32> = Vec::new();
    let mut stack: Vec<u32> = vec![lhs];
    let mut joins: usize = 0;
    proof {
        assert forall|env: Env|
            (#[trigger] cx.val(lhs as int, env) == c <==> all_are(cx, leaves@, c, env) && all_are(
                cx,
                stack@,
                c,
                env,
            )) by {
            assert(stack@[0] == lhs);
        }
    }
    while stack.len() > 0
        invariant
            cx.wf(),
            lhs < cx.n(),
            (join == BinOp::Or && c == bits::zeros(c.len())) || (join == BinOp::And && c
                == bits::ones(c.len())),
            all_fit(cx, leaves@, c.len()),
            all_fit(cx, stack@, c.len()),
            joins <= MAX_SPLIT,
            forall|env: Env|
                (#[trigger] cx.val(lhs as int, env) == c <==> all_are(cx, leaves@, c, env)
                    && all_are(cx, stack@, c, env)),
        decreases MAX_SPLIT - joins, stack@.len(),
    {
        let ghost s0 = stack@;
        let ghost l0 = leaves@;
        let i = stack.pop().unwrap();
        let ghost s1 = stack@;
        proof {
            assert(s0[s0.len() - 1] == i);
            assert(cx.ok_at(i as int));
            assert forall|env: Env| #[trigger] all_are(cx, s0, c, env) <==> all_are(cx, s1, c, env)
                && cx.val(i as int, env) == c by {
                if all_are(cx, s0, c, env) {
                    assert forall|k: int| 0 <= k < s1.len() implies cx.val(
                        (#[trigger] s1[k]) as int,
                        env,
                    ) == c by {
                        assert(s1[k] == s0[k]);
                    }
                }
                if all_are(cx, s1, c, env) && cx.val(i as int, env) == c {
                    assert forall|k: int| 0 <= k < s0.len() implies cx.val(
                        (#[trigger] s0[k]) as int,
                        env,
                    ) == c by {
                        if k < s1.len() {
                            assert(s1[k] == s0[k]);
                        }
                    }
                }
            }
            assert forall|k: int| #![trigger s1[k]] 0 <= k < s1.len() implies s1[k] < cx.n() && cx.w(
                s1[k] as int,
            ) == c.len() by {
                assert(s1[k] == s0[k]);
            }
        }
        if let Node::Bin(op, a, b) = cx.node(i) {
            if op == join {
                if joins >= MAX_SPLIT {
                    return None;
                }
                joins = joins + 1;
                stack.push(b);
                stack.push(a);
                proof {
                    assert(cx.ok_at(a as int));
                    assert(cx.ok_at(b as int));
                    assert forall|env: Env| (#[trigger] cx.val(lhs as int, env) == c <==> all_are(
                        cx,
                        leaves@,
                        c,
                        env,
                    ) && all_are(cx, stack@, c, env)) by {
                        lemma_joined(join, cx.val(a as int, env), cx.val(b as int, env), c);
                        lemma_two_more(cx, s1, b, a, c, env);
                        assert(stack@ =~= s1.push(b).push(a));
                        assert(all_are(cx, s0, c, env) <==> all_are(cx, s1, c, env) && cx.val(
                            i as int,
                            env,
                        ) == c);
                    }
                }
                continue;
            }
        }
        if leaves.len() >= MAX_SPLIT {
            return None;
        }
        leaves.push(i);
        proof {
            assert forall|env: Env| (#[trigger] cx.val(lhs as int, env) == c <==> all_are(
                cx,
                leaves@,
                c,
                env,
            ) && all_are(cx, stack@, c, env)) by {
                lemma_one_more(cx, l0, i, c, env);
                assert(leaves@ =~= l0.push(i));
                assert(all_are(cx, s0, c, env) <==> all_are(cx, s1, c, env) && cx.val(i as int, env)
                    == c);
            }
        }
    }
    proof {
        assert forall|env: Env| (#[trigger] cx.val(lhs as int, env) == c <==> all_are(
            cx,
            leaves@,
            c,
            env,
        )) by {
            assert(all_are(cx, stack@, c, env));
        }
    }
    Some(leaves)
}

proof fn lemma_one_more(cx: &Context, ls: Seq<u32>, a: u32, c: Seq<bool>, env: Env)
    ensures
        all_are(cx, ls.push(a), c, env) <==> all_are(cx, ls, c, env) && cx.val(a as int, env) == c,
{
    let ms = ls.push(a);
    if all_are(cx, ms, c, env) {
        assert(ms[ls.len() as int] == a);
        assert forall|k: int| 0 <= k < ls.len() implies cx.val((#[trigger] ls[k]) as int, env) == c by {
            assert(ms[k] == ls[k]);
        }
    }
}

proof fn lemma_two_more(cx: &Context, ls: Seq<u32>, a: u32, b: u32, c: Seq<bool>, env: Env)
    ensures
        all_are(cx, ls.push(a).push(b), c, env) <==> all_are(cx, ls, c, env) && cx.val(a as int, env)
            == c && cx.val(b as int, env) == c,
{
    lemma_one_more(cx, ls, a, c, env);
    lemma_one_more(cx, ls.push(a), b, c, env);
}

/// Every node has its value.
spec fn meet_all(cx: &Context, vs: Seq<(u32, BitVec)>, n: int, env: Env) -> bool {
    forall|i: int| 0 <= i < n ==> cx.val((#[trigger] vs[i]).0 as int, env) == vs[i].1@
}

/// The nodes are in the arena, as wide as their values.
spec fn pairs_fit(cx: &Context, vs: Seq<(u32, BitVec)>) -> bool {
    forall|i: int|
        #![trigger vs[i]]
        0 <= i < vs.len() ==> vs[i].0 < cx.n() && cx.w(vs[i].0 as int) == vs[i].1@.len()
}

/// Where a node is in a list of values.
fn place(vs: &Vec<(u32, BitVec)>, x: u32) -> (r: Option<usize>)
    ensures
        r matches Some(i) ==> i < vs@.len() && vs@[i as int].0 == x,
{
    let mut i: usize = 0;
    while i < vs.len()
        invariant
            i <= vs@.len(),
        decreases vs@.len() - i,
    {
        if vs[i].0 == x {
            return Some(i);
        }
        i = i + 1;
    }
    None
}

/// What a split is: false, the values that the nodes must have, or nothing simpler.
enum Split {
    /// It never holds.
    Never,
    /// It holds where every node has its value.
    Values(Vec<(u32, BitVec)>),
    /// Nothing simpler.
    Same,
}

spec fn split_ok(s: Split, cx: &Context, x: u32, c: Seq<bool>) -> bool {
    match s {
        Split::Never => forall|env: Env| #[trigger] cx.val(x as int, env) != c,
        Split::Values(vs) => pairs_fit(cx, vs@) && forall|env: Env|
            (#[trigger] cx.val(x as int, env) == c <==> meet_all(cx, vs@, vs@.len() as int, env)),
        Split::Same => true,
    }
}

impl<'a> Runner<'a> {
    /// `a1 | ... | an == 0` (or `a1 & ... & an == ones`): each `ai` solved alone, then
    /// intersected.
    fn split_tree(&mut self, cx: &Context, join: BinOp, lhs: u32, c: &BitVec) -> (out: Result<Split, Stop>)
        requires
            old(self).wf(cx),
            lhs < cx.n(),
            cx.w(lhs as int) == c@.len(),
            (join == BinOp::Or && c@ == bits::zeros(c@.len())) || (join == BinOp::And && c@
                == bits::ones(c@.len())),
        ensures
            runner::went(final(self), cx, old(self), cx),
            out matches Err(e) ==> final(self).refuses(cx, e),
            out matches Ok(s) ==> split_ok(s, cx, lhs, c@),
    {
        self.charge(Counter::PassWork, 1)?;
        let leaves = match operands(cx, join, lhs, Ghost(c@)) {
            Some(ls) => ls,
            None => {
                return Ok(Split::Same);
            },
        };
        // What each operand being `c` means, without repeats.
        let mut vs: Vec<(u32, BitVec)> = Vec::new();
        let mut solved = false;
        let mut i: usize = 0;
        while i < leaves.len()
            invariant
                runner::went(self, cx, old(self), cx),
                cx.wf(),
                i <= leaves@.len(),
                all_fit(cx, leaves@, c@.len()),
                pairs_fit(cx, vs@),
                forall|env: Env|
                    (#[trigger] cx.val(lhs as int, env) == c@ <==> all_are(cx, leaves@, c@, env)),
                forall|env: Env| #[trigger]
                    all_are(cx, leaves@.take(i as int), c@, env) <==> meet_all(
                        cx,
                        vs@,
                        vs@.len() as int,
                        env,
                    ),
            decreases leaves@.len() - i,
        {
            let leaf = leaves[i];
            let ghost vs0 = vs@;
            proof {
                let _ = leaves@[i as int];
                assert forall|env: Env| #[trigger] all_are(cx, leaves@, c@, env) implies cx.val(
                    leaf as int,
                    env,
                ) == c@ && all_are(cx, leaves@.take(i as int), c@, env) by {
                    let t = leaves@.take(i as int);
                    assert forall|k: int| 0 <= k < t.len() implies cx.val((#[trigger] t[k]) as int, env)
                        == c@ by {
                        assert(t[k] == leaves@[k]);
                    }
                    let _ = leaves@[i as int];
                }
                assert(leaves@.take(i + 1) =~= leaves@.take(i as int).push(leaf));
                assert forall|env: Env| #[trigger] all_are(cx, leaves@.take(i + 1), c@, env) <==> all_are(
                    cx,
                    leaves@.take(i as int),
                    c@,
                    env,
                ) && cx.val(leaf as int, env) == c@ by {
                    lemma_one_more(cx, leaves@.take(i as int), leaf, c@, env);
                }
            }
            let (x, v) = match self.solve(cx, leaf, c)? {
                Solved::Never => {
                    proof {
                        assert forall|env: Env| #[trigger] cx.val(lhs as int, env) != c@ by {
                            if all_are(cx, leaves@, c@, env) {
                                let _ = cx.val(leaf as int, env);
                            }
                        }
                    }
                    return Ok(Split::Never);
                },
                Solved::Eq(x, v) => {
                    solved = true;
                    (x, v)
                },
                Solved::Same => (leaf, c.dup()),
            };
            assert(same_at(cx, leaf, c@, x, v@));
            match place(&vs, x) {
                Some(k) => {
                    let same = vs[k].1.same(&v);
                    proof {
                        assert forall|env: Env| #[trigger] all_are(cx, leaves@.take(i + 1), c@, env)
                            <==> meet_all(cx, vs@, vs@.len() as int, env) && same by {
                            let _ = cx.val(leaf as int, env);
                            let _ = vs@[k as int];
                            assert(all_are(cx, leaves@.take(i as int), c@, env) <==> meet_all(
                                cx,
                                vs@,
                                vs@.len() as int,
                                env,
                            ));
                            if meet_all(cx, vs@, vs@.len() as int, env) {
                                assert(cx.val(x as int, env) == vs@[k as int].1@);
                            }
                        }
                    }
                    if !same {
                        proof {
                            assert forall|env: Env| #[trigger] cx.val(lhs as int, env) != c@ by {
                                if all_are(cx, leaves@, c@, env) {
                                    let _ = cx.val(leaf as int, env);
                                    assert(all_are(cx, leaves@.take(i + 1), c@, env));
                                }
                            }
                        }
                        return Ok(Split::Never);
                    }
                },
                None => {
                    vs.push((x, v));
                    proof {
                        assert forall|env: Env| #[trigger] all_are(cx, leaves@.take(i + 1), c@, env)
                            <==> meet_all(cx, vs@, vs@.len() as int, env) by {
                            let _ = cx.val(leaf as int, env);
                            assert(all_are(cx, leaves@.take(i as int), c@, env) <==> meet_all(
                                cx,
                                vs0,
                                vs0.len() as int,
                                env,
                            ));
                            if meet_all(cx, vs@, vs@.len() as int, env) {
                                assert(vs@[vs0.len() as int] == (x, v));
                                assert forall|k: int| 0 <= k < vs0.len() implies cx.val(
                                    (#[trigger] vs0[k]).0 as int,
                                    env,
                                ) == vs0[k].1@ by {
                                    assert(vs@[k] == vs0[k]);
                                }
                            }
                            if meet_all(cx, vs0, vs0.len() as int, env) && cx.val(x as int, env)
                                == v@ {
                                assert forall|k: int| 0 <= k < vs@.len() implies cx.val(
                                    (#[trigger] vs@[k]).0 as int,
                                    env,
                                ) == vs@[k].1@ by {
                                    if k < vs0.len() {
                                        assert(vs@[k] == vs0[k]);
                                    }
                                }
                            }
                        }
                        assert forall|k: int| #![trigger vs@[k]] 0 <= k < vs@.len() implies vs@[k].0
                            < cx.n() && cx.w(vs@[k].0 as int) == vs@[k].1@.len() by {
                            if k < vs0.len() {
                                assert(vs@[k] == vs0[k]);
                            }
                        }
                    }
                },
            }
            i = i + 1;
        }
        assert(leaves@.take(i as int) =~= leaves@);
        if solved {
            Ok(Split::Values(vs))
        } else {
            Ok(Split::Same)
        }
    }

    /// `x == v` or `x != v`.
    fn equal_to(&mut self, cx: &mut Context, eq: bool, x: u32, v: &BitVec) -> (out: Result<u32, Stop>)
        requires
            old(self).wf(old(cx)),
            x < old(cx).n(),
            old(cx).w(x as int) == v@.len(),
        ensures
            runner::went(final(self), final(cx), old(self), old(cx)),
            out matches Err(e) ==> final(self).refuses(final(cx), e),
            out matches Ok(e) ==> e < final(cx).n() && final(cx).w(e as int) == 1 && forall|env: Env|
                (#[trigger] final(cx).val(e as int, env))[0] == (eq == (old(cx).val(x as int, env)
                    == v@)),
    {
        let ghost cx0 = *cx;
        proof {
            assert(cx.ok_at(x as int));
        }
        let k = self.mk_const(cx, v)?;
        let ghost cx1 = *cx;
        proof {
            assert(cx0.ok_at(x as int));
            assert(cx1.tm()[x as int] == cx0.tm()[x as int]);
        }
        let op = if eq {
            CmpOp::Eq
        } else {
            CmpOp::Ne
        };
        let e = self.c_rel(cx, op, x, k)?;
        proof {
            assert forall|env: Env| (#[trigger] cx.val(e as int, env))[0] == (eq == (cx0.val(
                x as int,
                env,
            ) == v@)) by {
                assert(cx1.val(k as int, env) == v@);
                assert(cx1.val(x as int, env) == cx0.val(x as int, env));
            }
        }
        Ok(e)
    }

    /// The conjunction of `x == v` over a list, or its negation.
    fn all_equal(&mut self, cx: &mut Context, eq: bool, vs: &Vec<(u32, BitVec)>) -> (out: Result<
        u32,
        Stop,
    >)
        requires
            old(self).wf(old(cx)),
            pairs_fit(old(cx), vs@),
        ensures
            runner::went(final(self), final(cx), old(self), old(cx)),
            out matches Err(e) ==> final(self).refuses(final(cx), e),
            out matches Ok(e) ==> e < final(cx).n() && final(cx).w(e as int) == 1 && forall|env: Env|
                (#[trigger] final(cx).val(e as int, env))[0] == (eq == meet_all(
                    old(cx),
                    vs@,
                    vs@.len() as int,
                    env,
                )),
    {
        let ghost cx0 = *cx;
        if vs.len() == 0 {
            let e = self.bool_const(cx, eq)?;
            proof {
                assert forall|env: Env| (#[trigger] cx.val(e as int, env))[0] == (eq == meet_all(
                    &cx0,
                    vs@,
                    0,
                    env,
                )) by {}
            }
            return Ok(e);
        }
        let join = if eq {
            BinOp::And
        } else {
            BinOp::Or
        };
        proof {
            let _ = vs@[0];
        }
        let mut e = self.equal_to(cx, eq, vs[0].0, &vs[0].1)?;
        proof {
            assert forall|env: Env| (#[trigger] cx.val(e as int, env))[0] == (eq == meet_all(
                &cx0,
                vs@,
                1,
                env,
            )) by {
                let _ = vs@[0];
            }
        }
        let mut i: usize = 1;
        while i < vs.len()
            invariant
                runner::went(self, cx, old(self), old(cx)),
                cx0 == *old(cx),
                1 <= i <= vs@.len(),
                pairs_fit(&cx0, vs@),
                e < cx.n(),
                cx.w(e as int) == 1,
                join == (if eq {
                    BinOp::And
                } else {
                    BinOp::Or
                }),
                forall|env: Env|
                    (#[trigger] cx.val(e as int, env))[0] == (eq == meet_all(
                        &cx0,
                        vs@,
                        i as int,
                        env,
                    )),
            decreases vs@.len() - i,
        {
            let ghost cx1 = *cx;
            proof {
                let x = vs@[i as int].0;
                assert(cx1.tm()[x as int] == cx0.tm()[x as int]);
            }
            let t = self.equal_to(cx, eq, vs[i].0, &vs[i].1)?;
            let ghost cx2 = *cx;
            let ghost e0 = e;
            proof {
                assert(cx2.tm()[e as int] == cx1.tm()[e as int]);
                assert(cx2.ok_at(e as int));
                assert(cx2.ok_at(t as int));
            }
            e = self.c_bin(cx, join, e, t)?;
            proof {
                assert forall|env: Env| (#[trigger] cx.val(e as int, env))[0] == (eq == meet_all(
                    &cx0,
                    vs@,
                    i + 1,
                    env,
                )) by {
                    let p = cx2.val(e0 as int, env);
                    let q = cx2.val(t as int, env);
                    assert(cx1.val(e0 as int, env) == p);
                    assert(cx1.val(vs@[i as int].0 as int, env) == cx0.val(vs@[i as int].0 as int, env));
                    assert(cx.val(e as int, env)[0] == if eq {
                        p[0] && q[0]
                    } else {
                        p[0] || q[0]
                    });
                    let ok = cx0.val(vs@[i as int].0 as int, env) == vs@[i as int].1@;
                    assert(meet_all(&cx0, vs@, i + 1, env) <==> meet_all(&cx0, vs@, i as int, env)
                        && ok);
                }
            }
            i = i + 1;
        }
        Ok(e)
    }

    /// What the comparison of `a` with the constant `c` is, if that is simpler.
    fn against(&mut self, cx: &mut Context, eq: bool, n: u32, a: u32, c: &BitVec, before: u32) -> (out: Result<
        Option<u32>,
        Stop,
    >)
        requires
            old(self).wf(old(cx)),
            n < old(cx).n(),
            a < old(cx).n(),
            old(cx).w(a as int) == c@.len(),
        ensures
            runner::went(final(self), final(cx), old(self), old(cx)),
            out matches Err(e) ==> final(self).refuses(final(cx), e),
            out matches Ok(Some(e)) ==> e < final(cx).n() && final(cx).w(e as int) == 1 && forall|
                env: Env,
            |
                (#[trigger] final(cx).val(e as int, env))[0] == (eq == (old(cx).val(a as int, env)
                    == c@)),
    {
        let ghost cx0 = *cx;
        proof {
            assert(cx.ok_at(a as int));
        }
        let join = match cx.node(a) {
            Node::Bin(op, _, _) => if (op == BinOp::Or && c.is_zero()) || (op == BinOp::And
                && c.is_ones()) {
                Some(op)
            } else {
                None
            },
            _ => None,
        };
        if let Some(j) = join {
            return match self.split_tree(cx, j, a, c)? {
                Split::Never => Ok(Some(self.bool_const(cx, !eq)?)),
                Split::Same => Ok(None),
                Split::Values(vs) => {
                    let e = self.all_equal(cx, eq, &vs)?;
                    // Kept only when smaller as a tree (a saturated size decides nothing).
                    let whole: u32 = cx.meta[n as usize].tree;
                    if whole == u32::MAX || cx.meta[e as usize].tree >= whole {
                        self.discard(cx, before);
                        return Ok(None);
                    }
                    proof {
                        assert forall|env: Env| (#[trigger] cx.val(e as int, env))[0] == (eq == (
                        cx0.val(a as int, env) == c@)) by {
                            let _ = cx0.val(a as int, env);
                        }
                    }
                    Ok(Some(e))
                },
            };
        }
        match self.solve(cx, a, c)? {
            Solved::Same => Ok(None),
            Solved::Never => Ok(Some(self.bool_const(cx, !eq)?)),
            Solved::Eq(x, v) => {
                let e = self.equal_to(cx, eq, x, &v)?;
                proof {
                    assert forall|env: Env| (#[trigger] cx.val(e as int, env))[0] == (eq == (cx0.val(
                        a as int,
                        env,
                    ) == c@)) by {
                        let _ = cx0.val(x as int, env);
                    }
                }
                Ok(Some(e))
            },
        }
    }

    /// Whether a pass is quarantined for the call.
    fn is_quarantined(&self, kind: PassKind) -> (r: bool)
        ensures
            r == self.quarantined_passes@.contains(kind),
    {
        let mut i: usize = 0;
        while i < self.quarantined_passes.len()
            invariant
                i <= self.quarantined_passes@.len(),
                forall|j: int| 0 <= j < i ==> #[trigger] self.quarantined_passes@[j] != kind,
            decreases self.quarantined_passes@.len() - i,
        {
            if self.quarantined_passes[i] == kind {
                return true;
            }
            i = i + 1;
        }
        false
    }

    /// The invert pass at `n`.
    pub(crate) fn invert_step(&mut self, cx: &mut Context, n: u32) -> (out: Result<Step, Stop>)
        requires
            old(self).wf(old(cx)),
            n < old(cx).n(),
        ensures
            runner::went(final(self), final(cx), old(self), old(cx)),
            out matches Err(e) ==> final(self).refuses(final(cx), e),
            out matches Ok(s) ==> fin::step_keeps(s, final(cx).tm(), final(self).hyp@, n as int),
            old(self).refuses_all() ==> !(out matches Ok(Step::To(_, _))),
            !(old(cx).nodes@[n as int] matches Node::Cmp(op, _, _) && (op == CmpOp::Eq || op
                == CmpOp::Ne)) ==> out matches Ok(Step::Normal(_)),
    {
        let ghost cx0 = *cx;
        let ghost h = self.hyp@;
        let (op, a, b) = match cx.node(n) {
            Node::Cmp(op, a, b) => (op, a, b),
            _ => {
                return Ok(Step::Normal(Fin::full()));
            },
        };
        if op != CmpOp::Eq && op != CmpOp::Ne {
            return Ok(Step::Normal(Fin::full()));
        }
        if self.is_quarantined(PassKind::Invert) {
            return Ok(Step::Normal(Fin::provisional()));
        }
        proof {
            assert(cx.ok_at(n as int));
            assert(cx.ok_at(a as int));
            assert(cx.ok_at(b as int));
        }
        let eq = op == CmpOp::Eq;
        let before: u32 = cx.len() as u32;
        let mut fin = Fin::full();
        // Constants are on the right of a stored equality.
        let e: Option<u32> = match cx.const_val(b) {
            Some(c) => {
                let e = self.against(cx, eq, n, a, &c, before)?;
                proof {
                    if let Some(x) = e {
                        assert forall|env: Env| (#[trigger] cx.val(x as int, env))[0] == (cx0.val(
                            n as int,
                            env,
                        ))[0] by {
                            assert(cx0.val(b as int, env) == c@);
                        }
                    }
                }
                e
            },
            None => {
                let (p, q, any, f) = self.cancel(cx, a, b)?;
                fin = fin.and(f);
                if any {
                    let x = self.c_rel(cx, op, p, q)?;
                    proof {
                        assert forall|env: Env| fin.rel.admits(h, env) implies (#[trigger] cx.val(
                            x as int,
                            env,
                        ))[0] == (cx0.val(n as int, env))[0] by {
                            let (s, t) = (cx0.val(p as int, env), cx0.val(q as int, env));
                            let (u, v) = (cx0.val(a as int, env), cx0.val(b as int, env));
                        }
                    }
                    Some(x)
                } else {
                    None
                }
            },
        };
        match e {
            Some(e) => {
                if e != n {
                    proof {
                        assert(cx.tm()[n as int] == cx0.tm()[n as int]);
                        assert(cx.ok_at(n as int));
                        assert(cx.ok_at(e as int));
                        assert forall|env: Env|
                            #![trigger term::value(cx.tm()[n as int], env)]
                            #![trigger term::value(cx.tm()[e as int], env)]
                            fin.rel.admits(h, env) implies term::value(cx.tm()[n as int], env)
                                == term::value(cx.tm()[e as int], env) by {
                            assert(cx.val(e as int, env)[0] == cx0.val(n as int, env)[0]);
                            assert(cx.val(e as int, env) =~= cx.val(n as int, env));
                        }
                    }
                    return self.settle(cx, PassKind::Invert, n, e, before, fin);
                }
            },
            None => {},
        }
        let c = self.stats.passes.entry(PassKind::Invert);
        c.noop = bump(c.noop);
        Ok(Step::Normal(fin))
    }
}

} // verus!
