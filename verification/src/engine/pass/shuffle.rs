//! The shuffle pass: bit provenance of values assembled from pieces of other values.
//!
//! For a node of at most [`WIDEST`] bits, every output bit is traced to a constant or to one
//! bit of a *source* (an atom): through `&` with a constant, `|`, `^` and `+` of pieces whose
//! traced bits do not overlap (so no carry and no cancellation can occur), shifts and rotations
//! by constants, zero and sign extension, `extract`, `concat` and `bswap`. When every bit is
//! traced, the node is re-emitted as the source itself, a rotation, a byte swap, one source in
//! place with constant bits (`(s & ~zeros) | ones`), or a `concat` of slices and constant runs,
//! and replaced when that is smaller. Limb recompositions, shifted-and-masked byte shuffles and
//! identity round trips collapse this way.

use vstd::prelude::*;
use crate::engine::fin;
use crate::engine::runner;
use crate::dfs;
use crate::term;
use crate::ops;
use crate::modular;
use crate::engine::pass::xor;
use crate::engine::pass::linear;
use crate::bits;
use crate::bitvec::{BitVec, Width, MAX_WIDTH};
use crate::dfs::expand;
use crate::engine::budget::Counter;
use crate::engine::fin::{Fin, Step, Stop};
use crate::engine::pass::xor::Vals;
use crate::engine::runner::{lists, Runner};
use crate::engine::stats::PassKind;
use crate::expr::{Context, Node};
use crate::ops::{BinOp, UnOp};
use crate::term::{Env, Term};

verus! {

broadcast use {crate::term::lemma_value_len, vstd::std_specs::hash::group_hash_axioms};

/// The widest value traced.
pub const WIDEST: u16 = 128;

/// The most distinct sources and runs in one emission.
pub const MAX_PIECES: usize = 16;

/// Where one bit comes from.
#[derive(Clone, Copy, Debug, PartialEq, Eq, Structural)]
pub enum Prov {
    /// It is 0.
    Zero,
    /// It is 1.
    One,
    /// Bit `j` of source node `s`.
    Bit(u32, u16),
}

/// The value of a traced bit.
pub open spec fn prov_value(p: Prov, vals: Vals) -> bool {
    match p {
        Prov::Zero => false,
        Prov::One => true,
        Prov::Bit(s, j) => vals(s)[j as int],
    }
}

/// The value of traced bits.
pub open spec fn reads(bits: Seq<Prov>, vals: Vals) -> Seq<bool> {
    Seq::new(bits.len(), |b: int| prov_value(bits[b], vals))
}

/// A traced bit is one of a node.
pub open spec fn prov_ok(p: Prov, terms: Seq<Term>) -> bool {
    match p {
        Prov::Bit(s, j) => s < terms.len() && j < term::twidth(terms[s as int]) && term::tok(terms[s as int]),
        _ => true,
    }
}

/// Traced bits are bits of nodes.
pub open spec fn provs_ok(bits: Seq<Prov>, terms: Seq<Term>) -> bool {
    forall|b: int| 0 <= b < bits.len() ==> prov_ok(#[trigger] bits[b], terms)
}

/// The bits of node `i`, low first, are traced.
pub open spec fn bits_ok(bits: Seq<Prov>, terms: Seq<Term>, i: int) -> bool {
    &&& bits.len() == term::twidth(terms[i])
    &&& provs_ok(bits, terms)
    &&& forall|env: Env|
        #![trigger term::value(terms[i], env)]
        term::value(terms[i], env) == reads(bits, xor::env_vals(terms, env))
}

/// Every trace kept is right.
#[verifier::opaque]
pub open spec fn traces_ok(m: Map<u32, Option<Vec<Prov>>>, terms: Seq<Term>) -> bool {
    forall|i: u32| #[trigger]
        m.contains_key(i) ==> i < terms.len() && (m[i] matches Some(b) ==> bits_ok(
            b@,
            terms,
            i as int,
        ))
}

/// The nodes traced.
pub open spec fn traced(m: Map<u32, Option<Vec<Prov>>>) -> spec_fn(u32) -> bool {
    |i: u32| m.contains_key(i)
}

/// Reading does not change as the arena grows.
pub proof fn lemma_reads_grow(bits: Seq<Prov>, terms: Seq<Term>, more: Seq<Term>, env: Env)
    requires
        provs_ok(bits, terms),
        terms.len() <= more.len(),
        forall|i: int| 0 <= i < terms.len() ==> #[trigger] more[i] == terms[i],
    ensures
        provs_ok(bits, more),
        reads(bits, xor::env_vals(more, env)) == reads(bits, xor::env_vals(terms, env)),
{
    assert forall|b: int| 0 <= b < bits.len() implies prov_ok(#[trigger] bits[b], more)
        && prov_value(bits[b], xor::env_vals(more, env)) == prov_value(bits[b], xor::env_vals(terms, env)) by {
        if let Prov::Bit(s, j) = bits[b] {
            assert(prov_ok(bits[b], terms));
            assert(more[s as int] == terms[s as int]);
        }
    }
    assert(reads(bits, xor::env_vals(more, env)) =~= reads(bits, xor::env_vals(terms, env)));
}

/// Traces stay right as the arena grows.
pub proof fn lemma_traces_grow(
    m: Map<u32, Option<Vec<Prov>>>,
    terms: Seq<Term>,
    more: Seq<Term>,
)
    requires
        traces_ok(m, terms),
        terms.len() <= more.len(),
        forall|i: int| 0 <= i < terms.len() ==> #[trigger] more[i] == terms[i],
    ensures
        traces_ok(m, more),
{
    reveal(traces_ok);
    assert forall|i: u32| #[trigger] m.contains_key(i) implies i < more.len() && (m[i] matches Some(
        b,
    ) ==> bits_ok(b@, more, i as int)) by {
        assert(more[i as int] == terms[i as int]);
        if let Some(b) = m[i] {
            lemma_reads_grow(b@, terms, more, |k: int, j: int| false);
            assert forall|env: Env| #![trigger term::value(more[i as int], env)] term::value(
                more[i as int],
                env,
            ) == reads(b@, xor::env_vals(more, env)) by {
                lemma_reads_grow(b@, terms, more, env);
                let _ = term::value(terms[i as int], env);
            }
        }
    }
}

/// Whether the node's operator is traced.
pub open spec fn is_traced_op(node: Node) -> bool {
    match node {
        Node::Const(_) => true,
        Node::Un(op, _) => op == UnOp::Bswap,
        Node::Bin(op, _, _) => op == BinOp::And || op == BinOp::Or || op == BinOp::Xor || op
            == BinOp::Add || op == BinOp::Shl || op == BinOp::LShr || op == BinOp::AShr || op
            == BinOp::RotL || op == BinOp::RotR,
        Node::Zext(_) => true,
        Node::Sext(_) => true,
        Node::Extract(..) => true,
        Node::Concat(..) => true,
        _ => false,
    }
}

/// Whether the node's operator is traced.
fn traced_op(node: &Node) -> (r: bool)
    ensures
        r == is_traced_op(*node),
{
    match node {
        Node::Const(_) => true,
        Node::Un(op, _) => *op == UnOp::Bswap,
        Node::Bin(op, _, _) => *op == BinOp::And || *op == BinOp::Or || *op == BinOp::Xor || *op
            == BinOp::Add || *op == BinOp::Shl || *op == BinOp::LShr || *op == BinOp::AShr || *op
            == BinOp::RotL || *op == BinOp::RotR,
        Node::Zext(_) => true,
        Node::Sext(_) => true,
        Node::Extract(..) => true,
        Node::Concat(..) => true,
        _ => false,
    }
}

/// The bits of a node of `w` bits as a source.
pub open spec fn as_source(i: u32, w: nat) -> Seq<Prov> {
    Seq::new(w, |b: int| Prov::Bit(i, b as u16))
}

/// The bits of a node as traced, or as a source.
pub open spec fn bits_of_node(m: Map<u32, Option<Vec<Prov>>>, terms: Seq<Term>, j: u32) -> Seq<Prov> {
    if m.contains_key(j) && m[j] is Some {
        m[j]->0@
    } else {
        as_source(j, term::twidth(terms[j as int]))
    }
}

/// The bits of node `i` come from those of its operands: it moves bits, masks them, or joins two
/// values that share none.
pub open spec fn traceable(
    m: Map<u32, Option<Vec<Prov>>>,
    nodes: Seq<Node>,
    terms: Seq<Term>,
    i: u32,
) -> bool {
    match nodes[i as int] {
        Node::Const(_) | Node::Zext(_) | Node::Sext(_) | Node::Extract(_, _) | Node::Concat(
            _,
            _,
        ) => true,
        Node::Un(op, _) => op == UnOp::Bswap,
        Node::Bin(op, a, b) => match op {
            BinOp::And => nodes[a as int] is Const != nodes[b as int] is Const,
            BinOp::Or | BinOp::Xor | BinOp::Add => all_join(
                op,
                bits_of_node(m, terms, a),
                bits_of_node(m, terms, b),
            ),
            BinOp::Shl | BinOp::LShr | BinOp::AShr => nodes[b as int] is Const && (terms[b as int]
                matches Term::Const(v) && bits::nat_of(v) <= u64::MAX),
            BinOp::RotL | BinOp::RotR => nodes[b as int] is Const,
            _ => false,
        },
        _ => false,
    }
}

/// The bits of `i` as a source.
fn source(cx: &Context, i: u32) -> (r: Vec<Prov>)
    requires
        cx.wf(),
        i < cx.n(),
    ensures
        bits_ok(r@, cx.tm(), i as int),
        r@ == as_source(i, cx.w(i as int)),
{
    let w = cx.wid(i);
    proof {
        assert(cx.ok_at(i as int));
    }
    let mut r: Vec<Prov> = Vec::with_capacity(w as usize);
    let mut j: u16 = 0;
    while j < w
        invariant
            j <= w,
            r@.len() == j,
            forall|b: int| 0 <= b < j ==> #[trigger] r@[b] == Prov::Bit(i, b as u16),
        decreases w - j,
    {
        r.push(Prov::Bit(i, j));
        j = j + 1;
    }
    proof {
        assert(r@ =~= as_source(i, cx.w(i as int)));
        let terms = cx.tm();
        assert forall|env: Env| #![trigger term::value(terms[i as int], env)] term::value(terms[i as int], env)
            == reads(r@, xor::env_vals(terms, env)) by {
            assert(term::value(terms[i as int], env) =~= reads(r@, xor::env_vals(terms, env)));
        }
    }
    r
}

/// The bits of a constant.
fn const_bits(v: &BitVec) -> (r: Vec<Prov>)
    ensures
        forall|vals: Vals| #[trigger] reads(r@, vals) == v@,
        forall|terms: Seq<Term>| #[trigger] provs_ok(r@, terms),
{
    let mut r: Vec<Prov> = Vec::with_capacity(v.len());
    let mut j: usize = 0;
    while j < v.len()
        invariant
            j <= v@.len(),
            r@.len() == j,
            forall|b: int|
                0 <= b < j ==> #[trigger] r@[b] == (if v@[b] {
                    Prov::One
                } else {
                    Prov::Zero
                }),
        decreases v@.len() - j,
    {
        if v.at(j) {
            r.push(Prov::One);
        } else {
            r.push(Prov::Zero);
        }
        j = j + 1;
    }
    proof {
        assert forall|vals: Vals| #[trigger] reads(r@, vals) == v@ by {
            assert(reads(r@, vals) =~= v@);
        }
    }
    r
}

/// The bits that a constant mask lets through.
fn masked(a: &Vec<Prov>, m: &BitVec) -> (r: Vec<Prov>)
    requires
        a@.len() == m@.len(),
    ensures
        r@.len() == a@.len(),
        forall|vals: Vals| #[trigger] reads(r@, vals) == ops::and_bits(reads(a@, vals), m@),
        forall|terms: Seq<Term>|
            provs_ok(a@, terms) ==> #[trigger] provs_ok(r@, terms),
{
    let mut r: Vec<Prov> = Vec::with_capacity(a.len());
    let mut j: usize = 0;
    while j < a.len()
        invariant
            j <= a@.len() == m@.len(),
            r@.len() == j,
            forall|b: int|
                0 <= b < j ==> #[trigger] r@[b] == (if m@[b] {
                    a@[b]
                } else {
                    Prov::Zero
                }),
        decreases a@.len() - j,
    {
        if m.at(j) {
            r.push(a[j]);
        } else {
            r.push(Prov::Zero);
        }
        j = j + 1;
    }
    proof {
        assert forall|vals: Vals| #[trigger] reads(r@, vals) == ops::and_bits(reads(a@, vals), m@) by {
            assert(reads(r@, vals) =~= ops::and_bits(reads(a@, vals), m@));
        }
        assert forall|terms: Seq<Term>| provs_ok(a@, terms) implies #[trigger] provs_ok(
            r@,
            terms,
        ) by {
            assert forall|b: int| 0 <= b < r@.len() implies prov_ok(#[trigger] r@[b], terms) by {
                let _ = a@[b];
            }
        }
    }
    r
}

/// Two traced bits join into one: one of them is 0, or in an or one of them is 1.
pub open spec fn joins(op: BinOp, x: Prov, y: Prov) -> bool {
    x == Prov::Zero || y == Prov::Zero || (op == BinOp::Or && (x == Prov::One || y == Prov::One))
}

/// Two traced values join bit by bit.
pub open spec fn all_join(op: BinOp, a: Seq<Prov>, b: Seq<Prov>) -> bool {
    forall|i: int| 0 <= i < a.len() ==> joins(op, #[trigger] a[i], b[i])
}

/// One bit of the or, exclusive or or sum (without carries) of two traced bits: none when both
/// may be 1. `1 | p` is 1: an or with a constant one bit is traced too.
fn merged_bit(op: BinOp, x: Prov, y: Prov) -> (r: Option<Prov>)
    requires
        op == BinOp::Or || op == BinOp::Xor || op == BinOp::Add,
    ensures
        r matches Some(p) ==> (p == x || p == y || p == Prov::One) && forall|vals: Vals|
            (#[trigger] prov_value(p, vals)) == (prov_value(x, vals) || prov_value(y, vals)),
        r is Some && op != BinOp::Or ==> x == Prov::Zero || y == Prov::Zero,
        r is Some <==> joins(op, x, y),
{
    if op == BinOp::Or && (x == Prov::One || y == Prov::One) {
        return Some(Prov::One);
    }
    if x == Prov::Zero {
        Some(y)
    } else if y == Prov::Zero {
        Some(x)
    } else {
        None
    }
}

/// Combines two traced values bit by bit where at most one side is non-zero at each bit.
fn merged(op: BinOp, a: &Vec<Prov>, b: &Vec<Prov>) -> (r: Option<Vec<Prov>>)
    requires
        a@.len() == b@.len(),
        op == BinOp::Or || op == BinOp::Xor || op == BinOp::Add,
    ensures
        r matches Some(v) ==> v@.len() == a@.len() && (forall|vals: Vals| #[trigger]
            reads(v@, vals) == ops::bin_value(op, reads(a@, vals), reads(b@, vals))) && (forall|
            terms: Seq<Term>,
        |
            provs_ok(a@, terms) && provs_ok(b@, terms) ==> #[trigger] provs_ok(v@, terms)),
        r is Some <==> all_join(op, a@, b@),
{
    let mut v: Vec<Prov> = Vec::with_capacity(a.len());
    let mut j: usize = 0;
    while j < a.len()
        invariant
            op == BinOp::Or || op == BinOp::Xor || op == BinOp::Add,
            j <= a@.len() == b@.len(),
            v@.len() == j,
            forall|i: int| 0 <= i < j ==> joins(op, #[trigger] a@[i], b@[i]),
            forall|i: int|
                #![trigger v@[i]]
                0 <= i < j ==> (v@[i] == a@[i] || v@[i] == b@[i] || v@[i] == Prov::One) && (op
                    != BinOp::Or ==> a@[i] == Prov::Zero || b@[i] == Prov::Zero) && forall|
                    vals: Vals,
                |
                    (#[trigger] prov_value(v@[i], vals)) == (prov_value(a@[i], vals) || prov_value(
                        b@[i],
                        vals,
                    )),
        decreases a@.len() - j,
    {
        match merged_bit(op, a[j], b[j]) {
            Some(p) => {
                v.push(p);
            },
            None => {
                assert(!joins(op, a@[j as int], b@[j as int]));
                return None;
            },
        }
        j = j + 1;
    }
    proof {
        assert forall|vals: Vals| #[trigger] reads(v@, vals) == ops::bin_value(
            op,
            reads(a@, vals),
            reads(b@, vals),
        ) by {
            let x = reads(a@, vals);
            let y = reads(b@, vals);
            assert forall|i: int| 0 <= i < v@.len() implies #[trigger] reads(v@, vals)[i] == (x[i]
                || y[i]) by {
                let _ = v@[i];
                assert(prov_value(v@[i], vals) == (prov_value(a@[i], vals) || prov_value(
                    b@[i],
                    vals,
                )));
            }
            assert(reads(v@, vals) =~= ops::or_bits(x, y));
            if op != BinOp::Or {
                assert forall|i: int| #![trigger x[i]] 0 <= i < x.len() implies !(x[i] && y[i]) by {
                    let _ = v@[i];
                }
                assert(ops::or_bits(x, y) =~= ops::xor_bits(x, y));
                linear::lemma_disjoint_sum(x, y);
                bits::lemma_bits_of_nat(ops::or_bits(x, y));
                assert(modular::num(ops::or_bits(x, y)) == bits::nat_of(ops::or_bits(x, y)));
            }
        }
        assert forall|terms: Seq<Term>|
            provs_ok(a@, terms) && provs_ok(b@, terms) implies #[trigger] provs_ok(v@, terms) by {
            assert forall|i: int| 0 <= i < v@.len() implies prov_ok(#[trigger] v@[i], terms) by {
                let _ = a@[i];
                let _ = b@[i];
            }
        }
    }
    Some(v)
}

/// Traced bits shifted left by `k`.
fn shifted_up(a: &Vec<Prov>, k: usize) -> (r: Vec<Prov>)
    ensures
        r@.len() == a@.len(),
        forall|vals: Vals| #[trigger] reads(r@, vals) == ops::shl_bits(reads(a@, vals), k as nat),
        forall|terms: Seq<Term>|
            provs_ok(a@, terms) ==> #[trigger] provs_ok(r@, terms),
{
    let mut r: Vec<Prov> = Vec::with_capacity(a.len());
    let mut j: usize = 0;
    while j < a.len()
        invariant
            j <= a@.len(),
            r@.len() == j,
            forall|b: int|
                0 <= b < j ==> #[trigger] r@[b] == (if b >= k {
                    a@[b - k]
                } else {
                    Prov::Zero
                }),
        decreases a@.len() - j,
    {
        if j >= k {
            r.push(a[j - k]);
        } else {
            r.push(Prov::Zero);
        }
        j = j + 1;
    }
    proof {
        assert forall|vals: Vals| #[trigger] reads(r@, vals) == ops::shl_bits(
            reads(a@, vals),
            k as nat,
        ) by {
            assert(reads(r@, vals) =~= ops::shl_bits(reads(a@, vals), k as nat));
        }
    }
    r
}

/// Traced bits shifted right by `k`, filling with `fill`.
fn shifted_down(a: &Vec<Prov>, k: usize, fill: Prov) -> (r: Vec<Prov>)
    ensures
        r@.len() == a@.len(),
        forall|vals: Vals| #[trigger]
            reads(r@, vals) == ops::shr_bits(reads(a@, vals), k as nat, prov_value(fill, vals)),
        forall|terms: Seq<Term>|
            provs_ok(a@, terms) && prov_ok(fill, terms) ==> #[trigger] provs_ok(r@, terms),
{
    let mut r: Vec<Prov> = Vec::with_capacity(a.len());
    let mut j: usize = 0;
    while j < a.len()
        invariant
            j <= a@.len(),
            r@.len() == j,
            forall|b: int|
                0 <= b < j ==> #[trigger] r@[b] == (if b + k < a@.len() {
                    a@[b + k]
                } else {
                    fill
                }),
        decreases a@.len() - j,
    {
        if k < a.len() - j {
            r.push(a[j + k]);
        } else {
            r.push(fill);
        }
        j = j + 1;
    }
    proof {
        assert forall|vals: Vals| #[trigger] reads(r@, vals) == ops::shr_bits(
            reads(a@, vals),
            k as nat,
            prov_value(fill, vals),
        ) by {
            assert(reads(r@, vals) =~= ops::shr_bits(
                reads(a@, vals),
                k as nat,
                prov_value(fill, vals),
            ));
        }
    }
    r
}

/// Where a rotated bit comes from.
proof fn lemma_rotated(i: int, w: int, k: int, n: int)
    requires
        0 <= i < w,
        0 <= k < w,
        0 <= n,
        n % w == k,
    ensures
        (i + w - k) % w == (i - n) % w,
        (i + k) % w == (i - (w - n % w)) % w,
{
    vstd::arithmetic::div_mod::lemma_fundamental_div_mod(n, w);
    let q = n / w;
    assert(i - n == (i + w - k) + (-q - 1) * w) by (nonlinear_arith)
        requires
            n == w * q + k,
    ;
    vstd::arithmetic::div_mod::lemma_mod_multiples_vanish(-q - 1, i + w - k, w);
    assert(w * (-q - 1) + (i + w - k) == i - n) by (nonlinear_arith)
        requires
            n == w * q + k,
    ;
    vstd::arithmetic::div_mod::lemma_mod_multiples_vanish(-1, i + k, w);
    assert(w * (-1) + (i + k) == i - (w - k));
}

/// Traced bits rotated left by `k`, which is `n` modulo the width.
fn rotated(a: &Vec<Prov>, k: usize, right: bool, Ghost(n): Ghost<nat>) -> (r: Vec<Prov>)
    requires
        k < a@.len() <= MAX_WIDTH,
        n % a@.len() == k,
    ensures
        r@.len() == a@.len(),
        forall|vals: Vals| #[trigger]
            reads(r@, vals) == (if right {
                ops::rotl_bits(reads(a@, vals), (a@.len() - n % a@.len()) as nat)
            } else {
                ops::rotl_bits(reads(a@, vals), n)
            }),
        forall|terms: Seq<Term>|
            provs_ok(a@, terms) ==> #[trigger] provs_ok(r@, terms),
{
    let w: usize = a.len();
    let mut r: Vec<Prov> = Vec::with_capacity(a.len());
    let mut j: usize = 0;
    while j < w
        invariant
            j <= w,
            w == a@.len() <= MAX_WIDTH,
            k < w,
            r@.len() == j,
            forall|b: int|
                0 <= b < j ==> #[trigger] r@[b] == a@[(if right {
                    (b + k) % (w as int)
                } else {
                    (b + w - k) % (w as int)
                })],
        decreases w - j,
    {
        if right {
            r.push(a[(j + k) % w]);
        } else {
            r.push(a[(j + w - k) % w]);
        }
        j = j + 1;
    }
    proof {
        assert forall|vals: Vals| #[trigger] reads(r@, vals) == (if right {
            ops::rotl_bits(reads(a@, vals), (a@.len() - n % a@.len()) as nat)
        } else {
            ops::rotl_bits(reads(a@, vals), n)
        }) by {
            let to = (if right {
                ops::rotl_bits(reads(a@, vals), (a@.len() - n % a@.len()) as nat)
            } else {
                ops::rotl_bits(reads(a@, vals), n)
            });
            assert forall|i: int| 0 <= i < w implies #[trigger] reads(r@, vals)[i] == to[i] by {
                lemma_rotated(i, w as int, k as int, n as int);
                let _ = r@[i];
            }
            assert(reads(r@, vals) =~= to);
        }
        assert forall|terms: Seq<Term>| provs_ok(a@, terms) implies #[trigger] provs_ok(
            r@,
            terms,
        ) by {
            assert forall|b: int| 0 <= b < r@.len() implies prov_ok(#[trigger] r@[b], terms) by {
                lemma_rotated(b, w as int, k as int, n as int);
                let _ = a@[(if right {
                    (b + k) % (w as int)
                } else {
                    (b + w - k) % (w as int)
                })];
            }
        }
    }
    r
}

/// Traced bits extended to `w` bits with `top`.
fn extended(a: &Vec<Prov>, w: usize, top: Prov) -> (r: Vec<Prov>)
    requires
        a@.len() <= w,
    ensures
        r@.len() == w,
        forall|b: int|
            0 <= b < w ==> #[trigger] r@[b] == (if b < a@.len() {
                a@[b]
            } else {
                top
            }),
{
    let mut r: Vec<Prov> = Vec::with_capacity(w);
    let mut j: usize = 0;
    while j < w
        invariant
            j <= w,
            a@.len() <= w,
            r@.len() == j,
            forall|b: int|
                0 <= b < j ==> #[trigger] r@[b] == (if b < a@.len() {
                    a@[b]
                } else {
                    top
                }),
        decreases w - j,
    {
        if j < a.len() {
            r.push(a[j]);
        } else {
            r.push(top);
        }
        j = j + 1;
    }
    r
}

/// A slice of traced bits.
fn sliced(a: &Vec<Prov>, lo: usize, n: usize) -> (r: Vec<Prov>)
    requires
        lo + n <= a@.len(),
    ensures
        r@ == a@.subrange(lo as int, lo + n),
{
    let mut r: Vec<Prov> = Vec::with_capacity(n);
    let mut j: usize = 0;
    while j < n
        invariant
            j <= n,
            lo + n <= a.len(),
            r@.len() == j,
            forall|b: int| 0 <= b < j ==> #[trigger] r@[b] == a@[lo + b],
        decreases n - j,
    {
        r.push(a[lo + j]);
        j = j + 1;
    }
    assert(r@ =~= a@.subrange(lo as int, lo + n));
    r
}

/// Traced bits of a high part and a low part.
fn joined(hi: &Vec<Prov>, lo: &Vec<Prov>) -> (r: Vec<Prov>)
    ensures
        r@ == lo@ + hi@,
{
    let mut r: Vec<Prov> = Vec::new();
    let mut j: usize = 0;
    while j < lo.len()
        invariant
            j <= lo@.len(),
            r@ == lo@.take(j as int),
        decreases lo@.len() - j,
    {
        r.push(lo[j]);
        j = j + 1;
        assert(r@ =~= lo@.take(j as int));
    }
    assert(r@ =~= lo@);
    j = 0;
    while j < hi.len()
        invariant
            j <= hi@.len(),
            r@ == lo@ + hi@.take(j as int),
        decreases hi@.len() - j,
    {
        r.push(hi[j]);
        j = j + 1;
        assert(r@ =~= lo@ + hi@.take(j as int));
    }
    assert(r@ =~= lo@ + hi@);
    r
}

/// Where a swapped bit comes from is in the value.
proof fn lemma_swap_range(i: int, w: int)
    requires
        0 <= i < w,
        w % 8 == 0,
    ensures
        0 <= ops::bswap_from(i, w) < w,
{
}

/// Traced bits with the bytes in reverse order.
fn swapped(a: &Vec<Prov>) -> (r: Vec<Prov>)
    requires
        a@.len() <= MAX_WIDTH,
        a@.len() % 8 == 0,
    ensures
        r@.len() == a@.len(),
        forall|vals: Vals| #[trigger] reads(r@, vals) == ops::bswap_bits(reads(a@, vals)),
        forall|terms: Seq<Term>|
            provs_ok(a@, terms) ==> #[trigger] provs_ok(r@, terms),
{
    let w: usize = a.len();
    let bytes: usize = w / 8;
    let mut r: Vec<Prov> = Vec::with_capacity(w);
    let mut j: usize = 0;
    while j < w
        invariant
            j <= w,
            w == a@.len() <= MAX_WIDTH,
            w % 8 == 0,
            bytes == w / 8,
            r@.len() == j,
            forall|b: int| 0 <= b < j ==> #[trigger] r@[b] == a@[ops::bswap_from(b, w as int)],
        decreases w - j,
    {
        proof {
            lemma_swap_range(j as int, w as int);
        }
        r.push(a[(bytes - 1 - j / 8) * 8 + j % 8]);
        j = j + 1;
    }
    proof {
        assert forall|vals: Vals| #[trigger] reads(r@, vals) == ops::bswap_bits(reads(a@, vals)) by {
            assert forall|i: int| 0 <= i < w implies #[trigger] reads(r@, vals)[i] == ops::bswap_bits(
                reads(a@, vals),
            )[i] by {
                lemma_swap_range(i, w as int);
                let _ = r@[i];
            }
            assert(reads(r@, vals) =~= ops::bswap_bits(reads(a@, vals)));
        }
        assert forall|terms: Seq<Term>| provs_ok(a@, terms) implies #[trigger] provs_ok(
            r@,
            terms,
        ) by {
            assert forall|b: int| 0 <= b < r@.len() implies prov_ok(#[trigger] r@[b], terms) by {
                lemma_swap_range(b, w as int);
                let _ = a@[ops::bswap_from(b, w as int)];
            }
        }
    }
    r
}

/// A small constant's value.
fn small_const(cx: &Context, i: u32) -> (r: Option<u64>)
    requires
        cx.wf(),
        i < cx.n(),
    ensures
        r matches Some(k) ==> forall|env: Env|
            bits::nat_of(#[trigger] term::value(cx.tm()[i as int], env)) == k,
        r is Some <==> cx.nodes@[i as int] is Const && (cx.tm()[i as int] matches Term::Const(v)
            && bits::nat_of(v) <= u64::MAX),
{
    match cx.const_val(i) {
        Some(v) => v.to_u64(),
        None => None,
    }
}

impl<'a> Runner<'a> {
    /// The bits of `j` as traced, or as a source.
    fn bits_at(&self, cx: &Context, j: u32) -> (r: Vec<Prov>)
        requires
            self.wf(cx),
            j < cx.n(),
        ensures
            bits_ok(r@, cx.tm(), j as int),
            r@ == bits_of_node(self.traces@, cx.tm(), j),
    {
        proof {
            reveal(traces_ok);
        }
        if let Some(Some(b)) = self.traces.get(&j) {
            let v = b.clone();
            assert(v@ =~= b@);
            v
        } else {
            source(cx, j)
        }
    }

    /// The bits of `i` from its operands' (already traced) bits: none when some bit cannot be
    /// traced.
    fn trace(&self, cx: &Context, i: u32) -> (r: Option<Vec<Prov>>)
        requires
            self.wf(cx),
            i < cx.n(),
        ensures
            r matches Some(b) ==> bits_ok(b@, cx.tm(), i as int),
            r is Some <==> traceable(self.traces@, cx.nodes@, cx.tm(), i),
    {
        let node = cx.node(i);
        let w: usize = cx.wid(i) as usize;
        let ghost tm = cx.tm();
        proof {
            assert(cx.ok_at(i as int));
        }
        match node {
            Node::Const(_) => {
                match cx.const_val(i) {
                    Some(v) => {
                        let r = const_bits(&v);
                        proof {
                            let vals = xor::env_vals(tm, |k: int, j: int| false);
                            assert(reads(r@, vals).len() == v@.len());
                            assert(provs_ok(r@, tm));
                            assert forall|env: Env| #![trigger term::value(tm[i as int], env)] term::value(
                                tm[i as int],
                                env,
                            ) == reads(r@, xor::env_vals(tm, env)) by {}
                        }
                        Some(r)
                    },
                    None => None,
                }
            },
            Node::Bin(BinOp::And, a, b) => {
                proof {
                    assert(cx.ok_at(a as int));
                    assert(cx.ok_at(b as int));
                }
                match (cx.const_val(a), cx.const_val(b)) {
                    (None, Some(m)) => {
                        let x = self.bits_at(cx, a);
                        let r = masked(&x, &m);
                        proof {
                            assert forall|env: Env| #![trigger term::value(tm[i as int], env)] term::value(
                                tm[i as int],
                                env,
                            ) == reads(r@, xor::env_vals(tm, env)) by {
                                assert(term::value(tm[a as int], env) == reads(x@, xor::env_vals(tm, env)));
                                assert(term::value(tm[b as int], env) == m@);
                            }
                        }
                        Some(r)
                    },
                    (Some(m), None) => {
                        let x = self.bits_at(cx, b);
                        let r = masked(&x, &m);
                        proof {
                            assert forall|env: Env| #![trigger term::value(tm[i as int], env)] term::value(
                                tm[i as int],
                                env,
                            ) == reads(r@, xor::env_vals(tm, env)) by {
                                assert(term::value(tm[b as int], env) == reads(x@, xor::env_vals(tm, env)));
                                assert(term::value(tm[a as int], env) == m@);
                                assert(ops::and_bits(m@, reads(x@, xor::env_vals(tm, env))) =~= ops::and_bits(
                                    reads(x@, xor::env_vals(tm, env)),
                                    m@,
                                ));
                            }
                        }
                        Some(r)
                    },
                    _ => None,
                }
            },
            Node::Bin(op, a, b) => {
                proof {
                    assert(cx.ok_at(a as int));
                    assert(cx.ok_at(b as int));
                }
                if op == BinOp::Or || op == BinOp::Xor || op == BinOp::Add {
                    let x = self.bits_at(cx, a);
                    let y = self.bits_at(cx, b);
                    let r = merged(op, &x, &y)?;
                    proof {
                        assert forall|env: Env| #![trigger term::value(tm[i as int], env)] term::value(
                            tm[i as int],
                            env,
                        ) == reads(r@, xor::env_vals(tm, env)) by {
                            assert(term::value(tm[a as int], env) == reads(x@, xor::env_vals(tm, env)));
                            assert(term::value(tm[b as int], env) == reads(y@, xor::env_vals(tm, env)));
                        }
                    }
                    Some(r)
                } else if op == BinOp::Shl || op == BinOp::LShr || op == BinOp::AShr {
                    let n = small_const(cx, b)?;
                    let k: usize = if n < w as u64 {
                        n as usize
                    } else {
                        w
                    };
                    let x = self.bits_at(cx, a);
                    let top = x[w - 1];
                    let r = if op == BinOp::Shl {
                        shifted_up(&x, k)
                    } else if op == BinOp::LShr {
                        shifted_down(&x, k, Prov::Zero)
                    } else {
                        shifted_down(&x, k, top)
                    };
                    proof {
                        assert(prov_ok(x@[w - 1], tm));
                        assert forall|env: Env| #![trigger term::value(tm[i as int], env)] term::value(
                            tm[i as int],
                            env,
                        ) == reads(r@, xor::env_vals(tm, env)) by {
                            let v = term::value(tm[a as int], env);
                            let vals = xor::env_vals(tm, env);
                            assert(v == reads(x@, vals));
                            assert(bits::nat_of(term::value(tm[b as int], env)) == n);
                            assert(v.last() == prov_value(top, vals));
                            assert(ops::shl_bits(v, n as nat) =~= ops::shl_bits(v, k as nat));
                            assert(ops::shr_bits(v, n as nat, false) =~= ops::shr_bits(v, k as nat, false));
                            assert(ops::shr_bits(v, n as nat, v.last()) =~= ops::shr_bits(
                                v,
                                k as nat,
                                v.last(),
                            ));
                        }
                    }
                    Some(r)
                } else if op == BinOp::RotL || op == BinOp::RotR {
                    // The count modulo the width, exactly at every width.
                    let c = cx.const_val(b)?;
                    let k = c.modulo(w);
                    let x = self.bits_at(cx, a);
                    let r = rotated(&x, k, op == BinOp::RotR, Ghost(bits::nat_of(c@)));
                    proof {
                        assert forall|env: Env| #![trigger term::value(tm[i as int], env)] term::value(
                            tm[i as int],
                            env,
                        ) == reads(r@, xor::env_vals(tm, env)) by {
                            assert(term::value(tm[a as int], env) == reads(x@, xor::env_vals(tm, env)));
                            assert(term::value(tm[b as int], env) == c@);
                        }
                    }
                    Some(r)
                } else {
                    None
                }
            },
            Node::Zext(a) => {
                proof {
                    assert(cx.ok_at(a as int));
                }
                let x = self.bits_at(cx, a);
                let r = extended(&x, w, Prov::Zero);
                proof {
                    assert forall|b: int| 0 <= b < r@.len() implies prov_ok(#[trigger] r@[b], tm) by {
                        if b < x@.len() {
                            let _ = x@[b];
                        }
                    }
                    assert forall|env: Env| #![trigger term::value(tm[i as int], env)] term::value(
                        tm[i as int],
                        env,
                    ) == reads(r@, xor::env_vals(tm, env)) by {
                        assert(term::value(tm[a as int], env) == reads(x@, xor::env_vals(tm, env)));
                        assert(reads(r@, xor::env_vals(tm, env)) =~= ops::zext_bits(
                            term::value(tm[a as int], env),
                            w as nat,
                        ));
                    }
                }
                Some(r)
            },
            Node::Sext(a) => {
                proof {
                    assert(cx.ok_at(a as int));
                }
                let x = self.bits_at(cx, a);
                let top = x[x.len() - 1];
                let r = extended(&x, w, top);
                proof {
                    assert forall|b: int| 0 <= b < r@.len() implies prov_ok(#[trigger] r@[b], tm) by {
                        if b < x@.len() {
                            let _ = x@[b];
                        } else {
                            let _ = x@[x@.len() - 1];
                        }
                    }
                    assert forall|env: Env| #![trigger term::value(tm[i as int], env)] term::value(
                        tm[i as int],
                        env,
                    ) == reads(r@, xor::env_vals(tm, env)) by {
                        assert(term::value(tm[a as int], env) == reads(x@, xor::env_vals(tm, env)));
                        assert(reads(r@, xor::env_vals(tm, env)) =~= ops::sext_bits(
                            term::value(tm[a as int], env),
                            w as nat,
                        ));
                    }
                }
                Some(r)
            },
            Node::Extract(a, lo) => {
                proof {
                    assert(cx.ok_at(a as int));
                }
                let x = self.bits_at(cx, a);
                let r = sliced(&x, lo as usize, w);
                proof {
                    assert forall|b: int| 0 <= b < r@.len() implies prov_ok(#[trigger] r@[b], tm) by {
                        let _ = x@[lo + b];
                    }
                    assert forall|env: Env| #![trigger term::value(tm[i as int], env)] term::value(
                        tm[i as int],
                        env,
                    ) == reads(r@, xor::env_vals(tm, env)) by {
                        assert(term::value(tm[a as int], env) == reads(x@, xor::env_vals(tm, env)));
                        assert(reads(r@, xor::env_vals(tm, env)) =~= term::value(tm[a as int], env).subrange(
                            lo as int,
                            lo + w,
                        ));
                    }
                }
                Some(r)
            },
            Node::Concat(h, l) => {
                proof {
                    assert(cx.ok_at(h as int));
                    assert(cx.ok_at(l as int));
                }
                let x = self.bits_at(cx, h);
                let y = self.bits_at(cx, l);
                let r = joined(&x, &y);
                proof {
                    assert forall|b: int| 0 <= b < r@.len() implies prov_ok(#[trigger] r@[b], tm) by {
                        if b < y@.len() {
                            let _ = y@[b];
                        } else {
                            let _ = x@[b - y@.len()];
                        }
                    }
                    assert forall|env: Env| #![trigger term::value(tm[i as int], env)] term::value(
                        tm[i as int],
                        env,
                    ) == reads(r@, xor::env_vals(tm, env)) by {
                        assert(term::value(tm[h as int], env) == reads(x@, xor::env_vals(tm, env)));
                        assert(term::value(tm[l as int], env) == reads(y@, xor::env_vals(tm, env)));
                        assert(reads(r@, xor::env_vals(tm, env)) =~= term::value(tm[l as int], env) + term::value(
                            tm[h as int],
                            env,
                        ));
                    }
                }
                Some(r)
            },
            Node::Un(UnOp::Bswap, a) => {
                proof {
                    assert(cx.ok_at(a as int));
                }
                let x = self.bits_at(cx, a);
                let r = swapped(&x);
                proof {
                    assert forall|env: Env| #![trigger term::value(tm[i as int], env)] term::value(
                        tm[i as int],
                        env,
                    ) == reads(r@, xor::env_vals(tm, env)) by {
                        assert(term::value(tm[a as int], env) == reads(x@, xor::env_vals(tm, env)));
                    }
                }
                Some(r)
            },
            _ => None,
        }
    }

    /// The traced bits of `root`, tracing (iteratively) and caching those below it.
    fn bits_of(&mut self, cx: &Context, root: u32) -> (out: Result<Option<Vec<Prov>>, Stop>)
        requires
            old(self).wf(cx),
            root < cx.n(),
        ensures
            runner::went(final(self), cx, old(self), cx),
            out matches Err(e) ==> final(self).refuses(cx, e),
            out matches Ok(Some(b)) ==> bits_ok(b@, cx.tm(), root as int),
    {
        let mut stack: Vec<(u32, bool)> = vec![(root, false)];
        while stack.len() > 0
            invariant
                runner::went(self, cx, old(self), cx),
                root < cx.n(),
                dfs::staying(stack@, cx.n()),
                dfs::waiting(stack@, traced(self.traces@), cx.nodes@),
                self.traces@.contains_key(root) || (stack@.len() > 0 && stack@[0].0 == root),
            decreases dfs::freight(stack@),
        {
            let ghost stack0 = stack@;
            let ghost done0 = traced(self.traces@);
            let top = match stack.pop() {
                Some(t) => t,
                None => {
                    return Ok(None);
                },
            };
            let (i, expanded) = top;
            assert(stack0.last() == top);
            assert(stack@ =~= stack0.drop_last());
            proof {
                dfs::lemma_freight_push(stack@, top);
                assert(stack0 =~= stack@.push(top));
                dfs::lemma_heft_pos(i as nat);
            }
            if self.traces.contains_key(&i) {
                proof {
                    dfs::lemma_wait_done(stack0, done0, done0, cx.nodes@);
                }
                continue;
            }
            let node = cx.node(i);
            let w = cx.wid(i);
            let f = if w > WIDEST || !traced_op(&node) {
                None
            } else if !expanded {
                let kept = &self.traces;
                let is_done = |c: u32| -> (b: bool)
                    ensures
                        b == kept@.contains_key(c),
                {
                    kept.contains_key(&c)
                };
                expand(cx, &mut stack, i, is_done, Ghost(stack0), Ghost(done0));
                continue;
            } else {
                self.charge(Counter::PassWork, w as u64)?;
                self.trace(cx, i)
            };
            proof {
                reveal(traces_ok);
            }
            self.traces.insert(i, f);
            proof {
                dfs::lemma_wait_done(stack0, done0, traced(self.traces@), cx.nodes@);
            }
        }
        proof {
            reveal(traces_ok);
        }
        if let Some(Some(b)) = self.traces.get(&root) {
            let v = b.clone();
            assert(v@ =~= b@);
            Ok(Some(v))
        } else {
            Ok(None)
        }
    }
}

/// A maximal run: a constant run, or a slice of a source with consecutive bits.
#[derive(Clone, Copy, Debug, PartialEq, Eq, Structural)]
pub enum Run {
    /// The constant and how many bits.
    Const(bool, u16),
    /// The source, its lowest bit and how many bits.
    Slice(u32, u16, u16),
}

/// How many bits a run has.
pub open spec fn run_len(r: Run) -> nat {
    match r {
        Run::Const(_, n) => n as nat,
        Run::Slice(_, _, n) => n as nat,
    }
}

/// The bits of a run.
pub open spec fn spread(r: Run) -> Seq<Prov> {
    match r {
        Run::Const(v, n) => Seq::new(
            n as nat,
            |i: int|
                if v {
                    Prov::One
                } else {
                    Prov::Zero
                },
        ),
        Run::Slice(s, lo, n) => Seq::new(n as nat, |i: int| Prov::Bit(s, (lo + i) as u16)),
    }
}

/// The bits of runs, low first.
pub open spec fn flat(rs: Seq<Run>) -> Seq<Prov>
    decreases rs.len(),
{
    if rs.len() == 0 {
        seq![]
    } else {
        flat(rs.drop_last()) + spread(rs.last())
    }
}

/// Every run has bits, of positions that exist.
pub open spec fn runs_ok(rs: Seq<Run>) -> bool {
    forall|k: int|
        #![trigger rs[k]]
        0 <= k < rs.len() ==> run_len(rs[k]) > 0 && (rs[k] matches Run::Slice(s, lo, n) ==> lo + n
            <= u16::MAX)
}

/// Puts one more bit on a run, where it continues it.
fn continued(r: Run, p: Prov) -> (out: Option<Run>)
    requires
        run_len(r) < WIDEST,
        r matches Run::Slice(s, lo, n) ==> lo + n <= u16::MAX,
        p matches Prov::Bit(s, j) ==> j < u16::MAX,
    ensures
        out matches Some(q) ==> spread(q) == spread(r).push(p) && run_len(q) == run_len(r) + 1 && (
        q matches Run::Slice(s, lo, n) ==> lo + n <= u16::MAX),
{
    match (r, p) {
        (Run::Const(false, n), Prov::Zero) => {
            let q = Run::Const(false, (n + 1) as u16);
            assert(spread(q) =~= spread(r).push(p));
            Some(q)
        },
        (Run::Const(true, n), Prov::One) => {
            let q = Run::Const(true, (n + 1) as u16);
            assert(spread(q) =~= spread(r).push(p));
            Some(q)
        },
        (Run::Slice(s, lo, n), Prov::Bit(t, j)) => {
            if s == t && lo + n == j {
                let q = Run::Slice(s, lo, (n + 1) as u16);
                assert(spread(q) =~= spread(r).push(p));
                Some(q)
            } else {
                None
            }
        },
        _ => None,
    }
}

/// Maximal runs, low bits first.
fn runs(bits: &Vec<Prov>) -> (r: Vec<Run>)
    requires
        bits@.len() <= WIDEST,
        forall|b: int|
            0 <= b < bits@.len() ==> (#[trigger] bits@[b] matches Prov::Bit(s, j) ==> j < u16::MAX),
    ensures
        flat(r@) == bits@,
        runs_ok(r@),
{
    let mut r: Vec<Run> = Vec::new();
    let mut i: usize = 0;
    assert(flat(r@) =~= bits@.take(0));
    while i < bits.len()
        invariant
            bits@.len() <= WIDEST,
            forall|b: int|
                0 <= b < bits@.len() ==> (#[trigger] bits@[b] matches Prov::Bit(s, j) ==> j
                    < u16::MAX),
            i <= bits@.len(),
            flat(r@) == bits@.take(i as int),
            runs_ok(r@),
        decreases bits@.len() - i,
    {
        let p = bits[i];
        let ghost r0 = r@;
        assert(bits@.take(i + 1) =~= bits@.take(i as int).push(p));
        let mut more: Option<Run> = None;
        if r.len() > 0 {
            let last = r[r.len() - 1];
            proof {
                assert(r0.last() == last);
                assert(flat(r0).len() == flat(r0.drop_last()).len() + spread(last).len());
            }
            more = continued(last, p);
        }
        match more {
            Some(q) => {
                let _ = r.pop();
                r.push(q);
                proof {
                    assert(r@.drop_last() =~= r0.drop_last());
                    assert(flat(r@) =~= bits@.take(i + 1));
                }
            },
            None => {
                let q = match p {
                    Prov::Zero => Run::Const(false, 1),
                    Prov::One => Run::Const(true, 1),
                    Prov::Bit(s, j) => Run::Slice(s, j, 1),
                };
                r.push(q);
                proof {
                    assert(r@.drop_last() =~= r0);
                    assert(spread(q) =~= seq![p]);
                    assert(flat(r@) =~= bits@.take(i + 1));
                }
            },
        }
        i = i + 1;
    }
    assert(bits@.take(i as int) =~= bits@);
    r
}

/// The rotation that traced bits are of source `s`, if they are one.
fn rotation(bits: &Vec<Prov>, s: u32) -> (r: Option<usize>)
    requires
        1 <= bits@.len() <= WIDEST,
    ensures
        r matches Some(k) ==> k < bits@.len() && forall|i: int|
            0 <= i < bits@.len() ==> #[trigger] bits@[i] == Prov::Bit(
                s,
                ((i + bits@.len() - k) % (bits@.len() as int)) as u16,
            ),
{
    let w: usize = bits.len();
    let j0: usize = match bits[0] {
        Prov::Bit(_, j) => j as usize,
        _ => {
            return None;
        },
    };
    if j0 >= w {
        return None;
    }
    let k: usize = (w - j0) % w;
    let mut i: usize = 0;
    while i < w
        invariant
            i <= w,
            w == bits@.len(),
            1 <= w <= WIDEST,
            k < w,
            forall|b: int|
                0 <= b < i ==> #[trigger] bits@[b] == Prov::Bit(
                    s,
                    ((b + w - k) % (w as int)) as u16,
                ),
        decreases w - i,
    {
        let from: usize = (i + w - k) % w;
        if bits[i] != Prov::Bit(s, from as u16) {
            return None;
        }
        i = i + 1;
    }
    Some(k)
}

/// Whether traced bits are source `s` with its bytes in reverse order.
fn reversed_bytes(bits: &Vec<Prov>, s: u32) -> (r: bool)
    requires
        1 <= bits@.len() <= WIDEST,
    ensures
        r ==> bits@.len() % 8 == 0 && forall|i: int|
            0 <= i < bits@.len() ==> #[trigger] bits@[i] == Prov::Bit(
                s,
                ops::bswap_from(i, bits@.len() as int) as u16,
            ),
{
    let w: usize = bits.len();
    if w % 8 != 0 {
        return false;
    }
    let bytes: usize = w / 8;
    let mut i: usize = 0;
    while i < w
        invariant
            i <= w,
            w == bits@.len(),
            1 <= w <= WIDEST,
            w % 8 == 0,
            bytes == w / 8,
            forall|b: int|
                0 <= b < i ==> #[trigger] bits@[b] == Prov::Bit(
                    s,
                    ops::bswap_from(b, w as int) as u16,
                ),
        decreases w - i,
    {
        proof {
            lemma_swap_range(i as int, w as int);
        }
        let from: usize = (bytes - 1 - i / 8) * 8 + i % 8;
        if bits[i] != Prov::Bit(s, from as u16) {
            return false;
        }
        i = i + 1;
    }
    true
}

/// The first source of traced bits.
fn first_source(bits: &Vec<Prov>) -> (r: Option<u32>)
    ensures
        r matches Some(s) ==> exists|b: int|
            0 <= b < bits@.len() && (#[trigger] bits@[b] matches Prov::Bit(t, _) && t == s),
        r is None ==> forall|b: int| 0 <= b < bits@.len() ==> !(#[trigger] bits@[b] is Bit),
{
    let mut i: usize = 0;
    while i < bits.len()
        invariant
            i <= bits@.len(),
            forall|b: int| 0 <= b < i ==> !(#[trigger] bits@[b] is Bit),
        decreases bits@.len() - i,
    {
        if let Prov::Bit(s, j) = bits[i] {
            assert(bits@[i as int] == Prov::Bit(s, j));
            return Some(s);
        }
        i = i + 1;
    }
    None
}

/// Whether every traced bit is constant or the same bit of `s`.
fn in_place(bits: &Vec<Prov>, s: u32) -> (r: bool)
    requires
        bits@.len() <= WIDEST,
    ensures
        r ==> forall|i: int|
            0 <= i < bits@.len() ==> (#[trigger] bits@[i] is Bit ==> bits@[i] == Prov::Bit(
                s,
                i as u16,
            )),
{
    let mut i: usize = 0;
    while i < bits.len()
        invariant
            bits@.len() <= WIDEST,
            i <= bits@.len(),
            forall|b: int|
                0 <= b < i ==> (#[trigger] bits@[b] is Bit ==> bits@[b] == Prov::Bit(s, b as u16)),
        decreases bits@.len() - i,
    {
        if let Prov::Bit(t, j) = bits[i] {
            if t != s || j as usize != i {
                return false;
            }
        }
        i = i + 1;
    }
    true
}

/// The positions whose bit is (or, for `!same`, is not) `p`.
fn where_is(bits: &Vec<Prov>, p: Prov, same: bool) -> (r: BitVec)
    ensures
        r@ == Seq::new(bits@.len(), |i: int| (bits@[i] == p) == same),
{
    let mut v: Vec<bool> = Vec::with_capacity(bits.len());
    let mut i: usize = 0;
    while i < bits.len()
        invariant
            i <= bits@.len(),
            v@.len() == i,
            forall|b: int| 0 <= b < i ==> #[trigger] v@[b] == ((bits@[b] == p) == same),
        decreases bits@.len() - i,
    {
        v.push((bits[i] == p) == same);
        i = i + 1;
    }
    let r = BitVec::from_bools(v);
    assert(r@ =~= Seq::new(bits@.len(), |i: int| (bits@[i] == p) == same));
    r
}

/// One of the first `n` traced bits is a bit of `s`.
pub open spec fn drawn(bits: Seq<Prov>, n: int, s: u32) -> bool {
    exists|b: int| 0 <= b < n && (#[trigger] bits[b] matches Prov::Bit(t, _) && t == s)
}

/// The distinct sources of traced bits, in increasing order.
fn sources(bits: &Vec<Prov>) -> (r: Vec<u32>)
    ensures
        forall|b: int|
            0 <= b < bits@.len() ==> (#[trigger] bits@[b] matches Prov::Bit(s, _) ==> r@.contains(
                s,
            )),
        forall|k: int| 0 <= k < r@.len() ==> drawn(bits@, bits@.len() as int, #[trigger] r@[k]),
{
    let mut r: Vec<u32> = Vec::new();
    let mut i: usize = 0;
    while i < bits.len()
        invariant
            i <= bits@.len(),
            forall|b: int|
                0 <= b < i ==> (#[trigger] bits@[b] matches Prov::Bit(s, _) ==> r@.contains(s)),
            forall|k: int| 0 <= k < r@.len() ==> drawn(bits@, i as int, #[trigger] r@[k]),
        decreases bits@.len() - i,
    {
        if let Prov::Bit(s, _) = bits[i] {
            if !lists(&r, s) {
                let mut j: usize = 0;
                while j < r.len() && r[j] < s
                    invariant
                        j <= r@.len(),
                    decreases r@.len() - j,
                {
                    j = j + 1;
                }
                let ghost r0 = r@;
                r.insert(j, s);
                proof {
                    assert(r@[j as int] == s);
                    assert forall|x: u32| r0.contains(x) implies #[trigger] r@.contains(x) by {
                        let q = choose|q: int| 0 <= q < r0.len() && r0[q] == x;
                        if q < j {
                            assert(r@[q] == x);
                        } else {
                            assert(r@[q + 1] == x);
                        }
                    }
                    assert forall|k: int| 0 <= k < r@.len() implies drawn(
                        bits@,
                        i + 1,
                        #[trigger] r@[k],
                    ) by {
                        if k < j {
                            assert(drawn(bits@, i as int, r0[k]));
                        } else if k == j {
                            assert(bits@[i as int] matches Prov::Bit(t, _) && t == s);
                        } else {
                            assert(drawn(bits@, i as int, r0[k - 1]));
                        }
                    }
                }
            }
        }
        i = i + 1;
    }
    r
}

impl<'a> Runner<'a> {
    /// Builds traced bits: none when they are in too many pieces.
    fn shuffle_emit(&mut self, cx: &mut Context, bits: &Vec<Prov>) -> (out: Result<
        Option<u32>,
        Stop,
    >)
        requires
            old(self).wf(old(cx)),
            1 <= bits@.len() <= WIDEST,
            provs_ok(bits@, old(cx).tm()),
        ensures
            runner::went(final(self), final(cx), old(self), old(cx)),
            out matches Err(e) ==> final(self).refuses(final(cx), e),
            out matches Ok(Some(e)) ==> e < final(cx).n() && final(cx).w(e as int) == bits@.len()
                && forall|env: Env| #[trigger]
                final(cx).val(e as int, env) == reads(bits@, xor::env_vals(old(cx).tm(), env)),
    {
        let ghost tm = cx.tm();
        let w: u16 = bits.len() as u16;
        proof {
            assert forall|b: int| 0 <= b < bits@.len() implies (#[trigger] bits@[b] matches Prov::Bit(
                s,
                j,
            ) ==> j < u16::MAX) by {
                assert(prov_ok(bits@[b], tm));
            }
        }
        let rs = runs(bits);
        if rs.len() > MAX_PIECES {
            return Ok(None);
        }
        // A whole source, possibly rotated or byte-swapped; or one source in place with some
        // bits constant: `(s & ~zeros) | ones`, smaller than any concat of its runs.
        if let Some(s) = first_source(bits) {
            proof {
                let b = choose|b: int|
                    0 <= b < bits@.len() && (#[trigger] bits@[b] matches Prov::Bit(t, _) && t == s);
                assert(prov_ok(bits@[b], tm));
                assert(cx.ok_at(s as int));
            }
            if cx.wid(s) == w {
                if let Some(k) = rotation(bits, s) {
                    return self.emit_rotation(cx, bits, s, k);
                }
                if reversed_bytes(bits, s) {
                    let e = self.c_un(cx, UnOp::Bswap, s)?;
                    proof {
                        assert forall|env: Env| #[trigger] cx.val(e as int, env) == reads(
                            bits@,
                            xor::env_vals(tm, env),
                        ) by {
                            let v = term::value(tm[s as int], env);
                            assert forall|i: int| 0 <= i < w implies #[trigger] ops::bswap_bits(v)[i]
                                == reads(bits@, xor::env_vals(tm, env))[i] by {
                                lemma_swap_range(i, w as int);
                                let _ = bits@[i];
                            }
                            assert(ops::bswap_bits(v) =~= reads(bits@, xor::env_vals(tm, env)));
                        }
                    }
                    return Ok(Some(e));
                }
                if in_place(bits, s) {
                    return self.emit_in_place(cx, bits, s);
                }
            }
        }
        self.emit_runs(cx, bits, &rs)
    }

    /// A rotation of a source.
    fn emit_rotation(&mut self, cx: &mut Context, bits: &Vec<Prov>, s: u32, k: usize) -> (out:
        Result<Option<u32>, Stop>)
        requires
            old(self).wf(old(cx)),
            1 <= bits@.len() <= WIDEST,
            s < old(cx).n(),
            old(cx).w(s as int) == bits@.len(),
            k < bits@.len(),
            forall|i: int|
                0 <= i < bits@.len() ==> #[trigger] bits@[i] == Prov::Bit(
                    s,
                    ((i + bits@.len() - k) % (bits@.len() as int)) as u16,
                ),
        ensures
            runner::went(final(self), final(cx), old(self), old(cx)),
            out matches Err(e) ==> final(self).refuses(final(cx), e),
            out matches Ok(Some(e)) ==> e < final(cx).n() && final(cx).w(e as int) == bits@.len()
                && forall|env: Env| #[trigger]
                final(cx).val(e as int, env) == reads(bits@, xor::env_vals(old(cx).tm(), env)),
    {
        let w: u16 = bits.len() as u16;
        let ghost tm = cx.tm();
        proof {
            assert(cx.ok_at(s as int));
            assert forall|env: Env| #[trigger] ops::rotl_bits(term::value(tm[s as int], env), k as nat) == reads(
                bits@,
                xor::env_vals(tm, env),
            ) by {
                let v = term::value(tm[s as int], env);
                vstd::arithmetic::div_mod::lemma_small_mod(k as nat, w as nat);
                assert forall|i: int| 0 <= i < w implies #[trigger] ops::rotl_bits(v, k as nat)[i]
                    == reads(bits@, xor::env_vals(tm, env))[i] by {
                    lemma_rotated(i, w as int, k as int, k as int);
                    let _ = bits@[i];
                    assert(0 <= (i + w - k) % (w as int) < w);
                }
                assert(ops::rotl_bits(v, k as nat) =~= reads(bits@, xor::env_vals(tm, env)));
            }
        }
        if k == 0 {
            proof {
                assert forall|env: Env| #[trigger] cx.val(s as int, env) == reads(
                    bits@,
                    xor::env_vals(tm, env),
                ) by {
                    let v = term::value(tm[s as int], env);
                    assert forall|i: int| 0 <= i < w implies #[trigger] v[i] == ops::rotl_bits(v, 0)[i] by {
                        vstd::arithmetic::div_mod::lemma_small_mod(i as nat, w as nat);
                    }
                    assert(v =~= ops::rotl_bits(v, 0));
                }
            }
            return Ok(Some(s));
        }
        let kv = BitVec::wrapping_from_u64(Width { bits: w }, k as u64);
        let ghost cx0 = *cx;
        let kc = self.mk_const(cx, &kv)?;
        let ghost cx1 = *cx;
        assert(cx1.tm()[s as int] == cx0.tm()[s as int]);
        let e = self.c_bin(cx, BinOp::RotL, s, kc)?;
        proof {
            bits::lemma_nat_bits_of(k as int, w as nat);
            lemma_fits_width(w as nat);
            vstd::arithmetic::div_mod::lemma_small_mod(k as nat, vstd::arithmetic::power2::pow2(w as nat));
            assert forall|env: Env| #[trigger] cx.val(e as int, env) == reads(
                bits@,
                xor::env_vals(tm, env),
            ) by {
                assert(cx1.val(kc as int, env) == kv@);
                assert(cx1.val(s as int, env) == term::value(tm[s as int], env));
                assert(bits::nat_of(kv@) == k);
                assert(ops::rotl_bits(term::value(tm[s as int], env), k as nat) == reads(
                    bits@,
                    xor::env_vals(tm, env),
                ));
            }
        }
        Ok(Some(e))
    }

    /// One source in place with some bits constant: `(s & ~zeros) | ones`.
    fn emit_in_place(&mut self, cx: &mut Context, bits: &Vec<Prov>, s: u32) -> (out: Result<
        Option<u32>,
        Stop,
    >)
        requires
            old(self).wf(old(cx)),
            1 <= bits@.len() <= WIDEST,
            s < old(cx).n(),
            old(cx).w(s as int) == bits@.len(),
            forall|i: int|
                0 <= i < bits@.len() ==> (#[trigger] bits@[i] is Bit ==> bits@[i] == Prov::Bit(
                    s,
                    i as u16,
                )),
        ensures
            runner::went(final(self), final(cx), old(self), old(cx)),
            out matches Err(e) ==> final(self).refuses(final(cx), e),
            out matches Ok(Some(e)) ==> e < final(cx).n() && final(cx).w(e as int) == bits@.len()
                && forall|env: Env| #[trigger]
                final(cx).val(e as int, env) == reads(bits@, xor::env_vals(old(cx).tm(), env)),
    {
        let w: u16 = bits.len() as u16;
        let ghost tm = cx.tm();
        proof {
            assert(cx.ok_at(s as int));
        }
        let keep = where_is(bits, Prov::Zero, false);
        let ones = where_is(bits, Prov::One, true);
        self.charge(Counter::PassWork, w as u64)?;
        let mut x = s;
        if !keep.is_ones() {
            let c = self.mk_const(cx, &keep)?;
            let ghost cx1 = *cx;
            assert(cx1.tm()[s as int] == tm[s as int]);
            x = self.c_bin(cx, BinOp::And, s, c)?;
            proof {
                assert forall|env: Env| #[trigger] cx.val(x as int, env) == ops::and_bits(
                    term::value(tm[s as int], env),
                    keep@,
                ) by {
                    assert(cx1.val(c as int, env) == keep@);
                    assert(cx1.val(s as int, env) == term::value(tm[s as int], env));
                }
            }
        } else {
            proof {
                assert forall|env: Env| #[trigger] cx.val(x as int, env) == ops::and_bits(
                    term::value(tm[s as int], env),
                    keep@,
                ) by {
                    assert(term::value(tm[s as int], env) =~= ops::and_bits(term::value(tm[s as int], env), keep@));
                }
            }
        }
        let ghost cx2 = *cx;
        let mut y = x;
        if !ones.is_zero() {
            let c = self.mk_const(cx, &ones)?;
            let ghost cx3 = *cx;
            assert(cx3.tm()[x as int] == cx2.tm()[x as int]);
            y = self.c_bin(cx, BinOp::Or, x, c)?;
            proof {
                assert forall|env: Env| #[trigger] cx.val(y as int, env) == ops::or_bits(
                    ops::and_bits(term::value(tm[s as int], env), keep@),
                    ones@,
                ) by {
                    assert(cx3.val(c as int, env) == ones@);
                    assert(cx3.val(x as int, env) == cx2.val(x as int, env));
                }
            }
        } else {
            proof {
                assert forall|env: Env| #[trigger] cx.val(y as int, env) == ops::or_bits(
                    ops::and_bits(term::value(tm[s as int], env), keep@),
                    ones@,
                ) by {
                    let v = ops::and_bits(term::value(tm[s as int], env), keep@);
                    assert(v =~= ops::or_bits(v, ones@));
                }
            }
        }
        proof {
            assert forall|env: Env| #[trigger] cx.val(y as int, env) == reads(
                bits@,
                xor::env_vals(tm, env),
            ) by {
                let v = term::value(tm[s as int], env);
                assert forall|i: int| 0 <= i < w implies #[trigger] ops::or_bits(
                    ops::and_bits(v, keep@),
                    ones@,
                )[i] == reads(bits@, xor::env_vals(tm, env))[i] by {
                    let _ = bits@[i];
                }
                assert(ops::or_bits(ops::and_bits(v, keep@), ones@) =~= reads(bits@, xor::env_vals(tm, env)));
            }
        }
        Ok(Some(y))
    }

    /// A concat of the runs, high first.
    fn emit_runs(&mut self, cx: &mut Context, bits: &Vec<Prov>, rs: &Vec<Run>) -> (out: Result<
        Option<u32>,
        Stop,
    >)
        requires
            old(self).wf(old(cx)),
            1 <= bits@.len() <= WIDEST,
            provs_ok(bits@, old(cx).tm()),
            flat(rs@) == bits@,
            runs_ok(rs@),
        ensures
            runner::went(final(self), final(cx), old(self), old(cx)),
            out matches Err(e) ==> final(self).refuses(final(cx), e),
            out matches Ok(Some(e)) ==> e < final(cx).n() && final(cx).w(e as int) == bits@.len()
                && forall|env: Env| #[trigger]
                final(cx).val(e as int, env) == reads(bits@, xor::env_vals(old(cx).tm(), env)),
    {
        let ghost cx0 = *cx;
        let ghost tm = cx.tm();
        let mut acc: Option<u32> = None;
        let mut i: usize = rs.len();
        assert(rs@.take(i as int) =~= rs@);
        while i > 0
            invariant
                cx0 == *old(cx),
                cx0.wf(),
                tm == cx0.tm(),
                runner::went(self, cx, old(self), &cx0),
                1 <= bits@.len() <= WIDEST,
                provs_ok(bits@, tm),
                runs_ok(rs@),
                i <= rs@.len(),
                flat(rs@.take(i as int)).len() <= bits@.len(),
                flat(rs@.take(i as int)) == bits@.take(flat(rs@.take(i as int)).len() as int),
                acc is None ==> i == rs@.len() && flat(rs@.take(i as int)).len() == bits@.len(),
                acc matches Some(h) ==> h < cx.n() && cx.w(h as int) == bits@.len() - flat(
                    rs@.take(i as int),
                ).len() && forall|env: Env| #[trigger]
                    cx.val(h as int, env) == reads(
                        bits@.skip(flat(rs@.take(i as int)).len() as int),
                        xor::env_vals(tm, env),
                    ),
            decreases i,
        {
            let ghost hi = flat(rs@.take(i as int)).len() as int;
            i = i - 1;
            let ghost lo = flat(rs@.take(i as int)).len() as int;
            let run = rs[i];
            let ghost part = spread(run);
            proof {
                let t = rs@.take(i + 1);
                assert(t.drop_last() =~= rs@.take(i as int));
                assert(t.last() == run);
                assert(hi == lo + part.len());
                assert(bits@.subrange(lo, hi) =~= part) by {
                    assert forall|b: int| 0 <= b < part.len() implies #[trigger] bits@.subrange(
                        lo,
                        hi,
                    )[b] == part[b] by {
                        assert(flat(t)[lo + b] == part[b]);
                        assert(bits@.take(hi)[lo + b] == bits@[lo + b]);
                    }
                }
                assert(flat(rs@.take(i as int)) =~= bits@.take(lo)) by {
                    assert forall|b: int| 0 <= b < lo implies #[trigger] flat(
                        rs@.take(i as int),
                    )[b] == bits@[b] by {
                        assert(flat(t)[b] == bits@.take(hi)[b]);
                    }
                }
            }
            self.charge(Counter::PassWork, 1)?;
            let ghost cx1 = *cx;
            let piece: u32 = match run {
                Run::Const(v, n) => {
                    let width = Width { bits: n };
                    let c = if v {
                        BitVec::ones(width)
                    } else {
                        BitVec::zero(width)
                    };
                    let x = self.mk_const(cx, &c)?;
                    proof {
                        assert forall|env: Env| #[trigger] cx.val(x as int, env) == reads(
                            part,
                            xor::env_vals(tm, env),
                        ) by {
                            assert(c@ =~= reads(part, xor::env_vals(tm, env)));
                        }
                    }
                    x
                },
                Run::Slice(s, from, n) => {
                    proof {
                        assert(part[n - 1] == Prov::Bit(s, (from + (n - 1)) as u16));
                        assert(bits@.subrange(lo, hi)[n - 1] == bits@[lo + n - 1]);
                        assert(prov_ok(bits@[lo + n - 1], tm));
                        assert(cx0.ok_at(s as int));
                        assert(cx1.tm()[s as int] == tm[s as int]);
                    }
                    let x = self.c_extract(cx, s, from, n)?;
                    proof {
                        assert forall|env: Env| #[trigger] cx.val(x as int, env) == reads(
                            part,
                            xor::env_vals(tm, env),
                        ) by {
                            assert(cx1.val(s as int, env) == term::value(tm[s as int], env));
                            assert(term::value(tm[s as int], env).subrange(from as int, from + n)
                                =~= reads(part, xor::env_vals(tm, env)));
                        }
                    }
                    x
                },
            };
            let ghost cx2 = *cx;
            acc = match acc {
                None => {
                    proof {
                        assert(bits@.skip(lo) =~= part);
                    }
                    Some(piece)
                },
                Some(h) => {
                    assert(cx2.tm()[h as int] == cx1.tm()[h as int]);
                    let e = self.c_concat(cx, h, piece)?;
                    proof {
                        assert forall|env: Env| #[trigger] cx.val(e as int, env) == reads(
                            bits@.skip(lo),
                            xor::env_vals(tm, env),
                        ) by {
                            let vals = xor::env_vals(tm, env);
                            assert(cx2.val(h as int, env) == cx1.val(h as int, env));
                            assert(cx2.val(piece as int, env) == reads(part, vals));
                            assert(bits@.skip(lo) =~= part + bits@.skip(hi));
                            assert(reads(bits@.skip(lo), vals) =~= reads(part, vals) + reads(
                                bits@.skip(hi),
                                vals,
                            ));
                        }
                    }
                    Some(e)
                },
            };
        }
        self.checked()?;
        proof {
            assert(rs@.take(0) =~= Seq::<Run>::empty());
            assert(bits@.skip(0) =~= bits@);
        }
        Ok(acc)
    }

    /// The shuffle pass at `n`.
    pub(crate) fn shuffle_step(&mut self, cx: &mut Context, n: u32) -> (out: Result<Step, Stop>)
        requires
            old(self).wf(old(cx)),
            n < old(cx).n(),
        ensures
            runner::went(final(self), final(cx), old(self), old(cx)),
            out matches Err(e) ==> final(self).refuses(final(cx), e),
            out matches Ok(s) ==> fin::step_keeps(s, final(cx).tm(), final(self).hyp@, n as int),
            old(self).refuses_all() ==> !(out matches Ok(Step::To(_, _))),
            !is_traced_op(old(cx).nodes@[n as int]) || old(cx).nodes@[n as int] is Const || old(
                cx,
            ).w(n as int) > WIDEST ==> out matches Ok(Step::Normal(_)),
    {
        let node = cx.node(n);
        if cx.wid(n) > WIDEST || !traced_op(&node) || cx.is_const(n) {
            return Ok(Step::Normal(Fin::full()));
        }
        let bits = match self.bits_of(cx, n)? {
            Some(b) => b,
            None => {
                return Ok(Step::Normal(Fin::full()));
            },
        };
        let atoms = sources(&bits);
        if atoms.len() > MAX_PIECES || (atoms.len() == 1 && atoms[0] == n) {
            return Ok(Step::Normal(Fin::full()));
        }
        proof {
            assert(cx.ok_at(n as int));
        }
        let before: u32 = cx.len() as u32;
        let ghost tm = cx.tm();
        let e = match self.shuffle_emit(cx, &bits)? {
            Some(e) => e,
            None => {
                return Ok(Step::Normal(Fin::full()));
            },
        };
        proof {
            assert forall|env: Env|
                #![trigger term::value(cx.tm()[n as int], env)]
                #![trigger term::value(cx.tm()[e as int], env)]
                true implies term::value(cx.tm()[n as int], env) == term::value(cx.tm()[e as int], env) by {
                assert(cx.tm()[n as int] == tm[n as int]);
                let _ = term::value(tm[n as int], env);
                assert(cx.val(e as int, env) == reads(bits@, xor::env_vals(tm, env)));
            }
        }
        self.finish(cx, PassKind::Shuffle, n, e, before, &atoms, Fin::full())
    }
}

/// A number below a width fits in it.
proof fn lemma_fits_width(w: nat)
    requires
        w >= 1,
    ensures
        w <= vstd::arithmetic::power2::pow2(w),
    decreases w,
{
    bits::lemma_pow2_step((w - 1) as nat);
    if w > 1 {
        lemma_fits_width((w - 1) as nat);
    } else {
        bits::lemma_pow2_zero();
    }
}

} // verus!
