//! The compares pass: boolean combinations (`& | ^ ~` on 1-bit values) of comparisons.
//!
//! *Same operand pair.* Two values `x`, `y` stand in exactly one of five relations: equal, or
//! one of {less, greater} unsigned and {less, greater} signed. Every predicate over `(x, y)` (in
//! either operand order) is a set of those relations, and `& | ^ ~` are set operations, so any
//! combination is a set; it is emitted when that set is one predicate, true or false. At width 1
//! only three relations can occur (`0 <u 1` but `0 >s -1`), which is accounted for.
//!
//! *One operand against constants.* A comparison of `x` with a constant is a set of values of
//! `x`: a union of unsigned intervals (signed comparisons split at the sign boundary).
//! Combinations are exact interval-set operations, emitted when the set is empty, everything, a
//! single comparison, or one wrapped interval `[lo, hi]` as the range check
//! `x - lo <=u hi - lo`. A comparison of `t + k`, `k - t`, `-t`, `~t`, `t ^ smin`,
//! `t & (2^j - 1)`, `t | smin` or an extension of `t` is one of `t` as well (the values of `t`
//! such a function sends into an interval set are an interval set), so comparisons of two such
//! terms combine on the nearest term both are functions of.
//!
//! All of it is exact at every width; the result replaces the node only when smaller.

use vstd::prelude::*;
use crate::expr;
use crate::engine::pass::residue;
use crate::engine::fin;
use crate::dfs;
use crate::term;
use crate::ops;
use crate::engine::runner;
use crate::engine::commit;
use crate::engine::pass::runs;
use crate::engine::pass::shapes;
use crate::engine::pass::spoken;
use crate::engine::pass::intervals;
use crate::engine::pass::cases;
use crate::bits;
use vstd::arithmetic::power2::pow2;
use crate::bitvec::{BitVec, MAX_WIDTH};
use crate::engine::budget::Counter;
use crate::engine::fin::{Fin, Step, Stop};
use crate::engine::pass::intervals::{complement, dup_spans, full, intersect, sym_diff, union, Span};
use crate::dfs::expand;
use crate::engine::pass::shapes::{interval_of, peel, preimage, Shape, MAX_INTERVALS, MAX_PEEL};
use crate::engine::pass::residue::Residues;
use crate::engine::runner::Runner;
use crate::engine::stats::PassKind;
use crate::expr::{Context, Node};
use crate::ops::{BinOp, CmpOp, UnOp};
use crate::term::{Env, Term};

verus! {

broadcast use {crate::term::lemma_value_len, vstd::std_specs::hash::group_hash_axioms};

/// A set of relations of the first operand to the second.
#[derive(Clone, Copy, PartialEq, Eq, Structural)]
pub struct Rels {
    /// Equal.
    pub eq: bool,
    /// Less unsigned, less signed.
    pub ll: bool,
    /// Less unsigned, greater signed.
    pub lg: bool,
    /// Greater unsigned, less signed.
    pub gl: bool,
    /// Greater unsigned, greater signed.
    pub gg: bool,
}

/// The relation of `x` to `y` is in the set.
pub open spec fn in_rels(s: Rels, x: Seq<bool>, y: Seq<bool>) -> bool {
    if x == y {
        s.eq
    } else if bits::nat_of(x) < bits::nat_of(y) {
        if bits::int_of(x) < bits::int_of(y) {
            s.ll
        } else {
            s.lg
        }
    } else if bits::int_of(x) < bits::int_of(y) {
        s.gl
    } else {
        s.gg
    }
}

/// Different values of one width differ as numbers.
proof fn lemma_differ(x: Seq<bool>, y: Seq<bool>)
    requires
        x.len() == y.len(),
    ensures
        x == y <==> bits::nat_of(x) == bits::nat_of(y),
        x == y <==> bits::int_of(x) == bits::int_of(y),
{
    if bits::nat_of(x) == bits::nat_of(y) {
        bits::lemma_nat_injective(x, y);
    }
    if bits::int_of(x) == bits::int_of(y) {
        ops::lemma_int_injective(x, y);
    }
}

/// The relations in which the predicate holds.
fn pred_set(op: CmpOp) -> (r: Rels)
    ensures
        forall|x: Seq<bool>, y: Seq<bool>|
            x.len() == y.len() ==> (#[trigger] in_rels(r, x, y) <==> ops::holds(op, x, y)),
{
    let r = match op {
        CmpOp::Eq => Rels { eq: true, ll: false, lg: false, gl: false, gg: false },
        CmpOp::Ne => Rels { eq: false, ll: true, lg: true, gl: true, gg: true },
        CmpOp::Ult => Rels { eq: false, ll: true, lg: true, gl: false, gg: false },
        CmpOp::Ule => Rels { eq: true, ll: true, lg: true, gl: false, gg: false },
        CmpOp::Slt => Rels { eq: false, ll: true, lg: false, gl: true, gg: false },
        CmpOp::Sle => Rels { eq: true, ll: true, lg: false, gl: true, gg: false },
    };
    proof {
        assert forall|x: Seq<bool>, y: Seq<bool>| x.len() == y.len() implies (#[trigger] in_rels(
            r,
            x,
            y,
        ) <==> ops::holds(op, x, y)) by {
            lemma_differ(x, y);
        }
    }
    r
}

/// The same set with the operands exchanged.
fn swap_set(s: Rels) -> (r: Rels)
    ensures
        forall|x: Seq<bool>, y: Seq<bool>|
            x.len() == y.len() ==> (#[trigger] in_rels(r, x, y) <==> in_rels(s, y, x)),
{
    let r = Rels { eq: s.eq, ll: s.gg, lg: s.gl, gl: s.lg, gg: s.ll };
    proof {
        assert forall|x: Seq<bool>, y: Seq<bool>| x.len() == y.len() implies (#[trigger] in_rels(
            r,
            x,
            y,
        ) <==> in_rels(s, y, x)) by {
            lemma_differ(x, y);
        }
    }
    r
}

/// The set without the relations that cannot occur at width `w`.
fn realizable(s: Rels, w: u16) -> (r: Rels)
    requires
        w >= 1,
    ensures
        w == 1 ==> r == (Rels { ll: false, gg: false, ..s }),
        w != 1 ==> r == s,
        forall|x: Seq<bool>, y: Seq<bool>|
            x.len() == w && y.len() == w ==> (#[trigger] in_rels(r, x, y) <==> in_rels(s, x, y)),
{
    if w == 1 {
        proof {
            assert forall|x: Seq<bool>, y: Seq<bool>|
                x.len() == 1 && y.len() == 1 implies (#[trigger] in_rels(
                (Rels { ll: false, gg: false, ..s }),
                x,
                y,
            ) <==> in_rels(s, x, y)) by {
                lemma_differ(x, y);
                cases::lemma_one_bit_num(x);
                cases::lemma_one_bit_num(y);
                bits::lemma_pow2_zero();
                if x[0] == y[0] {
                    assert(x =~= y);
                }
            }
        }
        Rels { eq: s.eq, ll: false, lg: s.lg, gl: s.gl, gg: false }
    } else {
        s
    }
}

/// Every relation, or none, is in the set.
spec fn rels_all(s: Rels, w: nat, b: bool) -> bool {
    forall|v: Seq<bool>, u: Seq<bool>|
        v.len() == w && u.len() == w ==> #[trigger] in_rels(s, v, u) == b
}

/// The relations in the set are those of one comparison.
spec fn rels_one(s: Rels, w: nat, op: CmpOp, first: bool) -> bool {
    forall|v: Seq<bool>, u: Seq<bool>|
        v.len() == w && u.len() == w ==> (#[trigger] in_rels(s, v, u) == if first {
            ops::holds(op, v, u)
        } else {
            ops::holds(op, u, v)
        })
}

/// Sets that hold of the same values are the same, but for relations that cannot occur.
proof fn lemma_same_rels(s: Rels, p: Rels, t: Rels, q: Rels, w: nat)
    requires
        w >= 1,
        w == 1 ==> t == (Rels { ll: false, gg: false, ..s }) && q == (Rels {
            ll: false,
            gg: false,
            ..p
        }),
        w != 1 ==> t == s && q == p,
        forall|v: Seq<bool>, u: Seq<bool>|
            v.len() == w && u.len() == w ==> #[trigger] in_rels(s, v, u) == in_rels(p, v, u),
    ensures
        t == q,
{
    let z = bits::zeros(w);
    let m = bits::zeros(w).update(w - 1, true);
    bits::lemma_zeros_nat(w);
    shapes::lemma_smin(m);
    bits::lemma_pow2_zero();
    bits::lemma_pow2_le(0, (w - 1) as nat);
    assert(bits::int_of(z) == 0);
    assert(in_rels(s, z, z) == s.eq && in_rels(p, z, z) == p.eq);
    assert(in_rels(s, z, m) == s.lg && in_rels(p, z, m) == p.lg);
    assert(in_rels(s, m, z) == s.gl && in_rels(p, m, z) == p.gl);
    if w != 1 {
        let o = bits::bits_of(1, w);
        bits::lemma_pow2_le(1, w);
        bits::lemma_fits(1, w);
        assert(!o.last()) by {
            if o.last() {
                bits::lemma_pow2_le(1, (w - 1) as nat);
                assert(bits::nat_of(o) >= pow2((w - 1) as nat)) by {
                    let p = pow2((w - 1) as nat);
                    assert(1 * p == p);
                }
                assert(bits::nat_of(o.drop_last()) + pow2((w - 1) as nat) == 1) by {
                    let p = pow2((w - 1) as nat);
                    assert(1 * p == p);
                }
            }
        }
        assert(bits::int_of(o) == 1);
        assert(in_rels(s, z, o) == s.ll && in_rels(p, z, o) == p.ll);
        assert(in_rels(s, o, z) == s.gg && in_rels(p, o, z) == p.gg);
    }
}

/// A way to combine two 1-bit values.
#[derive(Clone, Copy, PartialEq, Eq, Structural)]
pub enum Conn {
    /// Both.
    And,
    /// Either.
    Or,
    /// One and not the other.
    Xor,
}

/// What the connective computes.
pub open spec fn joined(op: Conn, x: bool, y: bool) -> bool {
    match op {
        Conn::And => x && y,
        Conn::Or => x || y,
        Conn::Xor => x != y,
    }
}

/// What the connective computes.
fn join(op: Conn, x: bool, y: bool) -> (r: bool)
    ensures
        r == joined(op, x, y),
{
    match op {
        Conn::And => x && y,
        Conn::Or => x || y,
        Conn::Xor => x != y,
    }
}

/// What a 1-bit node says.
pub enum Info {
    /// A constant truth value.
    Const(bool),
    /// A set of relations of two nodes (the first of lower index).
    Pair(u32, u32, Rels),
    /// A set of values of a node.
    Values(u32, Vec<Span>),
    /// Neither (or over a cap).
    Opaque,
}

/// The description speaks of nodes that are there.
pub open spec fn info_fits(tm: Seq<Term>, f: Info) -> bool {
    match f {
        Info::Pair(x, y, _) => x < tm.len() && y < tm.len() && term::twidth(tm[x as int])
            == term::twidth(tm[y as int]) && term::tok(tm[x as int]) && term::tok(tm[y as int]),
        Info::Values(x, s) => x < tm.len() && term::tok(tm[x as int]) && intervals::spans_ok(
            s@,
            term::twidth(tm[x as int]),
        ),
        _ => true,
    }
}

/// What the description says at `env`.
pub open spec fn info_true(tm: Seq<Term>, f: Info, env: Env) -> bool {
    match f {
        Info::Const(v) => v,
        Info::Pair(x, y, s) => in_rels(
            s,
            term::value(tm[x as int], env),
            term::value(tm[y as int], env),
        ),
        Info::Values(x, s) => intervals::within(
            s@,
            bits::nat_of(term::value(tm[x as int], env)) as int,
        ),
        Info::Opaque => false,
    }
}

/// The description of node `i` is right.
pub open spec fn info_ok(tm: Seq<Term>, f: Info, i: u32) -> bool {
    &&& info_fits(tm, f)
    &&& f !is Opaque ==> term::twidth(tm[i as int]) == 1 && forall|env: Env|
        #![trigger term::value(tm[i as int], env)]
        term::value(tm[i as int], env)[0] == info_true(tm, f, env)
}

/// Every description kept is right.
#[verifier::opaque]
pub open spec fn compares_ok(m: Map<u32, Info>, tm: Seq<Term>) -> bool {
    forall|i: u32| #[trigger] m.contains_key(i) ==> i < tm.len() && info_ok(tm, m[i], i)
}

/// The description of a combination `i` of comparisons of `x` with constants is the values at which
/// it holds.
pub open spec fn says(nodes: Seq<Node>, tm: Seq<Term>, f: Info, i: int, x: u32) -> bool {
    f matches Info::Values(y, s) && y == x && s@.len() <= spoken::most_spans(nodes, i) && forall|
        v: Seq<bool>,
    |
        v.len() == term::twidth(tm[x as int]) ==> (#[trigger] intervals::within(
            s@,
            bits::nat_of(v) as int,
        ) == spoken::truth(nodes, tm, i, x as int, v))
}

/// The description of node `i` says all of it that is spoken of one node.
pub open spec fn full_at(nodes: Seq<Node>, tm: Seq<Term>, f: Info, i: int) -> bool {
    forall|x: u32|
        #![trigger spoken::speaks(nodes, i, x as int)]
        spoken::speaks(nodes, i, x as int) && spoken::most_spans(nodes, i) <= MAX_INTERVALS ==> says(
            nodes,
            tm,
            f,
            i,
            x,
        )
}

/// The description of node `i` says all of it that is said of two nodes.
pub open spec fn pairs_at(nodes: Seq<Node>, tm: Seq<Term>, f: Info, i: int) -> bool {
    forall|x: u32, y: u32|
        #![trigger spoken::relates(nodes, i, x as int, y as int)]
        spoken::relates(nodes, i, x as int, y as int) ==> says_of(nodes, tm, f, i, x, y)
}

/// The description of a combination of comparisons of `x` and `y` is the relations in which it holds.
pub open spec fn says_of(nodes: Seq<Node>, tm: Seq<Term>, f: Info, i: int, x: u32, y: u32) -> bool {
    f matches Info::Pair(a, b, s) && a == x && b == y && forall|v: Seq<bool>, u: Seq<bool>|
        v.len() == u.len() ==> (#[trigger] in_rels(s, v, u) == spoken::truth_of(
            nodes,
            i,
            x as int,
            v,
            u,
        ))
}

/// So do all that are kept.
#[verifier::opaque]
pub open spec fn compares_full(m: Map<u32, Info>, nodes: Seq<Node>, tm: Seq<Term>) -> bool {
    forall|i: u32| #[trigger]
        m.contains_key(i) ==> i < nodes.len() && full_at(nodes, tm, m[i], i as int) && pairs_at(
            nodes,
            tm,
            m[i],
            i as int,
        )
}

/// They do as the arena grows.
pub(crate) proof fn lemma_full_grow(m: Map<u32, Info>, cx0: &Context, cx1: &Context)
    requires
        cx0.wf(),
        cx1.wf(),
        cx1.extends(cx0),
        compares_full(m, cx0.nodes@, cx0.tm()),
    ensures
        compares_full(m, cx1.nodes@, cx1.tm()),
{
    reveal(compares_full);
    assert forall|i: u32| #[trigger] m.contains_key(i) implies i < cx1.nodes@.len() && full_at(
        cx1.nodes@,
        cx1.tm(),
        m[i],
        i as int,
    ) && pairs_at(cx1.nodes@, cx1.tm(), m[i], i as int) by {
        assert(pairs_at(cx0.nodes@, cx0.tm(), m[i], i as int));
        assert forall|x: u32, y: u32|
            #![trigger spoken::relates(cx1.nodes@, i as int, x as int, y as int)]
            spoken::relates(cx1.nodes@, i as int, x as int, y as int) implies says_of(
            cx1.nodes@,
            cx1.tm(),
            m[i],
            i as int,
            x,
            y,
        ) by {
            spoken::lemma_relates(cx1, i as int, x as int, y as int);
            spoken::lemma_related_grow(cx0, cx1, i as int, x as int, y as int);
            assert(says_of(cx0.nodes@, cx0.tm(), m[i], i as int, x, y));
        }
        assert(full_at(cx0.nodes@, cx0.tm(), m[i], i as int));
        assert forall|x: u32|
            #![trigger spoken::speaks(cx1.nodes@, i as int, x as int)]
            spoken::speaks(cx1.nodes@, i as int, x as int) && spoken::most_spans(
                cx1.nodes@,
                i as int,
            ) <= MAX_INTERVALS implies says(cx1.nodes@, cx1.tm(), m[i], i as int, x) by {
            spoken::lemma_speaks(cx1, i as int, x as int);
            spoken::lemma_spoken_grow(cx0, cx1, i as int, x as int);
            assert(says(cx0.nodes@, cx0.tm(), m[i], i as int, x));
            assert(cx1.tm()[x as int] == cx0.tm()[x as int]);
        }
    }
}

/// The nodes described.
pub open spec fn told(m: Map<u32, Info>) -> spec_fn(u32) -> bool {
    |i: u32| m.contains_key(i)
}

/// Descriptions stay right as the arena grows.
pub proof fn lemma_compares_grow(m: Map<u32, Info>, terms: Seq<Term>, more: Seq<Term>)
    requires
        compares_ok(m, terms),
        terms.len() <= more.len(),
        forall|i: int| 0 <= i < terms.len() ==> #[trigger] more[i] == terms[i],
    ensures
        compares_ok(m, more),
{
    reveal(compares_ok);
    assert forall|i: u32| #[trigger] m.contains_key(i) implies i < more.len() && info_ok(
        more,
        m[i],
        i,
    ) by {
        assert(more[i as int] == terms[i as int]);
        let f = m[i];
        assert(info_ok(terms, f, i));
        match f {
            Info::Pair(x, y, _) => {
                assert(more[x as int] == terms[x as int]);
                assert(more[y as int] == terms[y as int]);
            },
            Info::Values(x, _) => {
                assert(more[x as int] == terms[x as int]);
            },
            _ => {},
        }
        if f !is Opaque {
            assert forall|env: Env| #![trigger term::value(more[i as int], env)] term::value(
                more[i as int],
                env,
            )[0] == info_true(more, f, env) by {
                let _ = term::value(terms[i as int], env);
            }
        }
    }
}

/// The terms a node is a function of, each a function of the next.
struct Chain {
    nodes: Vec<u32>,
    maps: Vec<Shape>,
}

spec fn chain_ok(cx: &Context, c: Chain, e: u32) -> bool {
    &&& c.nodes@.len() == c.maps@.len() + 1
    &&& c.nodes@[0] == e
    &&& runner::listed(c.nodes@, cx.n())
    &&& forall|i: int|
        #![trigger c.maps@[i]]
        0 <= i < c.maps@.len() ==> shapes::peels(cx, c.nodes@[i], c.nodes@[i + 1], c.maps@[i])
}

/// `e` and the terms it is a function of.
fn chain(cx: &Context, e: u32) -> (r: Chain)
    requires
        cx.wf(),
        e < cx.n(),
    ensures
        chain_ok(cx, r, e),
{
    let mut nodes: Vec<u32> = Vec::new();
    nodes.push(e);
    let mut c = Chain { nodes, maps: Vec::new() };
    while c.maps.len() < MAX_PEEL
        invariant
            cx.wf(),
            chain_ok(cx, c, e),
            c.maps@.len() <= MAX_PEEL,
        decreases MAX_PEEL - c.maps@.len(),
    {
        let cur = c.nodes[c.maps.len()];
        match peel(cx, cur) {
            Some((t, m)) => {
                let ghost c0 = c;
                let ghost mm = m;
                c.nodes.push(t);
                c.maps.push(m);
                proof {
                    assert forall|i: int| #![trigger c.maps@[i]] 0 <= i < c.maps@.len() implies shapes::peels(
                        cx,
                        c.nodes@[i],
                        c.nodes@[i + 1],
                        c.maps@[i],
                    ) by {
                        if i < c0.maps@.len() {
                            let _ = c0.maps@[i];
                        }
                    }
                }
            },
            None => {
                return c;
            },
        }
    }
    c
}

/// The set, of values of the first term of the chain, as a set of values of term `k`.
fn pull(cx: &Context, c: &Chain, k: usize, s: &Vec<Span>) -> (r: Option<Vec<Span>>)
    requires
        cx.wf(),
        c.nodes@.len() > 0,
        chain_ok(cx, *c, c.nodes@[0]),
        k < c.nodes@.len(),
        intervals::spans_ok(s@, cx.w(c.nodes@[0] as int)),
    ensures
        r matches Some(out) ==> intervals::spans_ok(out@, cx.w(c.nodes@[k as int] as int))
            && forall|env: Env|
            #![trigger cx.val(c.nodes@[k as int] as int, env)]
            #![trigger cx.val(c.nodes@[0] as int, env)]
            intervals::within(out@, bits::nat_of(cx.val(c.nodes@[k as int] as int, env)) as int)
                <==> intervals::within(s@, bits::nat_of(cx.val(c.nodes@[0] as int, env)) as int),
{
    let mut t = dup_spans(s);
    proof {
        intervals::lemma_alike(t@, s@, cx.w(c.nodes@[0] as int));
    }
    let mut i: usize = 0;
    while i < k
        invariant
            cx.wf(),
            chain_ok(cx, *c, c.nodes@[0]),
            i <= k < c.nodes@.len(),
            intervals::spans_ok(t@, cx.w(c.nodes@[i as int] as int)),
            forall|env: Env|
                #![trigger cx.val(c.nodes@[i as int] as int, env)]
                #![trigger cx.val(c.nodes@[0] as int, env)]
                intervals::within(t@, bits::nat_of(cx.val(c.nodes@[i as int] as int, env)) as int)
                    <==> intervals::within(
                    s@,
                    bits::nat_of(cx.val(c.nodes@[0] as int, env)) as int,
                ),
        decreases k - i,
    {
        let ghost t0 = t@;
        let ghost a = c.nodes@[i as int];
        let ghost b = c.nodes@[i + 1];
        let ghost sh = c.maps@[i as int];
        proof {
            assert(shapes::peels(cx, a, b, sh));
            assert(cx.ok_at(b as int));
        }
        let w = cx.wid(c.nodes[i]) as usize;
        let tw = cx.wid(c.nodes[i + 1]) as usize;
        match preimage(&c.maps[i], &t, w, tw) {
            Some(p) => {
                t = p;
            },
            None => {
                return None;
            },
        }
        proof {
            assert forall|env: Env|
                #![trigger cx.val(b as int, env)]
                #![trigger cx.val(c.nodes@[0] as int, env)]
                intervals::within(t@, bits::nat_of(cx.val(b as int, env)) as int)
                    <==> intervals::within(
                    s@,
                    bits::nat_of(cx.val(c.nodes@[0] as int, env)) as int,
                ) by {
                let x = bits::nat_of(cx.val(b as int, env)) as int;
                bits::lemma_nat_bound(cx.val(b as int, env));
                assert(bits::nat_of(cx.val(a as int, env)) == shapes::image(
                    sh,
                    x,
                    w as nat,
                    tw as nat,
                ));
                let _ = cx.val(a as int, env);
            }
        }
        i = i + 1;
    }
    Some(t)
}

/// A set of values of `x` and one of `y` as sets of values of the nearest term both are
/// functions of.
fn common(cx: &Context, x: u32, s: &Vec<Span>, y: u32, t: &Vec<Span>) -> (r: Option<
    (u32, Vec<Span>, Vec<Span>),
>)
    requires
        cx.wf(),
        x < cx.n(),
        y < cx.n(),
        intervals::spans_ok(s@, cx.w(x as int)),
        intervals::spans_ok(t@, cx.w(y as int)),
    ensures
        r matches Some((z, p, q)) ==> z < cx.n() && intervals::spans_ok(p@, cx.w(z as int))
            && intervals::spans_ok(q@, cx.w(z as int)) && forall|env: Env|
            #![trigger cx.val(z as int, env)]
            (intervals::within(p@, bits::nat_of(cx.val(z as int, env)) as int)
                <==> intervals::within(s@, bits::nat_of(cx.val(x as int, env)) as int)) && (
            intervals::within(q@, bits::nat_of(cx.val(z as int, env)) as int)
                <==> intervals::within(t@, bits::nat_of(cx.val(y as int, env)) as int)),
        x == y ==> (r matches Some((z, p, q)) && z == x && p@.len() == s@.len() && q@.len()
            == t@.len() && forall|k: int|
            #![trigger intervals::within(p@, k)]
            #![trigger intervals::within(q@, k)]
            intervals::within(p@, k) == intervals::within(s@, k) && intervals::within(q@, k)
                == intervals::within(t@, k)),
{
    if x == y {
        let p = dup_spans(s);
        let q = dup_spans(t);
        proof {
            intervals::lemma_alike(p@, s@, cx.w(x as int));
            intervals::lemma_alike(q@, t@, cx.w(x as int));
        }
        return Some((x, p, q));
    }
    let xs = chain(cx, x);
    let ys = chain(cx, y);
    let mut i: usize = 0;
    while i < xs.nodes.len()
        invariant
            cx.wf(),
            x != y,
            chain_ok(cx, xs, x),
            chain_ok(cx, ys, y),
            intervals::spans_ok(s@, cx.w(x as int)),
            intervals::spans_ok(t@, cx.w(y as int)),
        decreases xs.nodes@.len() - i,
    {
        let mut j: usize = 0;
        while j < ys.nodes.len()
            invariant
                cx.wf(),
                x != y,
                i < xs.nodes@.len(),
                chain_ok(cx, xs, x),
                chain_ok(cx, ys, y),
                intervals::spans_ok(s@, cx.w(x as int)),
                intervals::spans_ok(t@, cx.w(y as int)),
            decreases ys.nodes@.len() - j,
        {
            if xs.nodes[i] == ys.nodes[j] {
                let p = match pull(cx, &xs, i, s) {
                    Some(p) => p,
                    None => {
                        return None;
                    },
                };
                let q = match pull(cx, &ys, j, t) {
                    Some(q) => q,
                    None => {
                        return None;
                    },
                };
                return Some((xs.nodes[i], p, q));
            }
            j = j + 1;
        }
        i = i + 1;
    }
    None
}

/// What a 1-bit node that is no combination says.
fn leaf(cx: &Context, i: u32) -> (r: Info)
    requires
        cx.wf(),
        i < cx.n(),
    ensures
        info_ok(cx.tm(), r, i),
        !is_boolean(cx.nodes@[i as int]) ==> full_at(cx.nodes@, cx.tm(), r, i as int) && pairs_at(
            cx.nodes@,
            cx.tm(),
            r,
            i as int,
        ),
{
    proof {
        if !is_boolean(cx.nodes@[i as int]) && !(cx.nodes@[i as int] is Cmp) {
            assert forall|x: u32| !#[trigger] spoken::speaks(cx.nodes@, i as int, x as int) by {}
            assert forall|x: u32, y: u32|
                !#[trigger] spoken::relates(cx.nodes@, i as int, x as int, y as int) by {}
        }
    }
    if let Some(v) = cx.const_val(i) {
        if cx.wid(i) != 1 {
            return Info::Opaque;
        }
        let b = !v.is_zero();
        proof {
            assert forall|env: Env| #![trigger term::value(cx.tm()[i as int], env)] term::value(
                cx.tm()[i as int],
                env,
            )[0] == b by {
                assert(cx.val(i as int, env) == v@);
                if !v@[0] {
                    assert(v@ =~= bits::zeros(1));
                } else {
                    assert(!bits::zeros(1)[0]);
                }
            }
        }
        return Info::Const(b);
    }
    match cx.node(i) {
        Node::Cmp(op, a, b) => {
            proof {
                assert(cx.ok_at(a as int));
                assert(cx.ok_at(b as int));
                assert forall|env: Env| #![trigger term::value(cx.tm()[i as int], env)] term::value(
                    cx.tm()[i as int],
                    env,
                )[0] == ops::holds(op, cx.val(a as int, env), cx.val(b as int, env)) by {}
            }
            match (cx.const_val(a), cx.const_val(b)) {
                (Some(_), Some(_)) => Info::Opaque,
                (None, Some(c)) => {
                    let s = interval_of(op, &c, true);
                    proof {
                        assert forall|env: Env|
                            #![trigger term::value(cx.tm()[i as int], env)]
                            term::value(cx.tm()[i as int], env)[0] == intervals::within(
                                s@,
                                bits::nat_of(cx.val(a as int, env)) as int,
                            ) by {
                            assert(cx.val(b as int, env) == c@);
                            assert(shapes::compared(op, cx.val(a as int, env), c@, true)
                                <==> intervals::within(
                                s@,
                                bits::nat_of(cx.val(a as int, env)) as int,
                            ));
                        }
                    }
                    Info::Values(a, s)
                },
                (Some(c), None) => {
                    let s = interval_of(op, &c, false);
                    proof {
                        assert forall|env: Env|
                            #![trigger term::value(cx.tm()[i as int], env)]
                            term::value(cx.tm()[i as int], env)[0] == intervals::within(
                                s@,
                                bits::nat_of(cx.val(b as int, env)) as int,
                            ) by {
                            assert(cx.val(a as int, env) == c@);
                            assert(shapes::compared(op, cx.val(b as int, env), c@, false)
                                <==> intervals::within(
                                s@,
                                bits::nat_of(cx.val(b as int, env)) as int,
                            ));
                        }
                    }
                    Info::Values(b, s)
                },
                (None, None) => {
                    let s = pred_set(op);
                    if a == b {
                        Info::Opaque
                    } else if a < b {
                        proof {
                            assert forall|env: Env|
                                #![trigger term::value(cx.tm()[i as int], env)]
                                term::value(cx.tm()[i as int], env)[0] == in_rels(
                                    s,
                                    cx.val(a as int, env),
                                    cx.val(b as int, env),
                                ) by {}
                        }
                        Info::Pair(a, b, s)
                    } else {
                        let t = swap_set(s);
                        proof {
                            assert forall|env: Env|
                                #![trigger term::value(cx.tm()[i as int], env)]
                                term::value(cx.tm()[i as int], env)[0] == in_rels(
                                    t,
                                    cx.val(b as int, env),
                                    cx.val(a as int, env),
                                ) by {
                                assert(in_rels(
                                    s,
                                    cx.val(a as int, env),
                                    cx.val(b as int, env),
                                ) == in_rels(t, cx.val(b as int, env), cx.val(a as int, env)));
                            }
                        }
                        Info::Pair(b, a, t)
                    }
                },
            }
        },
        _ => Info::Opaque,
    }
}

/// The description of the complement.
fn negated(cx: &Context, a: &Info) -> (r: Info)
    requires
        cx.wf(),
        info_fits(cx.tm(), *a),
    ensures
        info_fits(cx.tm(), r),
        r is Opaque <==> a is Opaque,
        r !is Opaque ==> forall|env: Env|
            #![trigger info_true(cx.tm(), r, env)]
            #![trigger info_true(cx.tm(), *a, env)]
            info_true(cx.tm(), r, env) == !info_true(cx.tm(), *a, env),
        *a matches Info::Values(x, s) ==> (r matches Info::Values(y, t) && y == x && t@.len()
            <= s@.len() + 1 && forall|k: int|
            0 <= k < pow2(term::twidth(cx.tm()[x as int])) ==> (#[trigger] intervals::within(t@, k)
                == !intervals::within(s@, k))),
        *a matches Info::Pair(x, y, s) ==> (r matches Info::Pair(p, q, t) && p == x && q == y
            && forall|v: Seq<bool>, u: Seq<bool>| #[trigger] in_rels(t, v, u) == !in_rels(s, v, u)),
{
    match a {
        Info::Const(c) => Info::Const(!*c),
        Info::Pair(x, y, s) => Info::Pair(
            *x,
            *y,
            Rels { eq: !s.eq, ll: !s.ll, lg: !s.lg, gl: !s.gl, gg: !s.gg },
        ),
        Info::Values(x, s) => {
            let w = cx.wid(*x) as usize;
            let t = complement(s, w);
            let r = Info::Values(*x, t);
            proof {
                runs::lemma_complement_count(s@, t@, w as nat);
                assert forall|env: Env|
                    #![trigger info_true(cx.tm(), r, env)]
                    #![trigger info_true(cx.tm(), *a, env)]
                    info_true(cx.tm(), r, env) == !info_true(cx.tm(), *a, env) by {
                    bits::lemma_nat_bound(cx.val(*x as int, env));
                    let v = bits::nat_of(cx.val(*x as int, env)) as int;
                    assert(intervals::within(t@, v) <==> !intervals::within(s@, v));
                }
            }
            r
        },
        Info::Opaque => Info::Opaque,
    }
}

/// A constant as the neutral description of the other side's fragment.
fn lift(cx: &Context, c: bool, other: &Info) -> (r: Info)
    requires
        cx.wf(),
        info_fits(cx.tm(), *other),
    ensures
        info_fits(cx.tm(), r),
        r !is Opaque,
        forall|env: Env| #[trigger] info_true(cx.tm(), r, env) == c,
{
    match other {
        Info::Pair(x, y, _) => Info::Pair(*x, *y, Rels { eq: c, ll: c, lg: c, gl: c, gg: c }),
        Info::Values(x, _) => {
            let w = cx.wid(*x) as usize;
            let s = if c {
                full(w)
            } else {
                Vec::new()
            };
            let r = Info::Values(*x, s);
            proof {
                assert forall|env: Env| #[trigger] info_true(cx.tm(), r, env) == c by {
                    bits::lemma_nat_bound(cx.val(*x as int, env));
                    let v = bits::nat_of(cx.val(*x as int, env)) as int;
                    if c {
                        assert(intervals::within(s@, v));
                    }
                }
            }
            r
        },
        _ => Info::Const(c),
    }
}

/// The description says what the connective makes of the two.
spec fn combines(tm: Seq<Term>, op: Conn, a: Info, b: Info, r: Info) -> bool {
    &&& info_fits(tm, r)
    &&& r !is Opaque ==> a !is Opaque && b !is Opaque && forall|env: Env|
        #![trigger info_true(tm, r, env)]
        info_true(tm, r, env) == joined(op, info_true(tm, a, env), info_true(tm, b, env))
}

/// Two sets of values of one node are combined value by value, if that takes few spans.
spec fn joins(tm: Seq<Term>, op: Conn, a: Info, b: Info, r: Info) -> bool {
    a matches Info::Values(x, s) ==> b matches Info::Values(y, t) ==> x == y && most_joined(
        op,
        s@.len(),
        t@.len(),
    ) <= MAX_INTERVALS ==> (r matches Info::Values(z, u) && z == x && u@.len() <= most_joined(
        op,
        s@.len(),
        t@.len(),
    ) && forall|k: int|
        0 <= k < pow2(term::twidth(tm[x as int])) ==> (#[trigger] intervals::within(u@, k) == joined(
            op,
            intervals::within(s@, k),
            intervals::within(t@, k),
        )))
}

/// Two sets of relations of the same nodes are combined relation by relation.
spec fn pairs_up(op: Conn, a: Info, b: Info, r: Info) -> bool {
    a matches Info::Pair(x, y, s) ==> b matches Info::Pair(p, q, t) ==> x == p && y == q ==> (
    r matches Info::Pair(f, g, z) && f == x && g == y && forall|v: Seq<bool>, u: Seq<bool>|
        #[trigger] in_rels(z, v, u) == joined(op, in_rels(s, v, u), in_rels(t, v, u)))
}

/// How many spans a combination has at most.
spec fn most_joined(op: Conn, a: nat, b: nat) -> nat {
    match op {
        Conn::Xor => 2 * (a + b),
        _ => a + b,
    }
}

/// Combines descriptions of one fragment.
fn merge(cx: &Context, op: Conn, a: &Info, b: &Info) -> (r: Info)
    requires
        cx.wf(),
        info_fits(cx.tm(), *a),
        info_fits(cx.tm(), *b),
    ensures
        combines(cx.tm(), op, *a, *b, r),
        joins(cx.tm(), op, *a, *b, r),
        pairs_up(op, *a, *b, r),
{
    match (a, b) {
        (Info::Const(p), Info::Const(q)) => Info::Const(join(op, *p, *q)),
        (Info::Pair(x, y, s), Info::Pair(x2, y2, t)) => {
            if *x == *x2 && *y == *y2 {
                Info::Pair(
                    *x,
                    *y,
                    Rels {
                        eq: join(op, s.eq, t.eq),
                        ll: join(op, s.ll, t.ll),
                        lg: join(op, s.lg, t.lg),
                        gl: join(op, s.gl, t.gl),
                        gg: join(op, s.gg, t.gg),
                    },
                )
            } else {
                Info::Opaque
            }
        },
        (Info::Values(x, s), Info::Values(x2, t)) => {
            match common(cx, *x, s, *x2, t) {
                Some((base, p, q)) => {
                    let w = cx.wid(base) as usize;
                    let u = match op {
                        Conn::And => intersect(&p, &q, Ghost(w as nat)),
                        Conn::Or => union(&p, &q, w),
                        Conn::Xor => sym_diff(&p, &q, w),
                    };
                    proof {
                        match op {
                            Conn::And => runs::lemma_intersect_count(p@, q@, u@, w as nat),
                            Conn::Or => runs::lemma_union_count(p@, q@, u@, w as nat),
                            Conn::Xor => runs::lemma_differ_count(p@, q@, u@, w as nat),
                        }
                    }
                    if u.len() > MAX_INTERVALS {
                        return Info::Opaque;
                    }
                    let r = Info::Values(base, u);
                    proof {
                        assert(cx.ok_at(base as int));
                        assert forall|env: Env|
                            #![trigger info_true(cx.tm(), r, env)]
                            info_true(cx.tm(), r, env) == joined(
                                op,
                                info_true(cx.tm(), *a, env),
                                info_true(cx.tm(), *b, env),
                            ) by {
                            let v = cx.val(base as int, env);
                            bits::lemma_nat_bound(v);
                            let n = bits::nat_of(v) as int;
                            assert(intervals::within(u@, n) == joined(
                                op,
                                intervals::within(p@, n),
                                intervals::within(q@, n),
                            ));
                        }
                    }
                    r
                },
                None => Info::Opaque,
            }
        },
        _ => Info::Opaque,
    }
}

/// Combines operand descriptions under a connective.
fn combine(cx: &Context, op: Conn, a: &Info, b: &Info) -> (r: Info)
    requires
        cx.wf(),
        info_fits(cx.tm(), *a),
        info_fits(cx.tm(), *b),
    ensures
        combines(cx.tm(), op, *a, *b, r),
        joins(cx.tm(), op, *a, *b, r),
        pairs_up(op, *a, *b, r),
{
    // A constant becomes the neutral description of the other side's fragment.
    if let Info::Const(c) = a {
        let l = lift(cx, *c, b);
        let r = merge(cx, op, &l, b);
        proof {
            assert forall|env: Env|
                #![trigger info_true(cx.tm(), r, env)]
                r !is Opaque implies info_true(cx.tm(), r, env) == joined(
                    op,
                    info_true(cx.tm(), *a, env),
                    info_true(cx.tm(), *b, env),
                ) by {
                let _ = info_true(cx.tm(), l, env);
            }
        }
        return r;
    }
    if let Info::Const(c) = b {
        let l = lift(cx, *c, a);
        let r = merge(cx, op, a, &l);
        proof {
            assert forall|env: Env|
                #![trigger info_true(cx.tm(), r, env)]
                r !is Opaque implies info_true(cx.tm(), r, env) == joined(
                    op,
                    info_true(cx.tm(), *a, env),
                    info_true(cx.tm(), *b, env),
                ) by {
                let _ = info_true(cx.tm(), l, env);
            }
        }
        return r;
    }
    merge(cx, op, a, b)
}

/// Whether a 1-bit node combines 1-bit nodes.
pub open spec fn is_boolean(node: Node) -> bool {
    node matches Node::Un(UnOp::Not, _) || (node matches Node::Bin(op, _, _) && (op == BinOp::And
        || op == BinOp::Or || op == BinOp::Xor))
}

/// Whether a 1-bit node combines 1-bit nodes.
fn boolean_op(node: &Node) -> (r: bool)
    ensures
        r == is_boolean(*node),
{
    match node {
        Node::Un(op, _) => *op == UnOp::Not,
        Node::Bin(op, _, _) => *op == BinOp::And || *op == BinOp::Or || *op == BinOp::Xor,
        _ => false,
    }
}

/// A copy of a description.
fn dup_info(f: &Info, tm: Ghost<Seq<Term>>) -> (r: Info)
    requires
        info_fits(tm@, *f),
    ensures
        info_fits(tm@, r),
        r is Opaque <==> f is Opaque,
        forall|env: Env| #[trigger] info_true(tm@, r, env) == info_true(tm@, *f, env),
        *f matches Info::Values(x, s) ==> (r matches Info::Values(y, t) && y == x && t@.len()
            == s@.len() && forall|k: int| #[trigger]
            intervals::within(t@, k) == intervals::within(s@, k)),
        *f matches Info::Pair(x, y, s) ==> r == Info::Pair(x, y, s),
{
    match f {
        Info::Const(v) => Info::Const(*v),
        Info::Pair(x, y, s) => Info::Pair(*x, *y, *s),
        Info::Values(x, s) => {
            let t = dup_spans(s);
            proof {
                intervals::lemma_alike(t@, s@, term::twidth(tm@[*x as int]));
            }
            Info::Values(*x, t)
        },
        Info::Opaque => Info::Opaque,
    }
}

impl<'a> Runner<'a> {
    /// The description of `root`, computing (iteratively) and keeping those below it.
    fn compare_info(&mut self, cx: &Context, root: u32) -> (out: Result<Info, Stop>)
        requires
            old(self).wf(cx),
            root < cx.n(),
        ensures
            runner::went(final(self), cx, old(self), cx),
            out matches Err(e) ==> final(self).refuses(cx, e),
            out matches Ok(f) ==> info_ok(cx.tm(), f, root) && full_at(
                cx.nodes@,
                cx.tm(),
                f,
                root as int,
            ) && pairs_at(cx.nodes@, cx.tm(), f, root as int),
    {
        let mut stack: Vec<(u32, bool)> = vec![(root, false)];
        while stack.len() > 0
            invariant
                runner::went(self, cx, old(self), cx),
                root < cx.n(),
                dfs::staying(stack@, cx.n()),
                dfs::waiting(stack@, told(self.compares@), cx.nodes@),
                self.compares@.contains_key(root) || (stack@.len() > 0 && stack@[0].0 == root),
            decreases dfs::freight(stack@),
        {
            let ghost stack0 = stack@;
            let ghost done0 = told(self.compares@);
            let top = match stack.pop() {
                Some(t) => t,
                None => {
                    return Ok(leaf(cx, root));
                },
            };
            let (i, expanded) = top;
            assert(stack0.last() == top);
            assert(stack@ =~= stack0.drop_last());
            proof {
                dfs::lemma_freight_push(stack@, top);
                assert(stack0 =~= stack@.push(top));
                dfs::lemma_heft_pos(i as nat);
            }
            if self.compares.contains_key(&i) {
                proof {
                    dfs::lemma_wait_done(stack0, done0, done0, cx.nodes@);
                }
                continue;
            }
            let node = cx.node(i);
            let f = if cx.wid(i) != 1 || !boolean_op(&node) {
                proof {
                    if cx.w(i as int) != 1 {
                        lemma_full_narrow(cx, i);
                    }
                }
                leaf(cx, i)
            } else if !expanded {
                let kept = &self.compares;
                let is_done = |c: u32| -> (b: bool)
                    ensures
                        b == kept@.contains_key(c),
                {
                    kept.contains_key(&c)
                };
                expand(cx, &mut stack, i, is_done, Ghost(stack0), Ghost(done0));
                continue;
            } else {
                self.charge(Counter::PassWork, 1)?;
                proof {
                    dfs::lemma_wait_top(stack0, done0, cx.nodes@);
                    assert forall|j: int| 0 <= j < expr::kids(cx.nodes@[i as int]).len() implies
                    self.compares@.contains_key(#[trigger] expr::kids(cx.nodes@[i as int])[j]) by {
                        assert(done0(expr::kids(cx.nodes@[i as int])[j]));
                    }
                }
                self.compare_at(cx, i)
            };
            proof {
                reveal(compares_ok);
                reveal(compares_full);
            }
            self.compares.insert(i, f);
            proof {
                dfs::lemma_wait_done(stack0, done0, told(self.compares@), cx.nodes@);
            }
        }
        proof {
            reveal(compares_ok);
            reveal(compares_full);
        }
        match self.compares.get(&root) {
            Some(f) => {
                let r = dup_info(f, Ghost(cx.tm()));
                proof {
                    assert(full_at(cx.nodes@, cx.tm(), *f, root as int));
                    assert(pairs_at(cx.nodes@, cx.tm(), *f, root as int));
                    assert forall|x: u32, y: u32|
                        #![trigger spoken::relates(cx.nodes@, root as int, x as int, y as int)]
                        spoken::relates(cx.nodes@, root as int, x as int, y as int) implies says_of(
                        cx.nodes@,
                        cx.tm(),
                        r,
                        root as int,
                        x,
                        y,
                    ) by {
                        assert(says_of(cx.nodes@, cx.tm(), *f, root as int, x, y));
                    }
                    assert forall|x: u32|
                        #![trigger spoken::speaks(cx.nodes@, root as int, x as int)]
                        spoken::speaks(cx.nodes@, root as int, x as int) && spoken::most_spans(
                            cx.nodes@,
                            root as int,
                        ) <= MAX_INTERVALS implies says(cx.nodes@, cx.tm(), r, root as int, x) by {
                        assert(says(cx.nodes@, cx.tm(), *f, root as int, x));
                    }
                    assert forall|env: Env|
                        #![trigger term::value(cx.tm()[root as int], env)]
                        r !is Opaque implies term::value(cx.tm()[root as int], env)[0] == info_true(
                            cx.tm(),
                            r,
                            env,
                        ) by {
                        let _ = info_true(cx.tm(), r, env);
                    }
                }
                Ok(r)
            },
            None => Ok(leaf(cx, root)),
        }
    }

    /// The description of a combination from those of its operands.
    fn compare_at(&self, cx: &Context, i: u32) -> (r: Info)
        requires
            self.wf(cx),
            i < cx.n(),
            cx.w(i as int) == 1,
            is_boolean(cx.nodes@[i as int]),
            forall|j: int|
                0 <= j < expr::kids(cx.nodes@[i as int]).len() ==> self.compares@.contains_key(
                    #[trigger] expr::kids(cx.nodes@[i as int])[j],
                ),
        ensures
            info_ok(cx.tm(), r, i),
            full_at(cx.nodes@, cx.tm(), r, i as int),
            pairs_at(cx.nodes@, cx.tm(), r, i as int),
    {
        let node = cx.node(i);
        proof {
            reveal(compares_ok);
            reveal(compares_full);
        }
        match node {
            Node::Un(op, a) => {
                assert(expr::kids(cx.nodes@[i as int])[0] == a);
                assert(cx.ok_at(a as int));
                match self.compares.get(&a) {
                    Some(f) => {
                        let r = negated(cx, f);
                        proof {
                            lemma_full_not(cx, i, a, *f, r);
                            lemma_pairs_not(cx, i, a, *f, r);
                            assert forall|env: Env|
                                #![trigger term::value(cx.tm()[i as int], env)]
                                r !is Opaque implies term::value(cx.tm()[i as int], env)[0]
                                == info_true(cx.tm(), r, env) by {
                                let _ = term::value(cx.tm()[a as int], env);
                                let _ = info_true(cx.tm(), r, env);
                            }
                        }
                        r
                    },
                    None => Info::Opaque,
                }
            },
            Node::Bin(op, a, b) => {
                assert(expr::kids(cx.nodes@[i as int])[0] == a);
                assert(expr::kids(cx.nodes@[i as int])[1] == b);
                assert(cx.ok_at(a as int));
                assert(cx.ok_at(b as int));
                let conn = match op {
                    BinOp::And => Conn::And,
                    BinOp::Or => Conn::Or,
                    _ => Conn::Xor,
                };
                match (self.compares.get(&a), self.compares.get(&b)) {
                    (Some(f), Some(g)) => {
                        let r = combine(cx, conn, f, g);
                        proof {
                            lemma_full_join(cx, i, a, b, op, *f, *g, r);
                            lemma_pairs_join(cx, i, a, b, op, *f, *g, r);
                            assert forall|env: Env|
                                #![trigger term::value(cx.tm()[i as int], env)]
                                r !is Opaque implies term::value(cx.tm()[i as int], env)[0]
                                == info_true(cx.tm(), r, env) by {
                                let x = term::value(cx.tm()[a as int], env);
                                let y = term::value(cx.tm()[b as int], env);
                                assert(x[0] == info_true(cx.tm(), *f, env));
                                assert(y[0] == info_true(cx.tm(), *g, env));
                                let _ = info_true(cx.tm(), r, env);
                            }
                        }
                        r
                    },
                    _ => Info::Opaque,
                }
            },
            _ => Info::Opaque,
        }
    }
}

/// What is not one bit wide, or combines nothing, is spoken of only as a comparison.
proof fn lemma_full_narrow(cx: &Context, i: u32)
    requires
        cx.wf(),
        i < cx.n(),
        cx.w(i as int) != 1,
    ensures
        forall|f: Info| #[trigger] full_at(cx.nodes@, cx.tm(), f, i as int),
        forall|f: Info| #[trigger] pairs_at(cx.nodes@, cx.tm(), f, i as int),
{
    assert forall|f: Info| #[trigger] pairs_at(cx.nodes@, cx.tm(), f, i as int) by {
        assert forall|x: u32, y: u32|
            !#[trigger] spoken::relates(cx.nodes@, i as int, x as int, y as int) by {
            if spoken::relates(cx.nodes@, i as int, x as int, y as int) {
                spoken::lemma_relates(cx, i as int, x as int, y as int);
            }
        }
    }
    assert forall|f: Info| #[trigger] full_at(cx.nodes@, cx.tm(), f, i as int) by {
        assert forall|x: u32| !#[trigger] spoken::speaks(cx.nodes@, i as int, x as int) by {
            if spoken::speaks(cx.nodes@, i as int, x as int) {
                spoken::lemma_speaks(cx, i as int, x as int);
            }
        }
    }
}

proof fn lemma_full_not(cx: &Context, i: u32, a: u32, f: Info, r: Info)
    requires
        cx.wf(),
        i < cx.n(),
        cx.nodes@[i as int] == Node::Un(UnOp::Not, a),
        a < i,
        full_at(cx.nodes@, cx.tm(), f, a as int),
        f matches Info::Values(x, s) ==> (r matches Info::Values(y, t) && y == x && t@.len()
            <= s@.len() + 1 && forall|k: int|
            0 <= k < pow2(term::twidth(cx.tm()[x as int])) ==> (#[trigger] intervals::within(t@, k)
                == !intervals::within(s@, k))),
    ensures
        full_at(cx.nodes@, cx.tm(), r, i as int),
{
    assert forall|x: u32|
        #![trigger spoken::speaks(cx.nodes@, i as int, x as int)]
        spoken::speaks(cx.nodes@, i as int, x as int) && spoken::most_spans(cx.nodes@, i as int)
            <= MAX_INTERVALS implies says(cx.nodes@, cx.tm(), r, i as int, x) by {
        assert(spoken::speaks(cx.nodes@, a as int, x as int));
        assert(says(cx.nodes@, cx.tm(), f, a as int, x));
        let s = f->Values_1;
        let t = r->Values_1;
        assert forall|v: Seq<bool>| v.len() == term::twidth(cx.tm()[x as int]) implies (
        #[trigger] intervals::within(t@, bits::nat_of(v) as int) == spoken::truth(
            cx.nodes@,
            cx.tm(),
            i as int,
            x as int,
            v,
        )) by {
            bits::lemma_nat_bound(v);
            assert(intervals::within(s@, bits::nat_of(v) as int) == spoken::truth(
                cx.nodes@,
                cx.tm(),
                a as int,
                x as int,
                v,
            ));
        }
    }
}

proof fn lemma_pairs_not(cx: &Context, i: u32, a: u32, f: Info, r: Info)
    requires
        cx.wf(),
        i < cx.n(),
        cx.nodes@[i as int] == Node::Un(UnOp::Not, a),
        a < i,
        pairs_at(cx.nodes@, cx.tm(), f, a as int),
        f matches Info::Pair(x, y, s) ==> (r matches Info::Pair(p, q, t) && p == x && q == y
            && forall|v: Seq<bool>, u: Seq<bool>| #[trigger] in_rels(t, v, u) == !in_rels(s, v, u)),
    ensures
        pairs_at(cx.nodes@, cx.tm(), r, i as int),
{
    assert forall|x: u32, y: u32|
        #![trigger spoken::relates(cx.nodes@, i as int, x as int, y as int)]
        spoken::relates(cx.nodes@, i as int, x as int, y as int) implies says_of(
        cx.nodes@,
        cx.tm(),
        r,
        i as int,
        x,
        y,
    ) by {
        assert(spoken::relates(cx.nodes@, a as int, x as int, y as int));
        assert(says_of(cx.nodes@, cx.tm(), f, a as int, x, y));
        let s = f->Pair_2;
        let t = r->Pair_2;
        assert forall|v: Seq<bool>, u: Seq<bool>| v.len() == u.len() implies (#[trigger] in_rels(
            t,
            v,
            u,
        ) == spoken::truth_of(cx.nodes@, i as int, x as int, v, u)) by {
            assert(in_rels(s, v, u) == spoken::truth_of(cx.nodes@, a as int, x as int, v, u));
        }
    }
}

proof fn lemma_pairs_join(cx: &Context, i: u32, a: u32, b: u32, op: BinOp, f: Info, g: Info, r: Info)
    requires
        cx.wf(),
        i < cx.n(),
        cx.nodes@[i as int] == Node::Bin(op, a, b),
        a < i,
        b < i,
        pairs_at(cx.nodes@, cx.tm(), f, a as int),
        pairs_at(cx.nodes@, cx.tm(), g, b as int),
        pairs_up(spoken::conn_of(op), f, g, r),
    ensures
        pairs_at(cx.nodes@, cx.tm(), r, i as int),
{
    assert forall|x: u32, y: u32|
        #![trigger spoken::relates(cx.nodes@, i as int, x as int, y as int)]
        spoken::relates(cx.nodes@, i as int, x as int, y as int) implies says_of(
        cx.nodes@,
        cx.tm(),
        r,
        i as int,
        x,
        y,
    ) by {
        assert(spoken::relates(cx.nodes@, a as int, x as int, y as int));
        assert(spoken::relates(cx.nodes@, b as int, x as int, y as int));
        assert(says_of(cx.nodes@, cx.tm(), f, a as int, x, y));
        assert(says_of(cx.nodes@, cx.tm(), g, b as int, x, y));
        let s = f->Pair_2;
        let t = g->Pair_2;
        let z = r->Pair_2;
        assert forall|v: Seq<bool>, u: Seq<bool>| v.len() == u.len() implies (#[trigger] in_rels(
            z,
            v,
            u,
        ) == spoken::truth_of(cx.nodes@, i as int, x as int, v, u)) by {
            assert(in_rels(s, v, u) == spoken::truth_of(cx.nodes@, a as int, x as int, v, u));
            assert(in_rels(t, v, u) == spoken::truth_of(cx.nodes@, b as int, x as int, v, u));
        }
    }
}

proof fn lemma_full_join(cx: &Context, i: u32, a: u32, b: u32, op: BinOp, f: Info, g: Info, r: Info)
    requires
        cx.wf(),
        i < cx.n(),
        cx.nodes@[i as int] == Node::Bin(op, a, b),
        a < i,
        b < i,
        full_at(cx.nodes@, cx.tm(), f, a as int),
        full_at(cx.nodes@, cx.tm(), g, b as int),
        joins(cx.tm(), spoken::conn_of(op), f, g, r),
    ensures
        full_at(cx.nodes@, cx.tm(), r, i as int),
{
    assert forall|x: u32|
        #![trigger spoken::speaks(cx.nodes@, i as int, x as int)]
        spoken::speaks(cx.nodes@, i as int, x as int) && spoken::most_spans(cx.nodes@, i as int)
            <= MAX_INTERVALS implies says(cx.nodes@, cx.tm(), r, i as int, x) by {
        assert(spoken::speaks(cx.nodes@, a as int, x as int));
        assert(spoken::speaks(cx.nodes@, b as int, x as int));
        assert(says(cx.nodes@, cx.tm(), f, a as int, x));
        assert(says(cx.nodes@, cx.tm(), g, b as int, x));
        let s = f->Values_1;
        let t = g->Values_1;
        let u = r->Values_1;
        assert forall|v: Seq<bool>| v.len() == term::twidth(cx.tm()[x as int]) implies (
        #[trigger] intervals::within(u@, bits::nat_of(v) as int) == spoken::truth(
            cx.nodes@,
            cx.tm(),
            i as int,
            x as int,
            v,
        )) by {
            bits::lemma_nat_bound(v);
            assert(intervals::within(s@, bits::nat_of(v) as int) == spoken::truth(
                cx.nodes@,
                cx.tm(),
                a as int,
                x as int,
                v,
            ));
            assert(intervals::within(t@, bits::nat_of(v) as int) == spoken::truth(
                cx.nodes@,
                cx.tm(),
                b as int,
                x as int,
                v,
            ));
        }
    }
}

/// Node `e` of one bit says what the description says, in an arena that has grown.
spec fn emits(cx: &Context, e: u32, tm: Seq<Term>, f: Info) -> bool {
    &&& e < cx.n()
    &&& cx.w(e as int) == 1
    &&& forall|env: Env| #[trigger] cx.val(e as int, env)[0] == info_true(tm, f, env)
}

impl<'a> Runner<'a> {
    /// A truth value.
    pub(crate) fn bool_const(&mut self, cx: &mut Context, v: bool) -> (out: Result<u32, Stop>)
        requires
            old(self).wf(old(cx)),
        ensures
            runner::went(final(self), final(cx), old(self), old(cx)),
            out matches Err(e) ==> final(self).refuses(final(cx), e),
            out matches Ok(e) ==> e < final(cx).n() && final(cx).w(e as int) == 1 && forall|env: Env|
             #[trigger]
                final(cx).val(e as int, env)[0] == v,
            out matches Ok(e) ==> final(cx).nodes@[e as int] is Const && final(cx).tm()[e as int] is Const,
    {
        let b = BitVec::from_bool(v);
        self.mk_const(cx, &b)
    }

    /// A comparison `x op c` or `c op x`.
    fn with_const(&mut self, cx: &mut Context, op: CmpOp, x: u32, c: &BitVec, first: bool) -> (out: Result<u32, Stop>)
        requires
            old(self).wf(old(cx)),
            x < old(cx).n(),
            old(cx).w(x as int) == c@.len(),
        ensures
            runner::went(final(self), final(cx), old(self), old(cx)),
            out matches Err(e) ==> final(self).refuses(final(cx), e),
            out matches Ok(e) ==> e < final(cx).n() && final(cx).w(e as int) == 1 && forall|env: Env|
             #[trigger]
                final(cx).val(e as int, env)[0] == shapes::compared(
                    op,
                    old(cx).val(x as int, env),
                    c@,
                    first,
                ),
            out matches Ok(e) ==> compares_or_const(final(cx), e),
    {
        let ghost cx0 = *cx;
        assert(cx0.ok_at(x as int));
        let k = self.mk_const(cx, c)?;
        let ghost cx1 = *cx;
        proof {
            assert(cx1.tm()[x as int] == cx0.tm()[x as int]);
        }
        let e = if first {
            self.c_rel(cx, op, x, k)?
        } else {
            self.c_rel(cx, op, k, x)?
        };
        proof {
            assert forall|env: Env| #[trigger] cx.val(e as int, env)[0] == shapes::compared(
                op,
                cx0.val(x as int, env),
                c@,
                first,
            ) by {
                assert(cx1.val(k as int, env) == c@);
            }
        }
        Ok(e)
    }

    /// A set of relations: false, true, or one predicate.
    fn emit_pair(&mut self, cx: &mut Context, x: u32, y: u32, s: Rels) -> (out: Result<Option<u32>, Stop>)
        requires
            old(self).wf(old(cx)),
            info_fits(old(cx).tm(), Info::Pair(x, y, s)),
        ensures
            runner::went(final(self), final(cx), old(self), old(cx)),
            out matches Err(e) ==> final(self).refuses(final(cx), e),
            out matches Ok(Some(e)) ==> emits(final(cx), e, old(cx).tm(), Info::Pair(x, y, s)),
            out matches Ok(Some(e)) ==> compares_or_const(final(cx), e),
            // No relation and every one are constants, and one comparison has a form.
            forall|b: bool| #[trigger] rels_all(s, old(cx).w(x as int), b) ==> (out matches Ok(o)
                ==> o matches Some(e) && final(cx).nodes@[e as int] is Const),
            forall|op: CmpOp, first: bool| #[trigger]
                rels_one(s, old(cx).w(x as int), op, first) ==> !(out matches Ok(None)),
    {
        let ghost cx0 = *cx;
        let w = cx.wid(x);
        let t = realizable(s, w);
        let none = Rels { eq: false, ll: false, lg: false, gl: false, gg: false };
        let full = Rels { eq: true, ll: true, lg: true, gl: true, gg: true };
        let all = realizable(full, w);
        proof {
            assert(cx0.ok_at(x as int));
            assert forall|b: bool| #[trigger] rels_all(s, w as nat, b) implies t == (if b {
                all
            } else {
                none
            }) by {
                if b {
                    lemma_same_rels(s, full, t, all, w as nat);
                } else {
                    lemma_same_rels(s, none, t, none, w as nat);
                }
            }
            assert forall|env: Env| #[trigger] info_true(cx0.tm(), Info::Pair(x, y, s), env)
                == in_rels(t, cx0.val(x as int, env), cx0.val(y as int, env)) by {
                assert(in_rels(t, cx0.val(x as int, env), cx0.val(y as int, env)) == in_rels(
                    s,
                    cx0.val(x as int, env),
                    cx0.val(y as int, env),
                ));
            }
        }
        if t == none {
            let e = self.bool_const(cx, false)?;
            proof {
                assert forall|env: Env| #[trigger] cx.val(e as int, env)[0] == info_true(
                    cx0.tm(),
                    Info::Pair(x, y, s),
                    env,
                ) by {}
            }
            return Ok(Some(e));
        }
        if t == all {
            let e = self.bool_const(cx, true)?;
            proof {
                assert forall|env: Env| #[trigger] cx.val(e as int, env)[0] == info_true(
                    cx0.tm(),
                    Info::Pair(x, y, s),
                    env,
                ) by {
                    let a = cx0.val(x as int, env);
                    let b = cx0.val(y as int, env);
                    assert(in_rels(all, a, b) == in_rels(
                        (Rels { eq: true, ll: true, lg: true, gl: true, gg: true }),
                        a,
                        b,
                    ));
                }
            }
            return Ok(Some(e));
        }
        assert forall|b: bool| !#[trigger] rels_all(s, w as nat, b) by {}
        let ops: [CmpOp; 6] = [CmpOp::Eq, CmpOp::Ne, CmpOp::Ult, CmpOp::Ule, CmpOp::Slt, CmpOp::Sle];
        let mut i: usize = 0;
        while i < 6
            invariant
                runner::went(self, cx, old(self), old(cx)),
                *cx == cx0,
                cx0 == *old(cx),
                self.wf(cx),
                info_fits(cx.tm(), Info::Pair(x, y, s)),
                w == cx0.w(x as int),
                w >= 1,
                forall|env: Env| #[trigger]
                    info_true(cx0.tm(), Info::Pair(x, y, s), env) == in_rels(
                        t,
                        cx0.val(x as int, env),
                        cx0.val(y as int, env),
                    ),
                ops@ == seq![
                    CmpOp::Eq,
                    CmpOp::Ne,
                    CmpOp::Ult,
                    CmpOp::Ule,
                    CmpOp::Slt,
                    CmpOp::Sle,
                ],
                w <= MAX_WIDTH,
                i <= 6,
                w == 1 ==> t == (Rels { ll: false, gg: false, ..s }),
                w != 1 ==> t == s,
                forall|b: bool| !#[trigger] rels_all(s, w as nat, b),
                forall|j: int, first: bool|
                    0 <= j < i ==> !#[trigger] rels_one(s, w as nat, ops@[j], first),
            decreases 6 - i,
        {
            let op = ops[i];
            let p = pred_set(op);
            let q = swap_set(p);
            let rp = realizable(p, w);
            let rq = realizable(q, w);
            if rp == t {
                let e = self.c_rel(cx, op, x, y)?;
                proof {
                    assert forall|env: Env| #[trigger] cx.val(e as int, env)[0] == info_true(
                        cx0.tm(),
                        Info::Pair(x, y, s),
                        env,
                    ) by {
                        let a = cx0.val(x as int, env);
                        let b = cx0.val(y as int, env);
                        assert(in_rels(rp, a, b) == in_rels(p, a, b));
                    }
                }
                return Ok(Some(e));
            }
            if rq == t {
                let e = self.c_rel(cx, op, y, x)?;
                proof {
                    assert forall|env: Env| #[trigger] cx.val(e as int, env)[0] == info_true(
                        cx0.tm(),
                        Info::Pair(x, y, s),
                        env,
                    ) by {
                        let a = cx0.val(x as int, env);
                        let b = cx0.val(y as int, env);
                        assert(in_rels(rq, a, b) == in_rels(q, a, b));
                        assert(in_rels(q, a, b) == in_rels(p, b, a));
                    }
                }
                return Ok(Some(e));
            }
            proof {
                assert forall|first: bool| !#[trigger] rels_one(s, w as nat, op, first) by {
                    if rels_one(s, w as nat, op, first) {
                        if first {
                            lemma_same_rels(s, p, t, rp, w as nat);
                        } else {
                            assert forall|v: Seq<bool>, u: Seq<bool>|
                                v.len() == w && u.len() == w implies (#[trigger] in_rels(q, v, u)
                                == in_rels(s, v, u)) by {
                                assert(in_rels(q, v, u) == in_rels(p, u, v));
                                assert(in_rels(p, u, v) == ops::holds(op, u, v));
                            }
                            lemma_same_rels(s, q, t, rq, w as nat);
                        }
                    }
                }
            }
            i = i + 1;
        }
        proof {
            assert forall|op: CmpOp, first: bool| !#[trigger] rels_one(s, w as nat, op, first) by {
                match op {
                    CmpOp::Eq => assert(!rels_one(s, w as nat, ops@[0], first)),
                    CmpOp::Ne => assert(!rels_one(s, w as nat, ops@[1], first)),
                    CmpOp::Ult => assert(!rels_one(s, w as nat, ops@[2], first)),
                    CmpOp::Ule => assert(!rels_one(s, w as nat, ops@[3], first)),
                    CmpOp::Slt => assert(!rels_one(s, w as nat, ops@[4], first)),
                    CmpOp::Sle => assert(!rels_one(s, w as nat, ops@[5], first)),
                }
            }
        }
        Ok(None)
    }
}

/// Whether no combination gives the low bits.
fn lacks(t: &Residues, low: &BitVec) -> (r: bool)
    ensures
        r <==> forall|j: int|
            #![trigger t.values@[j]]
            0 <= j < t.values@.len() ==> t.values@[j]@ != low@,
{
    let mut i: usize = 0;
    while i < t.values.len()
        invariant
            i <= t.values@.len(),
            forall|j: int| #![trigger t.values@[j]] 0 <= j < i ==> t.values@[j]@ != low@,
        decreases t.values@.len() - i,
    {
        if t.values[i].same(low) {
            return false;
        }
        i = i + 1;
    }
    true
}

/// The ends of one wrapped interval: one span, or two touching both ends.
fn wrapped(s: &Vec<Span>, w: usize) -> (r: Option<(BitVec, BitVec)>)
    requires
        0 < w <= MAX_WIDTH,
        intervals::spans_ok(s@, w as nat),
    ensures
        r matches Some((lo, hi)) ==> lo@.len() == w && hi@.len() == w && forall|x: int|
            0 <= x < pow2(w as nat) ==> (#[trigger] intervals::within(s@, x) <==> intervals::cyclic(
                bits::nat_of(lo@) as int,
                bits::nat_of(hi@) as int,
                x,
            )),
        // Without ends it is no such interval.
        r is None ==> !runs::one_run(s@, w as nat),
{
    if s.len() == 1 {
        let lo = s[0].lo.dup();
        let hi = s[0].hi.dup();
        proof {
            assert forall|x: int| 0 <= x < pow2(w as nat) implies (#[trigger] intervals::within(
                s@,
                x,
            ) <==> intervals::cyclic(bits::nat_of(lo@) as int, bits::nat_of(hi@) as int, x)) by {
                if intervals::cyclic(bits::nat_of(lo@) as int, bits::nat_of(hi@) as int, x) {
                    assert(intervals::low_end(s@[0]) <= x <= intervals::high_end(s@[0]));
                }
            }
        }
        return Some((lo, hi));
    }
    if s.len() == 2 && s[0].lo.is_zero() && s[1].hi.is_ones() {
        let lo = s[1].lo.dup();
        let hi = s[0].hi.dup();
        proof {
            bits::lemma_zeros_nat(w as nat);
            bits::lemma_ones_nat(w as nat);
            assert(intervals::high_end(s@[0]) < intervals::low_end(s@[1]));
            assert forall|x: int| 0 <= x < pow2(w as nat) implies (#[trigger] intervals::within(
                s@,
                x,
            ) <==> intervals::cyclic(bits::nat_of(lo@) as int, bits::nat_of(hi@) as int, x)) by {
                if x <= bits::nat_of(hi@) {
                    assert(intervals::low_end(s@[0]) <= x <= intervals::high_end(s@[0]));
                }
                if x >= bits::nat_of(lo@) {
                    assert(intervals::low_end(s@[1]) <= x <= intervals::high_end(s@[1]));
                }
            }
        }
        return Some((lo, hi));
    }
    proof {
        bits::lemma_zeros_nat(w as nat);
        bits::lemma_ones_nat(w as nat);
        if s@.len() == 2 {
            let _ = (s@[0], s@[1]);
            if intervals::low_end(s@[0]) == 0 {
                bits::lemma_nat_injective(s@[0].lo@, bits::zeros(w as nat));
            }
            if intervals::high_end(s@[1]) + 1 == pow2(w as nat) {
                bits::lemma_nat_injective(s@[1].hi@, bits::ones(w as nat));
            }
        }
        runs::lemma_not_one_run(s@, w as nat);
    }
    None
}

/// The comparison with a constant that a set of values, one wrapped interval, is.
fn simple(s: &Vec<Span>, lo: &BitVec, hi: &BitVec) -> (r: Option<(CmpOp, BitVec, bool)>)
    requires
        0 < lo@.len() <= MAX_WIDTH,
        hi@.len() == lo@.len(),
        intervals::spans_ok(s@, lo@.len()),
        forall|x: int|
            0 <= x < pow2(lo@.len()) ==> (#[trigger] intervals::within(s@, x) <==> intervals::cyclic(
                bits::nat_of(lo@) as int,
                bits::nat_of(hi@) as int,
                x,
            )),
    ensures
        r matches Some((op, c, first)) ==> c@.len() == lo@.len() && forall|v: Seq<bool>|
            v.len() == lo@.len() ==> (#[trigger] intervals::within(s@, bits::nat_of(v) as int)
                <==> shapes::compared(op, v, c@, first)),
{
    let w = lo.len();
    let comp = complement(s, w);
    let zero = BitVec::fill(w, false);
    let max = BitVec::fill(w, true);
    let smin = BitVec::fill(1, true).concat(&BitVec::fill(w - 1, false));
    let smax = smin.not();
    let r: Option<(CmpOp, BitVec, bool)> = if lo.same(hi) {
        Some((CmpOp::Eq, lo.dup(), true))
    } else if comp.len() == 1 && comp[0].lo.same(&comp[0].hi) {
        Some((CmpOp::Ne, comp[0].lo.dup(), true))
    } else if lo.same(&zero) {
        Some((CmpOp::Ule, hi.dup(), true))
    } else if hi.same(&max) {
        Some((CmpOp::Ule, lo.dup(), false))
    } else if lo.same(&smin) {
        Some((CmpOp::Sle, hi.dup(), true))
    } else if hi.same(&smax) {
        Some((CmpOp::Sle, lo.dup(), false))
    } else {
        None
    };
    proof {
        assert(zero@ =~= bits::zeros(w as nat));
        assert(max@ =~= bits::ones(w as nat));
        bits::lemma_zeros_nat(w as nat);
        bits::lemma_ones_nat(w as nat);
        shapes::lemma_smin(smin@);
        shapes::lemma_smin_not(smin@, smax@);
        ops::lemma_sign(lo@);
        ops::lemma_sign(hi@);
        bits::lemma_nat_bound(lo@);
        bits::lemma_nat_bound(hi@);
        if r is Some {
            let op = r->Some_0.0;
            let c = r->Some_0.1;
            let first = r->Some_0.2;
            assert forall|v: Seq<bool>| v.len() == lo@.len() implies (#[trigger] intervals::within(
                s@,
                bits::nat_of(v) as int,
            ) <==> shapes::compared(op, v, c@, first)) by {
                ops::lemma_sign(v);
                bits::lemma_nat_bound(v);
                lemma_differ(v, c@);
                if op == CmpOp::Ne {
                    let x = bits::nat_of(v) as int;
                    assert(intervals::within(comp@, x) <==> !intervals::within(s@, x));
                    assert(intervals::within(comp@, x) <==> x == bits::nat_of(c@)) by {
                        if x == bits::nat_of(c@) {
                            assert(intervals::low_end(comp@[0]) <= x <= intervals::high_end(
                                comp@[0],
                            ));
                        }
                    }
                }
            }
        }
    }
    r
}

/// A combination of few comparisons of one node with constants has a form: a constant where it
/// always or never holds, and one where it holds at one run of values.
spec fn formed(cx: &Context, cx0: &Context, n: u32, e: Option<u32>) -> bool {
    forall|x: u32|
        #![trigger spoken::speaks(cx0.nodes@, n as int, x as int)]
        spoken::speaks(cx0.nodes@, n as int, x as int) && spoken::most_spans(cx0.nodes@, n as int)
            <= MAX_INTERVALS ==> {
            &&& spoken::always(cx0.nodes@, cx0.tm(), n as int, x as int) || spoken::never(
                cx0.nodes@,
                cx0.tm(),
                n as int,
                x as int,
            ) ==> (e matches Some(e) && cx.nodes@[e as int] is Const)
            &&& forall|lo: int, hi: int|
                0 <= lo < pow2(cx0.w(x as int)) && 0 <= hi < pow2(cx0.w(x as int))
                    && #[trigger] spoken::in_range(
                    cx0.nodes@,
                    cx0.tm(),
                    n as int,
                    x as int,
                    lo,
                    hi,
                ) ==> (e matches Some(e) && compares_or_const(cx, e))
        }
}

/// A comparison, or a constant.
spec fn compares_or_const(cx: &Context, e: u32) -> bool {
    cx.tm()[e as int] is Cmp || cx.tm()[e as int] is Const
}

/// A combination of comparisons of two nodes has a form: a constant where it always or never holds,
/// and one where it is one comparison.
spec fn paired(cx: &Context, cx0: &Context, n: u32, e: Option<u32>) -> bool {
    forall|x: u32, y: u32|
        #![trigger spoken::relates(cx0.nodes@, n as int, x as int, y as int)]
        spoken::relates(cx0.nodes@, n as int, x as int, y as int) ==> {
            &&& forall|b: bool| #[trigger]
                spoken::same_for_all(cx0.nodes@, n as int, x as int, cx0.w(x as int), b) ==> (
                e matches Some(e) && cx.nodes@[e as int] is Const)
            &&& forall|op: CmpOp, first: bool| #[trigger]
                spoken::one_comparison(cx0.nodes@, n as int, x as int, cx0.w(x as int), op, first)
                    ==> (e matches Some(e) && compares_or_const(cx, e))
        }
}

/// What was emitted for a set of relations is such a form.
proof fn lemma_paired(cx: &Context, cx0: &Context, n: u32, e: Option<u32>, f: Info)
    requires
        cx0.wf(),
        n < cx0.n(),
        pairs_at(cx0.nodes@, cx0.tm(), f, n as int),
        f matches Info::Pair(x, y, s) ==> {
            &&& forall|b: bool| #[trigger] rels_all(s, cx0.w(x as int), b) ==> (e matches Some(e)
                && cx.nodes@[e as int] is Const)
            &&& forall|op: CmpOp, first: bool| #[trigger]
                rels_one(s, cx0.w(x as int), op, first) ==> (e matches Some(e)
                    && compares_or_const(cx, e))
        },
    ensures
        paired(cx, cx0, n, e),
{
    assert forall|x: u32, y: u32|
        #![trigger spoken::relates(cx0.nodes@, n as int, x as int, y as int)]
        spoken::relates(cx0.nodes@, n as int, x as int, y as int) implies {
        &&& forall|b: bool| #[trigger]
            spoken::same_for_all(cx0.nodes@, n as int, x as int, cx0.w(x as int), b) ==> (
            e matches Some(e) && cx.nodes@[e as int] is Const)
        &&& forall|op: CmpOp, first: bool| #[trigger]
            spoken::one_comparison(cx0.nodes@, n as int, x as int, cx0.w(x as int), op, first)
                ==> (e matches Some(e) && compares_or_const(cx, e))
    } by {
        assert(says_of(cx0.nodes@, cx0.tm(), f, n as int, x, y));
        let s = f->Pair_2;
        let w = cx0.w(x as int);
        assert forall|b: bool| #[trigger]
            spoken::same_for_all(cx0.nodes@, n as int, x as int, w, b) implies (e matches Some(e)
            && cx.nodes@[e as int] is Const) by {
            assert forall|v: Seq<bool>, u: Seq<bool>|
                v.len() == w && u.len() == w implies #[trigger] in_rels(s, v, u) == b by {
                let _ = spoken::truth_of(cx0.nodes@, n as int, x as int, v, u);
            }
            assert(rels_all(s, w, b));
        }
        assert forall|op: CmpOp, first: bool| #[trigger]
            spoken::one_comparison(cx0.nodes@, n as int, x as int, w, op, first) implies (
        e matches Some(e) && compares_or_const(cx, e)) by {
            assert forall|v: Seq<bool>, u: Seq<bool>|
                v.len() == w && u.len() == w implies (#[trigger] in_rels(s, v, u) == if first {
                ops::holds(op, v, u)
            } else {
                ops::holds(op, u, v)
            }) by {
                let _ = spoken::truth_of(cx0.nodes@, n as int, x as int, v, u);
            }
            assert(rels_one(s, w, op, first));
        }
    }
}

/// Node `n` combines comparisons of `x` and `y`, and is one comparison of them.
pub open(crate) spec fn relation(cx: &Context, n: u32, x: u32, y: u32, op: CmpOp, first: bool) -> bool {
    &&& is_boolean(cx.nodes@[n as int])
    &&& spoken::relates(cx.nodes@, n as int, x as int, y as int)
    &&& spoken::one_comparison(cx.nodes@, n as int, x as int, cx.w(x as int), op, first)
}

/// The form of a combination is another node, and a constant where it always or never holds.
proof fn lemma_form_other(cx0: &Context, cx: &Context, n: u32, e: Option<u32>)
    requires
        cx0.wf(),
        cx.wf(),
        cx.extends(cx0),
        n < cx0.n(),
        formed(cx, cx0, n, e),
        paired(cx, cx0, n, e),
    ensures
        !spoken::undecided(cx0.nodes@, cx0.tm(), n as int) ==> (e matches Some(e) && e != n
            && commit::pinned(cx.nodes@, n, e)),
        !spoken::open_pair(cx0.nodes@, cx0.tm(), n as int) ==> (e matches Some(e) && e != n
            && commit::pinned(cx.nodes@, n, e)),
        forall|x: u32, y: u32, op: CmpOp, first: bool| #[trigger]
            relation(cx0, n, x, y, op, first) ==> (e matches Some(e) && e != n
                && compares_or_const(cx, e)),
        forall|x: u32, lo: int, hi: int| #[trigger]
            spoken::ranges(cx0.nodes@, cx0.tm(), n as int, x as int, lo, hi) ==> (e matches Some(e)
                && e != n && compares_or_const(cx, e)),
{
    assert(cx0.ok_at(n as int));
    assert(cx.nodes@[n as int] == cx0.nodes@[n as int]);
    assert(cx.tm()[n as int] == cx0.tm()[n as int]);
    if !spoken::open_pair(cx0.nodes@, cx0.tm(), n as int) {
        let (x, y) = choose|x: u32, y: u32|
            #![trigger spoken::relates(cx0.nodes@, n as int, x as int, y as int)]
            is_boolean(cx0.nodes@[n as int]) && spoken::relates(
                cx0.nodes@,
                n as int,
                x as int,
                y as int,
            ) && !(!spoken::same_for_all(
                cx0.nodes@,
                n as int,
                x as int,
                term::twidth(cx0.tm()[x as int]),
                true,
            ) && !spoken::same_for_all(
                cx0.nodes@,
                n as int,
                x as int,
                term::twidth(cx0.tm()[x as int]),
                false,
            ));
        spoken::lemma_relates(cx0, n as int, x as int, y as int);
        assert(cx0.ok_at(x as int));
        let w = cx0.w(x as int);
        assert(w == term::twidth(cx0.tm()[x as int]));
        assert(spoken::same_for_all(cx0.nodes@, n as int, x as int, w, true)
            || spoken::same_for_all(cx0.nodes@, n as int, x as int, w, false));
    }
}

/// What is left for good is no gain.
proof fn lemma_left(cx0: &Context, cx: &Context, n: u32, e: u32, atoms: Seq<u32>, most: int)
    requires
        cx0.wf(),
        cx.wf(),
        cx.extends(cx0),
        n < cx0.n(),
        e < cx.n(),
        e != n,
        forall|env: Env| #[trigger] cx.val(e as int, env) == cx.val(n as int, env),
        formed(cx, cx0, n, Some(e)),
        paired(cx, cx0, n, Some(e)),
        forall|t: Seq<u32>, u: Seq<u32>, d: Seq<u32>|
            !#[trigger] commit::gains(cx.nodes@, n, e, atoms, t, u, d, most),
        forall|x: u32|
            #![trigger spoken::speaks(cx0.nodes@, n as int, x as int)]
            spoken::speaks(cx0.nodes@, n as int, x as int) && spoken::most_spans(
                cx0.nodes@,
                n as int,
            ) <= MAX_INTERVALS ==> atoms == seq![x],
        forall|x: u32, y: u32|
            #![trigger spoken::relates(cx0.nodes@, n as int, x as int, y as int)]
            spoken::relates(cx0.nodes@, n as int, x as int, y as int) ==> atoms == seq![x, y],
    ensures
        forall|x: u32, lo: int, hi: int| #[trigger]
            spoken::ranges(cx0.nodes@, cx0.tm(), n as int, x as int, lo, hi) ==> no_gain(
                cx,
                n,
                seq![x],
                most,
            ),
        forall|x: u32, y: u32, op: CmpOp, first: bool| #[trigger]
            relation(cx0, n, x, y, op, first) ==> no_gain(cx, n, seq![x, y], most),
{
    lemma_form_other(cx0, cx, n, Some(e));
    assert forall|x: u32, lo: int, hi: int| #[trigger]
        spoken::ranges(cx0.nodes@, cx0.tm(), n as int, x as int, lo, hi) implies no_gain(
        cx,
        n,
        seq![x],
        most,
    ) by {
        assert(spoken::speaks(cx0.nodes@, n as int, x as int));
        assert(form_of(cx, n, e));
    }
    assert forall|x: u32, y: u32, op: CmpOp, first: bool| #[trigger]
        relation(cx0, n, x, y, op, first) implies no_gain(cx, n, seq![x, y], most) by {
        assert(spoken::relates(cx0.nodes@, n as int, x as int, y as int));
        assert(form_of(cx, n, e));
    }
}

/// A comparison, or a constant, that has the value of `n` everywhere is there, and it is not plainly
/// worth it over the atoms.
pub open(crate) spec fn no_gain(cx: &Context, n: u32, atoms: Seq<u32>, most: int) -> bool {
    exists|e: u32| #[trigger]
        form_of(cx, n, e) && e != n && forall|t: Seq<u32>, u: Seq<u32>, d: Seq<u32>|
            !#[trigger] commit::gains(cx.nodes@, n, e, atoms, t, u, d, most)
}

/// Node `e`, a comparison or a constant, has the value of `n` everywhere.
pub open(crate) spec fn form_of(cx: &Context, n: u32, e: u32) -> bool {
    &&& e < cx.n()
    &&& cx.tm()[e as int] is Cmp || cx.tm()[e as int] is Const
    &&& forall|env: Env| #[trigger] cx.val(e as int, env) == cx.val(n as int, env)
}

/// What was emitted for a set of values is such a form.
proof fn lemma_formed(cx: &Context, cx0: &Context, n: u32, e: Option<u32>, f: Info)
    requires
        cx0.wf(),
        n < cx0.n(),
        info_fits(cx0.tm(), f),
        full_at(cx0.nodes@, cx0.tm(), f, n as int),
        f matches Info::Values(x, s) ==> {
            &&& s@.len() == 0 || (forall|k: int|
                0 <= k < pow2(cx0.w(x as int)) ==> #[trigger] intervals::within(s@, k)) ==> (
            e matches Some(e) && cx.nodes@[e as int] is Const)
            &&& runs::one_run(s@, cx0.w(x as int)) ==> (e matches Some(e) && compares_or_const(
                cx,
                e,
            ))
        },
    ensures
        formed(cx, cx0, n, e),
{
    assert forall|x: u32|
        #![trigger spoken::speaks(cx0.nodes@, n as int, x as int)]
        spoken::speaks(cx0.nodes@, n as int, x as int) && spoken::most_spans(cx0.nodes@, n as int)
            <= MAX_INTERVALS implies {
        &&& spoken::always(cx0.nodes@, cx0.tm(), n as int, x as int) || spoken::never(
            cx0.nodes@,
            cx0.tm(),
            n as int,
            x as int,
        ) ==> (e matches Some(e) && cx.nodes@[e as int] is Const)
        &&& forall|lo: int, hi: int|
            0 <= lo < pow2(cx0.w(x as int)) && 0 <= hi < pow2(cx0.w(x as int))
                && #[trigger] spoken::in_range(cx0.nodes@, cx0.tm(), n as int, x as int, lo, hi)
                ==> (e matches Some(e) && compares_or_const(cx, e))
    } by {
        assert(says(cx0.nodes@, cx0.tm(), f, n as int, x));
        spoken::lemma_speaks(cx0, n as int, x as int);
        let s = f->Values_1;
        let w = cx0.w(x as int);
        assert(cx0.ok_at(x as int));
        // Every number below the power of two is a value.
        assert forall|k: int| 0 <= k < pow2(w) implies (#[trigger] intervals::within(s@, k)
            == spoken::truth(cx0.nodes@, cx0.tm(), n as int, x as int, bits::bits_of(k, w))) by {
            bits::lemma_fits(k, w);
            let v = bits::bits_of(k, w);
            assert(intervals::within(s@, bits::nat_of(v) as int) == spoken::truth(
                cx0.nodes@,
                cx0.tm(),
                n as int,
                x as int,
                v,
            ));
        }
        if spoken::always(cx0.nodes@, cx0.tm(), n as int, x as int) {
            assert forall|k: int| 0 <= k < pow2(w) implies #[trigger] intervals::within(s@, k) by {
                let _ = spoken::truth(
                    cx0.nodes@,
                    cx0.tm(),
                    n as int,
                    x as int,
                    bits::bits_of(k, w),
                );
            }
        }
        if spoken::never(cx0.nodes@, cx0.tm(), n as int, x as int) {
            if s@.len() > 0 {
                let k = intervals::low_end(s@[0]) as int;
                bits::lemma_nat_bound(s@[0].lo@);
                assert(intervals::within(s@, k));
                assert(spoken::truth(
                    cx0.nodes@,
                    cx0.tm(),
                    n as int,
                    x as int,
                    bits::bits_of(k, w),
                ));
            }
        }
        assert forall|lo: int, hi: int|
            0 <= lo < pow2(w) && 0 <= hi < pow2(w) && #[trigger] spoken::in_range(
                cx0.nodes@,
                cx0.tm(),
                n as int,
                x as int,
                lo,
                hi,
            ) implies (e matches Some(e) && compares_or_const(cx, e)) by {
            assert forall|k: int| 0 <= k < pow2(w) implies (#[trigger] intervals::within(s@, k)
                <==> intervals::cyclic(lo, hi, k)) by {
                bits::lemma_fits(k, w);
                let _ = spoken::truth(
                    cx0.nodes@,
                    cx0.tm(),
                    n as int,
                    x as int,
                    bits::bits_of(k, w),
                );
            }
            assert(runs::runs(s@, w, lo, hi));
        }
    }
}

impl<'a> Runner<'a> {
    /// A set of values: false, true, one comparison with a constant, or a range check.
    fn emit_values(&mut self, cx: &mut Context, x: u32, s: &Vec<Span>) -> (out: Result<Option<u32>, Stop>)
        requires
            old(self).wf(old(cx)),
            x < old(cx).n(),
            intervals::spans_ok(s@, old(cx).w(x as int)),
        ensures
            runner::went(final(self), final(cx), old(self), old(cx)),
            out matches Err(e) ==> final(self).refuses(final(cx), e),
            out matches Ok(Some(e)) ==> e < final(cx).n() && final(cx).w(e as int) == 1 && forall|env: Env|
             #[trigger]
                final(cx).val(e as int, env)[0] == intervals::within(
                    s@,
                    bits::nat_of(old(cx).val(x as int, env)) as int,
                ),
            // No value and every value are constants, and one run of values has a form.
            s@.len() == 0 || (forall|k: int|
                0 <= k < pow2(old(cx).w(x as int)) ==> #[trigger] intervals::within(s@, k)) ==> (
            out matches Ok(o) ==> o matches Some(e) && final(cx).nodes@[e as int] is Const),
            runs::one_run(s@, old(cx).w(x as int)) ==> !(out matches Ok(None)),
            out matches Ok(Some(e)) ==> compares_or_const(final(cx), e),
    {
        let ghost cx0 = *cx;
        assert(cx0.ok_at(x as int));
        let w = cx.wid(x) as usize;
        proof {
            if forall|k: int| 0 <= k < pow2(w as nat) ==> #[trigger] intervals::within(s@, k) {
                runs::lemma_all_values(s@, w as nat);
                bits::lemma_zeros_nat(w as nat);
                bits::lemma_ones_nat(w as nat);
                let _ = s@[0];
                bits::lemma_nat_injective(s@[0].lo@, bits::zeros(w as nat));
                bits::lemma_nat_injective(s@[0].hi@, bits::ones(w as nat));
            }
        }
        if s.len() == 0 {
            let e = self.bool_const(cx, false)?;
            return Ok(Some(e));
        }
        if s.len() == 1 && s[0].lo.is_zero() && s[0].hi.is_ones() {
            let e = self.bool_const(cx, true)?;
            proof {
                bits::lemma_zeros_nat(w as nat);
                bits::lemma_ones_nat(w as nat);
                assert forall|env: Env| #[trigger] cx.val(e as int, env)[0] == intervals::within(
                    s@,
                    bits::nat_of(cx0.val(x as int, env)) as int,
                ) by {
                    let v = cx0.val(x as int, env);
                    bits::lemma_nat_bound(v);
                    assert(intervals::low_end(s@[0]) <= bits::nat_of(v) <= intervals::high_end(
                        s@[0],
                    ));
                }
            }
            return Ok(Some(e));
        }
        // One wrapped interval: either one interval, or two touching both ends.
        let (lo, hi) = match wrapped(s, w) {
            Some(p) => p,
            None => {
                return Ok(None);
            },
        };
        if let Some((op, c, first)) = simple(s, &lo, &hi) {
            let e = self.with_const(cx, op, x, &c, first)?;
            proof {
                assert forall|env: Env| #[trigger] cx.val(e as int, env)[0] == intervals::within(
                    s@,
                    bits::nat_of(cx0.val(x as int, env)) as int,
                ) by {
                    let v = cx0.val(x as int, env);
                    assert(intervals::within(s@, bits::nat_of(v) as int) <==> shapes::compared(
                        op,
                        v,
                        c@,
                        first,
                    ));
                }
            }
            return Ok(Some(e));
        }
        // x - lo <=u hi - lo (wrapping).
        let span = hi.minus(&lo);
        let l = self.mk_const(cx, &lo)?;
        let ghost cx1 = *cx;
        proof {
            assert(cx1.tm()[x as int] == cx0.tm()[x as int]);
        }
        let d = self.c_bin(cx, BinOp::Sub, x, l)?;
        let ghost cx2 = *cx;
        let k = self.mk_const(cx, &span)?;
        let ghost cx3 = *cx;
        proof {
            assert(cx3.tm()[d as int] == cx2.tm()[d as int]);
        }
        let e = self.c_rel(cx, CmpOp::Ule, d, k)?;
        proof {
            assert forall|env: Env| #[trigger] cx.val(e as int, env)[0] == intervals::within(
                s@,
                bits::nat_of(cx0.val(x as int, env)) as int,
            ) by {
                let v = cx0.val(x as int, env);
                assert(cx1.val(x as int, env) == v);
                assert(cx1.val(l as int, env) == lo@);
                assert(cx2.val(d as int, env) == ops::bin_value(BinOp::Sub, v, lo@));
                assert(cx3.val(d as int, env) == cx2.val(d as int, env));
                assert(cx3.val(k as int, env) == span@);
                shapes::lemma_wrap(v, lo@);
                shapes::lemma_wrap(hi@, lo@);
                bits::lemma_nat_bound(v);
                bits::lemma_nat_bound(lo@);
                bits::lemma_nat_bound(hi@);
                let n = bits::nat_of(v) as int;
                assert(intervals::within(s@, n) <==> intervals::cyclic(
                    bits::nat_of(lo@) as int,
                    bits::nat_of(hi@) as int,
                    n,
                ));
            }
        }
        Ok(Some(e))
    }

    /// `e == c` or `e != c` decided by the residues of `e`: when `c`'s low bits are none of the
    /// values `e` takes there (`x*x == 2`, `(x*x & 7) == 5`).
    fn residue_decide(&mut self, cx: &Context, n: u32) -> (out: Result<Option<bool>, Stop>)
        requires
            old(self).wf(cx),
            n < cx.n(),
        ensures
            runner::went(final(self), cx, old(self), cx),
            out matches Err(e) ==> final(self).refuses(cx, e),
            out matches Ok(Some(b)) ==> cx.w(n as int) == 1 && forall|env: Env| #[trigger]
                cx.val(n as int, env)[0] == b,
    {
        let (op, a, b) = match cx.node(n) {
            Node::Cmp(op, a, b) => (op, a, b),
            _ => {
                return Ok(None);
            },
        };
        if op != CmpOp::Eq && op != CmpOp::Ne {
            return Ok(None);
        }
        proof {
            assert(cx.ok_at(a as int));
            assert(cx.ok_at(b as int));
        }
        let (e, c) = match (cx.const_val(a), cx.const_val(b)) {
            (None, Some(c)) => (a, c),
            (Some(c), None) => (b, c),
            _ => {
                return Ok(None);
            },
        };
        let w = cx.wid(e);
        let k: u32 = if w < 4 {
            w as u32
        } else {
            4
        };
        let key = self.residues(cx, e, k)?;
        let low = c.extract(0, k as usize);
        match self.residues.get(&key) {
            Some(Some(t)) => {
                if !lacks(t, &low) {
                    return Ok(None);
                }
                proof {
                    reveal(residue::tables_ok);
                    assert(residue::table_ok(*t, cx.tm(), e, k as nat));
                    assert forall|env: Env| #[trigger] cx.val(n as int, env)[0] == (op == CmpOp::Ne) by {
                        let v = cx.val(e as int, env);
                        assert(residue::low(cx.tm(), e, k as nat, env) == v.take(k as int));
                        let q = bits::nat_of(residue::word(cx.tm(), t.leaves@, k as nat, env));
                        bits::lemma_nat_bound(residue::word(cx.tm(), t.leaves@, k as nat, env));
                        assert(t.values@[q as int]@ != low@);
                        if v == c@ {
                            assert(v.take(k as int) =~= c@.subrange(0, k as int));
                        }
                        if e == a {
                            assert(cx.val(b as int, env) == c@);
                        } else {
                            assert(cx.val(a as int, env) == c@);
                        }
                    }
                }
                Ok(Some(op == CmpOp::Ne))
            },
            _ => Ok(None),
        }
    }

    /// `a == b` or `a != b` decided where both sides are the same polynomial.
    fn poly_decide(&mut self, cx: &Context, n: u32) -> (out: Result<Option<bool>, Stop>)
        requires
            old(self).wf(cx),
            n < cx.n(),
        ensures
            runner::went(final(self), cx, old(self), cx),
            out matches Err(e) ==> final(self).refuses(cx, e),
            out matches Ok(Some(b)) ==> cx.w(n as int) == 1 && forall|env: Env| #[trigger]
                cx.val(n as int, env)[0] == b,
    {
        match cx.node(n) {
            Node::Cmp(op, a, b) => {
                proof {
                    assert(cx.ok_at(a as int));
                    assert(cx.ok_at(b as int));
                }
                if op != CmpOp::Eq && op != CmpOp::Ne {
                    return Ok(None);
                }
                if cx.is_const(a) || cx.is_const(b) {
                    return Ok(None);
                }
                if self.same_poly(cx, a, b)? {
                    proof {
                        assert forall|env: Env| #[trigger] cx.val(n as int, env)[0] == (op
                            == CmpOp::Eq) by {
                            assert(cx.val(a as int, env) == cx.val(b as int, env));
                        }
                    }
                    return Ok(Some(op == CmpOp::Eq));
                }
                Ok(None)
            },
            _ => Ok(None),
        }
    }

    /// The order reading of `n`.
    fn order_step(&mut self, cx: &mut Context, n: u32) -> (out: Result<Step, Stop>)
        requires
            old(self).wf(old(cx)),
            n < old(cx).n(),
        ensures
            runner::went(final(self), final(cx), old(self), old(cx)),
            out matches Err(e) ==> final(self).refuses(final(cx), e),
            out matches Ok(s) ==> fin::step_keeps(s, final(cx).tm(), final(self).hyp@, n as int),
            old(self).refuses_all() ==> !(out matches Ok(Step::To(_, _))),
    {
        let before: u32 = cx.len() as u32;
        match self.decide(cx, n)? {
            Some((e, atoms, fin)) => self.finish(cx, PassKind::Compares, n, e, before, &atoms, fin),
            None => Ok(Step::Normal(Fin::full())),
        }
    }

    /// The form of the description of `n`, if it has one, and the nodes it reads.
    fn emit_info(&mut self, cx: &mut Context, n: u32, combines: bool) -> (out: Result<(Option<u32>, Vec<u32>), Stop>)
        requires
            old(self).wf(old(cx)),
            n < old(cx).n(),
        ensures
            runner::went(final(self), final(cx), old(self), old(cx)),
            out matches Err(e) ==> final(self).refuses(final(cx), e),
            out matches Ok((Some(e), atoms)) ==> e < final(cx).n() && final(cx).w(e as int) == 1
                && old(cx).w(n as int) == 1 && forall|env: Env| #[trigger]
                final(cx).val(e as int, env)[0] == old(cx).val(n as int, env)[0],
            out matches Ok((e, _)) ==> formed(final(cx), old(cx), n, e),
            out matches Ok((_, atoms)) ==> forall|x: u32|
                #![trigger spoken::speaks(old(cx).nodes@, n as int, x as int)]
                spoken::speaks(old(cx).nodes@, n as int, x as int) && spoken::most_spans(
                    old(cx).nodes@,
                    n as int,
                ) <= MAX_INTERVALS ==> atoms@ == seq![x],
            final(self).max_region == old(self).max_region,
            out matches Ok((e, atoms)) ==> paired(final(cx), old(cx), n, e) && forall|
                x: u32,
                y: u32,
            |
                #![trigger spoken::relates(old(cx).nodes@, n as int, x as int, y as int)]
                spoken::relates(old(cx).nodes@, n as int, x as int, y as int) ==> atoms@ == seq![
                    x,
                    y,
                ],
    {
        let ghost cx0 = *cx;
        let info = self.compare_info(cx, n)?;
        let mut atoms: Vec<u32> = Vec::new();
        let e: Option<u32> = match &info {
            Info::Pair(x, y, s) => {
                atoms.push(*x);
                atoms.push(*y);
                self.emit_pair(cx, *x, *y, *s)?
            },
            Info::Values(x, s) => {
                atoms.push(*x);
                self.emit_values(cx, *x, s)?
            },
            Info::Const(v) => {
                if combines {
                    Some(self.bool_const(cx, *v)?)
                } else {
                    None
                }
            },
            Info::Opaque => None,
        };
        proof {
            lemma_formed(cx, &cx0, n, e, info);
            lemma_paired(cx, &cx0, n, e, info);
            assert forall|x: u32, y: u32|
                #![trigger spoken::relates(cx0.nodes@, n as int, x as int, y as int)]
                spoken::relates(cx0.nodes@, n as int, x as int, y as int) implies atoms@ == seq![
                x,
                y,
            ] by {
                assert(says_of(cx0.nodes@, cx0.tm(), info, n as int, x, y));
                assert(atoms@ =~= seq![x, y]);
            }
            assert forall|x: u32|
                #![trigger spoken::speaks(cx0.nodes@, n as int, x as int)]
                spoken::speaks(cx0.nodes@, n as int, x as int) && spoken::most_spans(
                    cx0.nodes@,
                    n as int,
                ) <= MAX_INTERVALS implies atoms@ == seq![x] by {
                assert(says(cx0.nodes@, cx0.tm(), info, n as int, x));
                assert(atoms@ =~= seq![x]);
            }
            if let Some(e) = e {
                assert forall|env: Env| #[trigger] cx.val(e as int, env)[0] == cx0.val(
                    n as int,
                    env,
                )[0] by {
                    let _ = term::value(cx0.tm()[n as int], env);
                }
            }
        }
        Ok((e, atoms))
    }

    /// The compares pass at `n`.
    #[verifier::rlimit(40)]
    pub(crate) fn compares_step(&mut self, cx: &mut Context, n: u32) -> (out: Result<Step, Stop>)
        requires
            old(self).wf(old(cx)),
            n < old(cx).n(),
        ensures
            runner::went(final(self), final(cx), old(self), old(cx)),
            out matches Err(e) ==> final(self).refuses(final(cx), e),
            out matches Ok(s) ==> fin::step_keeps(s, final(cx).tm(), final(self).hyp@, n as int),
            old(self).refuses_all() ==> !(out matches Ok(Step::To(_, _))),
            // A combination that always or never holds is replaced by a constant.
            old(self).unchecked() && (out matches Ok(Step::Normal(_))) ==> spoken::undecided(
                old(cx).nodes@,
                old(cx).tm(),
                n as int,
            ) && spoken::open_pair(old(cx).nodes@, old(cx).tm(), n as int),
            // One that holds at one run of values is left only where its form, a comparison, was
            // weighed and found no smaller.
            old(self).unchecked() && (out matches Ok(Step::Normal(_))) ==> forall|
                x: u32,
                lo: int,
                hi: int,
            | #[trigger]
                spoken::ranges(old(cx).nodes@, old(cx).tm(), n as int, x as int, lo, hi)
                    ==> final(self).stats.passes.get(PassKind::Compares).rejected_cost > 0,
            // It is not left for good where its form is plainly worth it.
            old(self).unchecked() ==> (out matches Ok(Step::Normal(f)) ==> f.done ==> forall|
                x: u32,
                lo: int,
                hi: int,
            | #[trigger]
                spoken::ranges(old(cx).nodes@, old(cx).tm(), n as int, x as int, lo, hi)
                    ==> no_gain(final(cx), n, seq![x], old(self).max_region as int)),
            // The same of one that is a comparison of two nodes.
            old(self).unchecked() ==> (out matches Ok(Step::Normal(f)) ==> f.done ==> forall|
                x: u32,
                y: u32,
                op: CmpOp,
                first: bool,
            | #[trigger]
                relation(old(cx), n, x, y, op, first) ==> no_gain(
                    final(cx),
                    n,
                    seq![x, y],
                    old(self).max_region as int,
                )),
    {
        let ghost cx0 = *cx;
        let node = cx.node(n);
        if let Node::Select(_, _, _) = node {
            return self.order_step(cx, n);
        }
        let combines = boolean_op(&node);
        let compares = matches!(node, Node::Cmp(_, _, _));
        if cx.wid(n) != 1 || !(combines || compares) {
            proof {
                if cx.w(n as int) != 1 {
                    assert forall|x: u32| !#[trigger] spoken::speaks(cx.nodes@, n as int, x as int) by {
                        if spoken::speaks(cx.nodes@, n as int, x as int) {
                            spoken::lemma_speaks(cx, n as int, x as int);
                        }
                    }
                    assert forall|x: u32, y: u32|
                        !#[trigger] spoken::relates(cx.nodes@, n as int, x as int, y as int) by {
                        if spoken::relates(cx.nodes@, n as int, x as int, y as int) {
                            spoken::lemma_relates(cx, n as int, x as int, y as int);
                        }
                    }
                }
            }
            return Ok(Step::Normal(Fin::full()));
        }
        let before: u32 = cx.len() as u32;
        let (e, atoms) = self.emit_info(cx, n, combines)?;
        let fin = Fin::full();
        let ghost h = self.hyp@;
        proof {
            lemma_form_other(&cx0, cx, n, e);
        }
        match e {
            Some(e) => {
                if e != n {
                    proof {
                        assert(cx.ok_at(n as int));
                        assert(cx.ok_at(e as int));
                        assert forall|env: Env|
                            #![trigger term::value(cx.tm()[n as int], env)]
                            #![trigger term::value(cx.tm()[e as int], env)]
                            fin.rel.admits(h, env) implies term::value(cx.tm()[n as int], env)
                            == term::value(cx.tm()[e as int], env) by {
                            let _ = cx.val(e as int, env);
                            assert(cx.val(n as int, env) == cx0.val(n as int, env));
                            assert(cx.val(n as int, env) =~= cx.val(e as int, env));
                        }
                    }
                    let step = self.finish(cx, PassKind::Compares, n, e, before, &atoms, fin);
                    proof {
                        assert forall|env: Env| #[trigger] cx.val(e as int, env) == cx.val(
                            n as int,
                            env,
                        ) by {
                            assert(fin.rel.admits(h, env));
                            let _ = term::value(cx.tm()[n as int], env);
                        }
                        if let Ok(Step::Normal(f)) = step {
                            if f.done && old(self).unchecked() {
                                lemma_left(&cx0, cx, n, e, atoms@, old(self).max_region as int);
                            }
                        }
                    }
                    return step;
                }
            },
            None => {},
        }
        if let Some(b) = self.residue_decide(cx, n)? {
            let ghost cx1 = *cx;
            let before: u32 = cx.len() as u32;
            let c = self.bool_const(cx, b)?;
            let none: Vec<u32> = Vec::new();
            proof {
                assert(cx.ok_at(n as int));
                assert(cx.ok_at(c as int));
                assert forall|env: Env|
                    #![trigger term::value(cx.tm()[n as int], env)]
                    #![trigger term::value(cx.tm()[c as int], env)]
                    fin.rel.admits(h, env) implies term::value(cx.tm()[n as int], env)
                    == term::value(cx.tm()[c as int], env) by {
                    let _ = cx.val(c as int, env);
                    assert(cx.val(n as int, env) == cx1.val(n as int, env));
                    assert(cx.val(n as int, env) =~= cx.val(c as int, env));
                }
            }
            return self.finish(cx, PassKind::Compares, n, c, before, &none, fin);
        }
        if let Some(b) = self.poly_decide(cx, n)? {
            let ghost cx1 = *cx;
            let before: u32 = cx.len() as u32;
            let c = self.bool_const(cx, b)?;
            let none: Vec<u32> = Vec::new();
            proof {
                assert(cx.ok_at(n as int));
                assert(cx.ok_at(c as int));
                assert forall|env: Env|
                    #![trigger term::value(cx.tm()[n as int], env)]
                    #![trigger term::value(cx.tm()[c as int], env)]
                    fin.rel.admits(h, env) implies term::value(cx.tm()[n as int], env)
                    == term::value(cx.tm()[c as int], env) by {
                    let _ = cx.val(c as int, env);
                    assert(cx.val(n as int, env) == cx1.val(n as int, env));
                    assert(cx.val(n as int, env) =~= cx.val(c as int, env));
                }
            }
            return self.finish(cx, PassKind::Compares, n, c, before, &none, fin);
        }
        self.order_step(cx, n)
    }
}

} // verus!
