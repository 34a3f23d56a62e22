//! Checking host rewrites: see [`rewrite`].

use vstd::prelude::*;
use vstd::arithmetic::power2::pow2;
use crate::api;
use crate::reach;
use crate::engine::accept;
use crate::engine::budget;
use crate::engine::rebuild;
use crate::engine::runner;
use crate::expr;
use crate::bitvec::{BitVec, Width};
use crate::bits;
use crate::check::random;
use crate::check::random::{biased, Rng};
use crate::eval;
use crate::term;
use crate::term::{Env, Term};
use crate::engine::host::{apply_standalone, Rewrite};
use crate::engine::link::Engine;
use crate::engine::runner::Runner;
use crate::engine::stats::bump;
use crate::expr::{Context, Expr, Node};

verus! {

/// How thoroughly [`rewrite`] checks.
#[derive(Debug)]
pub struct RewriteCheckConfig {
    /// Widths each input is read at (an input whose constants do not fit a width skips it).
    pub widths: Vec<u16>,
    /// Variations of each input at each width, with other constants of the same widths.
    pub variants: u32,
    /// Compare every assignment of the symbols when they have at most this many bits.
    pub max_exhaustive_bits: u32,
    /// Random points otherwise (after all zeros and all ones).
    pub samples: u32,
    /// Seed for the variations and the points.
    pub seed: u64,
}

impl Default for RewriteCheckConfig {
    fn default() -> (r: Self)
        ensures
            r.widths@ == seq![1u16, 2, 3, 4, 5, 6, 7, 8, 16, 32, 64],
            r.variants == 16,
            r.max_exhaustive_bits == 16,
            r.samples == 256,
            r.seed == 0x5eed_4057,
    {
        let widths: Vec<u16> = vec![1, 2, 3, 4, 5, 6, 7, 8, 16, 32, 64];
        assert(widths@ =~= seq![1u16, 2, 3, 4, 5, 6, 7, 8, 16, 32, 64]);
        RewriteCheckConfig {
            widths,
            variants: 16,
            max_exhaustive_bits: 16,
            samples: 256,
            seed: 0x5eed_4057,
        }
    }
}

impl RewriteCheckConfig {
    /// Sets [`widths`](Self::widths).
    pub fn with_widths(self, widths: Vec<u16>) -> (r: Self)
        ensures
            r == (RewriteCheckConfig { widths, ..self }),
    {
        let mut c = self;
        c.widths = widths;
        c
    }

    /// Sets [`variants`](Self::variants).
    pub fn with_variants(self, variants: u32) -> (r: Self)
        ensures
            r == (RewriteCheckConfig { variants, ..self }),
    {
        let mut c = self;
        c.variants = variants;
        c
    }

    /// Sets [`max_exhaustive_bits`](Self::max_exhaustive_bits).
    pub fn with_max_exhaustive_bits(self, max_exhaustive_bits: u32) -> (r: Self)
        ensures
            r == (RewriteCheckConfig { max_exhaustive_bits, ..self }),
    {
        let mut c = self;
        c.max_exhaustive_bits = max_exhaustive_bits;
        c
    }

    /// Sets [`samples`](Self::samples).
    pub fn with_samples(self, samples: u32) -> (r: Self)
        ensures
            r == (RewriteCheckConfig { samples, ..self }),
    {
        let mut c = self;
        c.samples = samples;
        c
    }

    /// Sets [`seed`](Self::seed).
    pub fn with_seed(self, seed: u64) -> (r: Self)
        ensures
            r == (RewriteCheckConfig { seed, ..self }),
    {
        let mut c = self;
        c.seed = seed;
        c
    }
}

/// What a passing check covered.
#[derive(Clone, Copy, Debug, PartialEq, Eq, Structural)]
pub struct RewriteReport {
    /// Nodes where the rewrite returned a result other than the node.
    pub applications: u64,
    /// Points at which a result was compared with its node.
    pub points: u64,
    /// Applications compared at every assignment of their symbols.
    pub exhaustive: u64,
}

/// An input, read at every width at which it can be.
pub struct RewriteInput {
    /// What it was read from.
    pub text: String,
    /// The context and the root at each width.
    pub read: Vec<(Context, Expr)>,
}

/// Why a check failed: in context `read` of input `input`.
#[derive(Debug)]
pub enum RewriteFailure {
    /// An input can be read at none of the widths.
    Unparsable {
        /// The input.
        input: usize,
    },
    /// The rewrite applied nowhere: the inputs do not exercise it.
    NeverApplied,
    /// A result differs from its node at an assignment.
    Differs {
        /// The node.
        node: Expr,
        /// The rewrite's result.
        result: Expr,
        /// The symbols' values.
        assignment: Vec<(u64, BitVec)>,
    },
    /// A result of another width.
    Width {
        /// The node.
        node: Expr,
        /// The rewrite's result.
        result: Expr,
    },
    /// A result not smaller than its node in the termination order: the engine would never
    /// commit it.
    NotSmaller {
        /// The node.
        node: Expr,
        /// The rewrite's result.
        result: Expr,
    },
    /// The same node gave two results.
    Nondeterministic {
        /// The node.
        node: Expr,
        /// The first result.
        first: Expr,
        /// The second.
        second: Expr,
    },
    /// A result that is not a handle of the context the rewrite was given.
    ForeignExpr {
        /// The node.
        node: Expr,
    },
}

/// What a failure says of a context is so.
pub open(crate) spec fn failure_ok(f: RewriteFailure, cx: &Context) -> bool {
    match f {
        RewriteFailure::Unparsable { .. } => false,
        RewriteFailure::NeverApplied => false,
        RewriteFailure::Differs { node, result, assignment } => cx.has(node) && cx.has(result)
            && cx.value(node, api::env_of(assignment@)) != cx.value(
            result,
            api::env_of(assignment@),
        ),
        RewriteFailure::Width { node, result } => cx.has(node) && cx.has(result) && cx.width_of(node)
            != cx.width_of(result),
        RewriteFailure::NotSmaller { node, result } => cx.has(node) && cx.has(result)
            && accept::ground_order(cx.tm()[node.id as int], cx.tm()[result.id as int]) != Some(true),
        RewriteFailure::Nondeterministic { node, first, second } => cx.has(node) && first != second,
        RewriteFailure::ForeignExpr { node } => cx.has(node),
    }
}

/// A failure about a context.
spec fn of_context(f: RewriteFailure) -> bool {
    !(f is Unparsable) && !(f is NeverApplied)
}

/// Node `i` is below `a` or `b`.
pub open(crate) spec fn below(cx: &Context, a: Expr, b: Expr, i: int) -> bool {
    reach::reach(cx.nodes@, a.id as int).contains(i) || reach::reach(
        cx.nodes@,
        b.id as int,
    ).contains(i)
}

/// The symbol is listed, with at least this width.
pub open spec fn lists(l: Seq<(u64, u16)>, k: u64, w: nat) -> bool {
    exists|p: int| 0 <= p < l.len() && (#[trigger] l[p]).0 == k && l[p].1 >= w
}

/// A symbol of this key and width is below `a` or `b`.
pub open(crate) spec fn occurs(cx: &Context, a: Expr, b: Expr, x: (u64, u16)) -> bool {
    exists|i: int|
        0 <= i < cx.n() && below(cx, a, b, i) && #[trigger] cx.nodes@[i] == Node::Sym(x.0) && cx.w(i)
            == x.1
}

/// These are the symbols with an index below `n` that are below `a` or `b`: each once, at its
/// greatest width.
pub open(crate) spec fn symbols_upto(
    cx: &Context,
    a: Expr,
    b: Expr,
    l: Seq<(u64, u16)>,
    n: int,
) -> bool {
    &&& forall|p: int, q: int|
        #![trigger l[p], l[q]]
        0 <= p < l.len() && 0 <= q < l.len() && p != q ==> l[p].0 != l[q].0
    &&& forall|i: int|
        #![trigger cx.nodes@[i]]
        0 <= i < n && below(cx, a, b, i) ==> (cx.nodes@[i] matches Node::Sym(k) ==> lists(
            l,
            k,
            cx.w(i),
        ))
    &&& forall|p: int| 0 <= p < l.len() ==> occurs(cx, a, b, #[trigger] l[p])
}

/// These are the symbols below `a` or `b`: each once, at its greatest width.
pub open(crate) spec fn symbols_of(cx: &Context, a: Expr, b: Expr, l: Seq<(u64, u16)>) -> bool {
    symbols_upto(cx, a, b, l, cx.n() as int)
}

/// The bits of all the symbols together.
pub open spec fn total(l: Seq<(u64, u16)>) -> nat
    decreases l.len(),
{
    if l.len() == 0 {
        0
    } else {
        l[0].1 as nat + total(l.skip(1))
    }
}

/// Their widths.
pub open spec fn widths_of(l: Seq<(u64, u16)>) -> Seq<usize> {
    Seq::new(l.len(), |i: int| l[i].1 as usize)
}

/// The assignment gives the symbols these values.
pub open spec fn assigns(l: Seq<(u64, u16)>, vs: Seq<Seq<bool>>, env: Env) -> bool {
    forall|p: int, i: int|
        #![trigger vs[p][i]]
        0 <= p < l.len() && 0 <= i < l[p].1 ==> env(l[p].0 as int, i) == vs[p][i]
}

/// `a` and `b` have one value wherever the symbols have these values.
pub open(crate) spec fn agrees_at(
    cx: &Context,
    a: Expr,
    b: Expr,
    l: Seq<(u64, u16)>,
    vs: Seq<Seq<bool>>,
) -> bool {
    forall|env: Env| assigns(l, vs, env) ==> #[trigger] cx.value(a, env) == cx.value(b, env)
}

/// The most bits of symbols at which every assignment is compared.
pub open spec fn most_of(cfg: RewriteCheckConfig) -> int {
    if cfg.max_exhaustive_bits < 24 {
        cfg.max_exhaustive_bits as int
    } else {
        24
    }
}

/// What a passing comparison shows, with the generator in state `s`: the two have one value at
/// every assignment where their symbols have few bits, and otherwise at all zeros, all ones, and as
/// many drawn points as asked for.
pub open(crate) spec fn compared(
    cx: &Context,
    a: Expr,
    b: Expr,
    cfg: RewriteCheckConfig,
    l: Seq<(u64, u16)>,
    s: u64,
) -> bool {
    &&& symbols_of(cx, a, b, l)
    &&& total(l) <= most_of(cfg) ==> forall|env: Env| #[trigger]
        cx.value(a, env) == cx.value(b, env)
    &&& total(l) > most_of(cfg) ==> {
        &&& agrees_at(cx, a, b, l, same(l, false))
        &&& agrees_at(cx, a, b, l, same(l, true))
        &&& forall|k: nat|
            k < cfg.samples ==> agrees_at(
                cx,
                a,
                b,
                l,
                #[trigger] random::values_from(random::nth_state(s, widths_of(l), k), widths_of(l)),
            )
    }
}

/// All bits of all symbols alike.
pub open spec fn same(l: Seq<(u64, u16)>, b: bool) -> Seq<Seq<bool>> {
    Seq::new(l.len(), |i: int| Seq::new(l[i].1 as nat, |j: int| b))
}

/// The bits of `c`, one symbol after the other.
pub open spec fn split(c: int, l: Seq<(u64, u16)>) -> Seq<Seq<bool>>
    decreases l.len(),
{
    if l.len() == 0 {
        Seq::empty()
    } else {
        seq![bits::bits_of(c, l[0].1 as nat)] + split(c / (pow2(l[0].1 as nat) as int), l.skip(1))
    }
}

/// The value of one symbol.
spec fn read_of(x: (u64, u16), env: Env) -> Seq<bool> {
    Seq::new(x.1 as nat, |i: int| env(x.0 as int, i))
}

/// Every assignment is one of the cases.
proof fn lemma_case(l: Seq<(u64, u16)>, env: Env) -> (c: int)
    ensures
        0 <= c < pow2(total(l)),
        split(c, l).len() == l.len(),
        assigns(l, split(c, l), env),
    decreases l.len(),
{
    if l.len() == 0 {
        bits::lemma_pow2_zero();
        0
    } else {
        let w = l[0].1 as nat;
        let rest = lemma_case(l.skip(1), env);
        let v = read_of(l[0], env);
        let x = bits::nat_of(v) as int;
        let p = pow2(w) as int;
        bits::lemma_nat_bound(v);
        bits::lemma_pow2_sum(w, total(l.skip(1)));
        let c = x + p * rest;
        assert(c < p * pow2(total(l.skip(1)))) by (nonlinear_arith)
            requires
                x < p,
                rest + 1 <= pow2(total(l.skip(1))),
                c == x + p * rest,
                p > 0,
        ;
        assert(c >= 0) by (nonlinear_arith)
            requires
                x >= 0,
                p > 0,
                rest >= 0,
                c == x + p * rest,
        ;
        assert(p * rest == rest * p) by (nonlinear_arith);
        vstd::arithmetic::div_mod::lemma_fundamental_div_mod_converse(c, p, rest, x);
        bits::lemma_bits_of_unique(v, c);
        let vs = split(c, l);
        let tail = split(rest, l.skip(1));
        assert(vs =~= seq![v] + tail);
        assert forall|q: int, i: int| #![trigger vs[q][i]] 0 <= q < l.len() && 0 <= i < l[q].1 implies
        env(l[q].0 as int, i) == vs[q][i] by {
            if q > 0 {
                assert(l.skip(1)[q - 1] == l[q]);
                assert(vs[q] == tail[q - 1]);
                let _ = tail[q - 1][i];
            }
        }
        c
    }
}

/// A node has one value where the symbols below it have the same values.
proof fn lemma_same_value(cx: &Context, root: int, i: int, e1: Env, e2: Env)
    requires
        cx.wf(),
        0 <= i <= root < cx.n(),
        reach::reach(cx.nodes@, root).contains(i),
        forall|j: int, q: int|
            #![trigger cx.nodes@[j], e1(cx.nodes@[j]->Sym_0 as int, q)]
            0 <= j <= root && reach::reach(cx.nodes@, root).contains(j) && cx.nodes@[j] is Sym && 0
                <= q < cx.w(j) ==> e1(cx.nodes@[j]->Sym_0 as int, q) == e2(
                cx.nodes@[j]->Sym_0 as int,
                q,
            ),
    ensures
        cx.val(i, e1) == cx.val(i, e2),
    decreases i,
{
    assert(cx.ok_at(i));
    let node = cx.nodes@[i];
    let ks = expr::kids(node);
    assert forall|j: int| 0 <= j < ks.len() implies 0 <= #[trigger] ks[j] < i && reach::reach(
        cx.nodes@,
        root,
    ).contains(ks[j] as int) by {
        assert(reach::feeds(cx.nodes@, ks[j] as int, i)) by {
            assert(expr::kids(cx.nodes@[i])[j] == ks[j]);
        }
        reach::lemma_reach_kid(cx.nodes@, root, i, ks[j] as int);
    }
    if ks.len() > 0 {
        lemma_same_value(cx, root, ks[0] as int, e1, e2);
    }
    if ks.len() > 1 {
        lemma_same_value(cx, root, ks[1] as int, e1, e2);
    }
    if ks.len() > 2 {
        lemma_same_value(cx, root, ks[2] as int, e1, e2);
    }
    if let Node::Sym(k) = node {
        assert(cx.val(i, e1) =~= cx.val(i, e2)) by {
            assert forall|q: int| 0 <= q < cx.w(i) implies #[trigger] e1(k as int, q) == e2(
                k as int,
                q,
            ) by {
                let _ = e1(cx.nodes@[i]->Sym_0 as int, q);
            }
        }
    }
}

/// The entry of a listed symbol.
proof fn lemma_entry(a: Seq<(u64, BitVec)>, p: int)
    requires
        0 <= p < a.len(),
        forall|i: int, j: int|
            #![trigger a[i], a[j]]
            0 <= i < a.len() && 0 <= j < a.len() && i != j ==> a[i].0 != a[j].0,
    ensures
        api::entry_of(a, a[p].0 as int) == Some(a[p].1@),
    decreases a.len(),
{
    if p > 0 {
        let t = a.skip(1);
        assert(a[0].0 != a[p].0);
        assert forall|i: int, j: int|
            #![trigger t[i], t[j]]
            0 <= i < t.len() && 0 <= j < t.len() && i != j implies t[i].0 != t[j].0 by {
            let _ = (a[i + 1], a[j + 1]);
        }
        assert(t[p - 1] == a[p]);
        lemma_entry(t, p - 1);
    }
}

/// One evaluation shows what holds wherever the symbols have these values.
proof fn lemma_evaluated(
    cx: &Context,
    a: Expr,
    b: Expr,
    l: Seq<(u64, u16)>,
    vals: Seq<(u64, BitVec)>,
    vs: Seq<Seq<bool>>,
)
    requires
        cx.wf(),
        cx.has(a),
        cx.has(b),
        symbols_of(cx, a, b, l),
        vals.len() == l.len() == vs.len(),
        forall|i: int|
            #![trigger vals[i]]
            0 <= i < l.len() ==> vals[i].0 == l[i].0 && vals[i].1@ == vs[i] && vs[i].len() == l[i].1,
        cx.value(a, api::env_of(vals)) == cx.value(b, api::env_of(vals)),
    ensures
        agrees_at(cx, a, b, l, vs),
{
    let e0 = api::env_of(vals);
    assert forall|env: Env| assigns(l, vs, env) implies #[trigger] cx.value(a, env) == cx.value(
        b,
        env,
    ) by {
        assert forall|i: int, j: int|
            #![trigger vals[i], vals[j]]
            0 <= i < vals.len() && 0 <= j < vals.len() && i != j implies vals[i].0 != vals[j].0 by {
            let _ = (l[i], l[j]);
        }
        assert forall|j: int, q: int|
            #![trigger cx.nodes@[j], e0(cx.nodes@[j]->Sym_0 as int, q)]
            0 <= j < cx.n() && below(cx, a, b, j) && cx.nodes@[j] is Sym && 0 <= q < cx.w(j) implies e0(
            cx.nodes@[j]->Sym_0 as int,
            q,
        ) == env(cx.nodes@[j]->Sym_0 as int, q) by {
            let k = cx.nodes@[j]->Sym_0;
            assert(lists(l, k, cx.w(j)));
            let p = choose|p: int|
                0 <= p < l.len() && (#[trigger] l[p]).0 == k && l[p].1 >= cx.w(j);
            lemma_entry(vals, p);
            let _ = vals[p];
            let _ = vs[p][q];
        }
        reach::lemma_reach_top(cx.nodes@, a.id as int);
        reach::lemma_reach_top(cx.nodes@, b.id as int);
        lemma_same_value(cx, a.id as int, a.id as int, e0, env);
        lemma_same_value(cx, b.id as int, b.id as int, e0, env);
    }
}

/// Notes a symbol of a width.
fn note(r: &mut Vec<(u64, u16)>, k: u64, w: u16)
    requires
        forall|p: int, q: int|
            #![trigger old(r)@[p], old(r)@[q]]
            0 <= p < old(r)@.len() && 0 <= q < old(r)@.len() && p != q ==> old(r)@[p].0 != old(
                r,
            )@[q].0,
    ensures
        forall|p: int, q: int|
            #![trigger final(r)@[p], final(r)@[q]]
            0 <= p < final(r)@.len() && 0 <= q < final(r)@.len() && p != q ==> final(r)@[p].0
                != final(r)@[q].0,
        forall|x: u64, v: nat| #[trigger] lists(old(r)@, x, v) ==> lists(final(r)@, x, v),
        lists(final(r)@, k, w as nat),
        forall|p: int|
            #![trigger final(r)@[p]]
            0 <= p < final(r)@.len() ==> final(r)@[p] == (k, w) || old(r)@.contains(final(r)@[p]),
{
    let ghost r0 = r@;
    let mut i: usize = 0;
    while i < r.len()
        invariant
            i <= r@.len(),
            r@ == r0,
            r0 == old(r)@,
            forall|p: int| 0 <= p < i ==> (#[trigger] r0[p]).0 != k,
            forall|p: int, q: int|
                #![trigger r0[p], r0[q]]
                0 <= p < r0.len() && 0 <= q < r0.len() && p != q ==> r0[p].0 != r0[q].0,
        ensures
            i == r@.len(),
            r@ == r0,
            forall|p: int| 0 <= p < i ==> (#[trigger] r0[p]).0 != k,
        decreases r@.len() - i,
    {
        if r[i].0 == k {
            if r[i].1 < w {
                r.set(i, (k, w));
            }
            proof {
                assert(r@[i as int].0 == k && r@[i as int].1 >= w);
                assert forall|x: u64, v: nat| #[trigger] lists(r0, x, v) implies lists(r@, x, v) by {
                    let p = choose|p: int|
                        0 <= p < r0.len() && (#[trigger] r0[p]).0 == x && r0[p].1 >= v;
                    assert(r@[p].0 == x && r@[p].1 >= v);
                }
                assert forall|p: int| #![trigger r@[p]] 0 <= p < r@.len() implies r@[p] == (k, w)
                    || r0.contains(r@[p]) by {
                    if r@[p] != (k, w) {
                        assert(r@[p] == r0[p]);
                    }
                }
                assert forall|p: int, q: int|
                    #![trigger r@[p], r@[q]]
                    0 <= p < r@.len() && 0 <= q < r@.len() && p != q implies r@[p].0 != r@[q].0 by {
                    let _ = (r0[p], r0[q]);
                }
            }
            return;
        }
        i = i + 1;
    }
    r.push((k, w));
    proof {
        assert(r@[r0.len() as int] == (k, w));
        assert forall|x: u64, v: nat| #[trigger] lists(r0, x, v) implies lists(r@, x, v) by {
            let p = choose|p: int| 0 <= p < r0.len() && (#[trigger] r0[p]).0 == x && r0[p].1 >= v;
            assert(r@[p] == r0[p]);
        }
        assert forall|p: int| #![trigger r@[p]] 0 <= p < r@.len() implies r@[p] == (k, w)
            || r0.contains(r@[p]) by {
            if p < r0.len() {
                assert(r@[p] == r0[p]);
            }
        }
        assert forall|p: int, q: int|
            #![trigger r@[p], r@[q]]
            0 <= p < r@.len() && 0 <= q < r@.len() && p != q implies r@[p].0 != r@[q].0 by {
            if p < r0.len() {
                let _ = r0[p];
            }
            if q < r0.len() {
                let _ = r0[q];
            }
        }
    }
}

/// The symbols below `a` or `b`, each once, with their widths.
fn symbols(cx: &Context, a: u32, b: u32) -> (r: Vec<(u64, u16)>)
    requires
        cx.wf(),
        a < cx.n(),
        b < cx.n(),
    ensures
        symbols_of(cx, Expr { id: a }, Expr { id: b }, r@),
        forall|i: int| #![trigger r@[i]] 0 <= i < r@.len() ==> 1 <= r@[i].1 <= 512,
{
    let ghost ea = Expr { id: a };
    let ghost eb = Expr { id: b };
    let ma = cx.marks(a);
    let mb = cx.marks(b);
    let mut r: Vec<(u64, u16)> = Vec::new();
    let top: u32 = if a < b {
        b
    } else {
        a
    };
    proof {
        reach::lemma_reach_top(cx.nodes@, a as int);
        reach::lemma_reach_top(cx.nodes@, b as int);
    }
    let mut i: u32 = 0;
    while i <= top
        invariant
            cx.wf(),
            a <= top,
            b <= top,
            top < cx.n(),
            cx.n() < u32::MAX,
            i <= top + 1,
            ea == (Expr { id: a }),
            eb == (Expr { id: b }),
            ma@.len() == a + 1,
            mb@.len() == b + 1,
            forall|j: int|
                0 <= j <= a ==> #[trigger] ma@[j] == reach::reach(cx.nodes@, a as int).contains(j),
            forall|j: int|
                0 <= j <= b ==> #[trigger] mb@[j] == reach::reach(cx.nodes@, b as int).contains(j),
            forall|j: int| #[trigger] below(cx, ea, eb, j) ==> 0 <= j <= top && (j <= a || j <= b),
            forall|j: int| #[trigger]
                reach::reach(cx.nodes@, a as int).contains(j) ==> 0 <= j <= a,
            forall|j: int| #[trigger]
                reach::reach(cx.nodes@, b as int).contains(j) ==> 0 <= j <= b,
            symbols_upto(cx, ea, eb, r@, i as int),
            forall|j: int| #![trigger r@[j]] 0 <= j < r@.len() ==> 1 <= r@[j].1 <= 512,
        decreases top + 1 - i,
    {
        let below = ((i as usize) < ma.len() && ma[i as usize]) || ((i as usize) < mb.len()
            && mb[i as usize]);
        assert(below == self::below(cx, ea, eb, i as int));
        let ghost r0 = r@;
        if below {
            if let Node::Sym(k) = cx.node(i) {
                let w = cx.wid(i);
                proof {
                    assert(cx.ok_at(i as int));
                    assert(cx.nodes@[i as int] == Node::Sym(k));
                    assert(occurs(cx, ea, eb, (k, w)));
                }
                note(&mut r, k, w);
                proof {
                    assert forall|p: int| 0 <= p < r@.len() implies occurs(
                        cx,
                        ea,
                        eb,
                        #[trigger] r@[p],
                    ) && 1 <= r@[p].1 <= 512 by {
                        if r@[p] != (k, w) {
                            assert(r0.contains(r@[p]));
                            let q = choose|q: int| 0 <= q < r0.len() && r0[q] == r@[p];
                            let _ = r0[q];
                        }
                    }
                }
            }
        }
        i = i + 1;
    }
    r
}

/// The bits of all the symbols together, unless they are more than `most`.
fn bits_within(keys: &Vec<(u64, u16)>, most: u32) -> (r: Option<u32>)
    requires
        most <= 24,
        forall|i: int| #![trigger keys@[i]] 0 <= i < keys@.len() ==> 1 <= keys@[i].1 <= 512,
    ensures
        r matches Some(b) ==> b <= most && b == total(keys@),
        r is None ==> total(keys@) > most,
{
    let mut s: u32 = 0;
    let mut i: usize = 0;
    assert(keys@.skip(0) =~= keys@);
    while i < keys.len()
        invariant
            i <= keys@.len(),
            s <= most <= 24,
            s + total(keys@.skip(i as int)) == total(keys@),
            forall|j: int| #![trigger keys@[j]] 0 <= j < keys@.len() ==> 1 <= keys@[j].1 <= 512,
        decreases keys@.len() - i,
    {
        proof {
            assert(keys@.skip(i as int).skip(1) =~= keys@.skip(i + 1));
            assert(keys@.skip(i as int)[0] == keys@[i as int]);
        }
        let w: u32 = keys[i].1 as u32;
        s = s + w;
        if s > most {
            return None;
        }
        i = i + 1;
    }
    Some(s)
}

/// The values of a list of assignments.
spec fn seen(r: Seq<(u64, BitVec)>) -> Seq<Seq<bool>> {
    Seq::new(r.len(), |i: int| r[i].1@)
}

/// The values of the symbols in one case: the bits of `case` one after the other, or all zeros,
/// all ones, and then random ones.
fn assignment(keys: &Vec<(u64, u16)>, exhaustive: bool, case: u64, rng: &mut Rng) -> (r: Vec<
    (u64, BitVec),
>)
    requires
        forall|i: int| #![trigger keys@[i]] 0 <= i < keys@.len() ==> 1 <= keys@[i].1 <= 512,
    ensures
        r@.len() == keys@.len(),
        forall|i: int|
            #![trigger r@[i]]
            0 <= i < r@.len() ==> r@[i].0 == keys@[i].0 && r@[i].1@.len() == keys@[i].1,
        exhaustive ==> seen(r@) == split(case as int, keys@) && *final(rng) == *old(rng),
        !exhaustive && case <= 1 ==> seen(r@) == same(keys@, case == 1) && *final(rng) == *old(rng),
        !exhaustive && case > 1 ==> seen(r@) == random::values_from(
            old(rng).state,
            widths_of(keys@),
        ) && final(rng).state == random::state_after(old(rng).state, widths_of(keys@)),
{
    let mut r: Vec<(u64, BitVec)> = Vec::with_capacity(keys.len());
    let mut rest: u64 = case;
    let ghost s = rng.state;
    let ghost rng0 = *rng;
    let ghost pw = widths_of(keys@);
    proof {
        assert(keys@.skip(0) =~= keys@);
        assert(seen(r@) + split(case as int, keys@) =~= split(case as int, keys@));
        assert(pw.take(0) =~= Seq::<usize>::empty());
        assert(seen(r@) =~= Seq::<Seq<bool>>::empty());
    }
    let mut i: usize = 0;
    while i < keys.len()
        invariant
            i <= keys@.len(),
            r@.len() == i,
            pw == widths_of(keys@),
            forall|j: int| #![trigger keys@[j]] 0 <= j < keys@.len() ==> 1 <= keys@[j].1 <= 512,
            forall|j: int|
                #![trigger r@[j]]
                0 <= j < i ==> r@[j].0 == keys@[j].0 && r@[j].1@.len() == keys@[j].1,
            exhaustive || case <= 1 ==> *rng == rng0,
            exhaustive ==> seen(r@) + split(rest as int, keys@.skip(i as int)) == split(
                case as int,
                keys@,
            ),
            !exhaustive && case <= 1 ==> forall|j: int|
                0 <= j < i ==> (#[trigger] r@[j]).1@ == same(keys@, case == 1)[j],
            !exhaustive && case > 1 ==> seen(r@) == random::values_from(s, pw.take(i as int))
                && rng.state == random::state_after(s, pw.take(i as int)),
        decreases keys@.len() - i,
    {
        let (k, w) = keys[i];
        let ghost r0 = r@;
        let ghost rest0 = rest;
        proof {
            let _ = keys@[i as int];
            assert(keys@.skip(i as int).skip(1) =~= keys@.skip(i + 1));
            assert(keys@.skip(i as int)[0] == keys@[i as int]);
            let t = pw.take(i + 1);
            assert(t.drop_last() =~= pw.take(i as int));
            assert(t.last() == pw[i as int]);
        }
        let v = if exhaustive {
            let v = BitVec::from_u64(w as usize, rest);
            let mut q: u16 = 0;
            proof {
                bits::lemma_pow2_zero();
            }
            while q < w
                invariant
                    q <= w,
                    rest as int == rest0 as int / (pow2(q as nat) as int),
                decreases w - q,
            {
                proof {
                    bits::lemma_pow2_step(q as nat);
                    vstd::arithmetic::div_mod::lemma_div_denominator(
                        rest0 as int,
                        pow2(q as nat) as int,
                        2,
                    );
                }
                rest = rest / 2;
                q = q + 1;
            }
            v
        } else if case == 0 {
            BitVec::fill(w as usize, false)
        } else if case == 1 {
            BitVec::fill(w as usize, true)
        } else {
            biased(rng, Width { bits: w })
        };
        let ghost x = v@;
        r.push((k, v));
        proof {
            assert(seen(r@) =~= seen(r0).push(x));
            if exhaustive {
                let tail = split(rest as int, keys@.skip(i + 1));
                assert(split(rest0 as int, keys@.skip(i as int)) =~= seq![x] + tail);
                assert(seen(r@) + tail =~= seen(r0) + (seq![x] + tail));
            }
        }
        i = i + 1;
    }
    proof {
        assert(pw.take(i as int) =~= pw);
        if exhaustive {
            assert(seen(r@) + split(rest as int, keys@.skip(i as int)) =~= seen(r@));
        } else if case <= 1 {
            assert(seen(r@) =~= same(keys@, case == 1));
        }
    }
    r
}

/// Compares `a` and `b` at every assignment of their symbols, or at sampled ones.
fn compare(
    cx: &Context,
    a: Expr,
    b: Expr,
    cfg: &RewriteCheckConfig,
    rng: &mut Rng,
    report: &mut RewriteReport,
) -> (out: Result<(), RewriteFailure>)
    requires
        cx.wf(),
        cx.has(a),
        cx.has(b),
    ensures
        out matches Err(f) ==> f is Differs && failure_ok(f, cx),
        final(report).applications == old(report).applications,
        final(report).exhaustive <= budget::more(old(report).exhaustive, 1),
        out is Err ==> final(report).exhaustive == old(report).exhaustive,
        // What passes was compared everywhere, or at the points there are.
        out is Ok ==> exists|l: Seq<(u64, u16)>| #[trigger]
            compared(cx, a, b, *cfg, l, old(rng).state) && final(report).exhaustive == (if total(l)
                <= most_of(*cfg) {
                budget::more(old(report).exhaustive, 1)
            } else {
                old(report).exhaustive
            }) && final(report).points == sum_of(
                old(report).points,
                if total(l) <= most_of(*cfg) {
                    pow2(total(l))
                } else {
                    2 + cfg.samples as nat
                },
            ),
{
    let keys = symbols(cx, a.id, b.id);
    let most: u32 = if cfg.max_exhaustive_bits < 24 {
        cfg.max_exhaustive_bits
    } else {
        24
    };
    let few = bits_within(&keys, most);
    let ghost l = keys@;
    let ghost s = rng.state;
    let ghost pw = widths_of(l);
    proof {
        if let Some(b) = few {
            bits::lemma_pow2_le(b as nat, 24);
            vstd::arithmetic::power2::lemma2_to64();
            vstd::bits::lemma_u64_shl_is_mul(1, b as u64);
        }
    }
    let (exhaustive, cases): (bool, u64) = match few {
        Some(b) => (true, 1u64 << b),
        None => (false, 2 + cfg.samples as u64),
    };
    let mut case: u64 = 0;
    while case < cases
        invariant
            cx.wf(),
            cx.has(a),
            cx.has(b),
            report.applications == old(report).applications,
            report.exhaustive == old(report).exhaustive,
            report.points == sum_of(old(report).points, case as nat),
            forall|i: int| #![trigger keys@[i]] 0 <= i < keys@.len() ==> 1 <= keys@[i].1 <= 512,
            l == keys@,
            pw == widths_of(l),
            symbols_of(cx, a, b, l),
            case <= cases,
            exhaustive ==> forall|c: int|
                0 <= c < case ==> agrees_at(cx, a, b, l, #[trigger] split(c, l)),
            !exhaustive && case > 0 ==> agrees_at(cx, a, b, l, same(l, false)),
            !exhaustive && case > 1 ==> agrees_at(cx, a, b, l, same(l, true)),
            !exhaustive ==> forall|k: nat|
                k + 2 < case + 0 ==> agrees_at(
                    cx,
                    a,
                    b,
                    l,
                    #[trigger] random::values_from(random::nth_state(s, pw, k), pw),
                ),
            !exhaustive && case <= 2 ==> rng.state == s,
            !exhaustive && case > 2 ==> rng.state == random::nth_state(s, pw, (case - 2) as nat),
        decreases cases - case,
    {
        let ghost s1 = rng.state;
        let vals = assignment(&keys, exhaustive, case, rng);
        match (cx.eval(a, &vals), cx.eval(b, &vals)) {
            (Ok(x), Ok(y)) => {
                report.points = bump(report.points);
                if !x.same(&y) {
                    return Err(
                        RewriteFailure::Differs { node: a, result: b, assignment: vals },
                    );
                }
            },
            _ => {},
        }
        proof {
            assert forall|i: int| #![trigger vals@[i]] 0 <= i < l.len() implies vals@[i].0
                == l[i].0 && vals@[i].1@ == seen(vals@)[i] && seen(vals@)[i].len() == l[i].1 by {}
            lemma_evaluated(cx, a, b, l, vals@, seen(vals@));
            if !exhaustive && case >= 2 {
                assert(s1 == random::nth_state(s, pw, (case - 2) as nat));
                assert(random::nth_state(s, pw, (case - 1) as nat) == random::state_after(s1, pw));
            }
        }
        case = case + 1;
    }
    proof {
        if exhaustive {
            assert forall|env: Env| #[trigger] cx.value(a, env) == cx.value(b, env) by {
                let c = lemma_case(l, env);
                assert(agrees_at(cx, a, b, l, split(c, l)));
            }
        }
        assert(compared(cx, a, b, *cfg, l, s));
    }
    if exhaustive {
        report.exhaustive = bump(report.exhaustive);
    }
    Ok(())
}

/// A count with more added, up to the largest there is.
pub open spec fn sum_of(a: u64, b: nat) -> u64 {
    if a + b <= u64::MAX {
        (a + b) as u64
    } else {
        u64::MAX
    }
}

/// What the reply of a host rewrite at `n` comes to: a result to go on with, none where it does
/// not apply or gives the node back, or a failure.
pub fn after_reply(cx: &Context, n: Expr, reply: Option<Expr>) -> (out: Result<
    Option<Expr>,
    RewriteFailure,
>)
    requires
        cx.wf(),
        cx.has(n),
    ensures
        out == (match reply {
            None => Ok::<Option<Expr>, RewriteFailure>(None),
            Some(e) => if !cx.has(e) {
                Err(RewriteFailure::ForeignExpr { node: n })
            } else if e == n {
                Ok(None)
            } else if cx.width_of(n) != cx.width_of(e) {
                Err(RewriteFailure::Width { node: n, result: e })
            } else {
                Ok(Some(e))
            },
        }),
{
    let result = match reply {
        Some(e) => e,
        None => {
            return Ok(None);
        },
    };
    if !cx.contains(result) {
        return Err(RewriteFailure::ForeignExpr { node: n });
    }
    if result == n {
        return Ok(None);
    }
    if cx.wid(n.id) != cx.wid(result.id) {
        return Err(RewriteFailure::Width { node: n, result });
    }
    Ok(Some(result))
}

/// Whether a result goes on to be compared, from what the rewrite replies when it is asked again:
/// the same result (or nothing), and smaller than its node.
pub fn after_again(cx: &Context, n: Expr, first: Expr, again: Option<Expr>) -> (out: Result<
    (),
    RewriteFailure,
>)
    requires
        cx.wf(),
        cx.has(n),
        cx.has(first),
    ensures
        out == (match again {
            Some(second) if second != first => Err::<(), RewriteFailure>(
                RewriteFailure::Nondeterministic { node: n, first, second },
            ),
            _ => if accept::ground_order(cx.tm()[n.id as int], cx.tm()[first.id as int]) != Some(
                true,
            ) {
                Err(RewriteFailure::NotSmaller { node: n, result: first })
            } else {
                Ok(())
            },
        }),
{
    if let Some(second) = again {
        if second != first {
            return Err(RewriteFailure::Nondeterministic { node: n, first, second });
        }
    }
    if cx.ground_greater(n.id, first.id) != Some(true) {
        return Err(RewriteFailure::NotSmaller { node: n, result: first });
    }
    Ok(())
}

/// An application that passed: the context, the node and its result, and the symbols of both.
pub struct Application {
    /// The context.
    pub cx: Context,
    /// The node.
    pub node: Expr,
    /// The rewrite's result.
    pub result: Expr,
    /// The symbols below them.
    pub symbols: Seq<(u64, u16)>,
}

/// The result has the node's width, is smaller, and was compared with it.
pub open(crate) spec fn passes(a: Application, cfg: RewriteCheckConfig) -> bool {
    &&& a.cx.has(a.node)
    &&& a.cx.has(a.result)
    &&& a.result != a.node
    &&& a.cx.width_of(a.result) == a.cx.width_of(a.node)
    &&& accept::ground_order(
        a.cx.tm()[a.node.id as int],
        a.cx.tm()[a.result.id as int],
    ) == Some(true)
    &&& exists|s: u64| #[trigger] compared(&a.cx, a.node, a.result, cfg, a.symbols, s)
}

/// Every assignment was compared.
pub open spec fn in_full(a: Application, cfg: RewriteCheckConfig) -> bool {
    total(a.symbols) <= most_of(cfg)
}

/// The two agree at the first `m` points drawn in a row from state `s`.
pub open(crate) spec fn agrees_where_drawn(a: Application, s: u64, m: nat) -> bool {
    let pw = widths_of(a.symbols);
    forall|k: nat|
        k < m ==> agrees_at(
            &a.cx,
            a.node,
            a.result,
            a.symbols,
            #[trigger] random::values_from(random::nth_state(s, pw, k), pw),
        )
}

/// How many of them were compared at every assignment.
pub open spec fn count_full(l: Seq<Application>, cfg: RewriteCheckConfig) -> nat
    decreases l.len(),
{
    if l.len() == 0 {
        0
    } else {
        count_full(l.drop_last(), cfg) + if in_full(l.last(), cfg) {
            1nat
        } else {
            0nat
        }
    }
}

/// At how many points all of them were compared.
pub open spec fn count_points(l: Seq<Application>, cfg: RewriteCheckConfig) -> nat
    decreases l.len(),
{
    if l.len() == 0 {
        0
    } else {
        count_points(l.drop_last(), cfg) + if in_full(l.last(), cfg) {
            pow2(total(l.last().symbols))
        } else {
            2 + cfg.samples as nat
        }
    }
}

/// The report counts these applications, each of which passed.
pub open(crate) spec fn reports(
    report: RewriteReport,
    l: Seq<Application>,
    cfg: RewriteCheckConfig,
) -> bool {
    &&& report.applications == sum_of(0, l.len())
    &&& report.exhaustive == sum_of(0, count_full(l, cfg))
    &&& report.points == sum_of(0, count_points(l, cfg))
    &&& forall|k: int| 0 <= k < l.len() ==> passes(#[trigger] l[k], cfg)
}

/// What the rewrite replied at `n`, in a context grown from `c0` to `c1`, is nothing, the node, or
/// among the applications that passed.
pub open(crate) spec fn answered<R: Rewrite + ?Sized>(
    r: &R,
    c0: &Context,
    c1: &Context,
    n: Expr,
    l: Seq<Application>,
) -> bool {
    exists|c: Context, reply: Option<Expr>| #[trigger]
        r.replies(&c, n, reply) && c.grew(c0) && c1.grew(&c) && (reply is None || reply == Some(n)
            || exists|k: int|
            0 <= k < l.len() && (#[trigger] l[k]).node == n && reply == Some(l[k].result)
                && l[k].cx.grew(&c) && c1.grew(&l[k].cx))
}

/// The applications `m` begin with those of `l`.
pub open spec fn more_of(l: Seq<Application>, m: Seq<Application>) -> bool {
    l.len() <= m.len() && forall|k: int| 0 <= k < l.len() ==> #[trigger] m[k] == l[k]
}

/// The rewrite was asked at every node of `root`.
pub open(crate) spec fn asked<R: Rewrite + ?Sized>(
    r: &R,
    c0: &Context,
    c1: &Context,
    root: Expr,
    l: Seq<Application>,
) -> bool {
    forall|i: int|
        #![trigger reach::reach(c0.nodes@, root.id as int).contains(i)]
        0 <= i <= root.id && reach::reach(c0.nodes@, root.id as int).contains(i) ==> answered(
            r,
            c0,
            c1,
            Expr { id: i as u32 },
            l,
        )
}

proof fn lemma_answered_grow<R: Rewrite + ?Sized>(
    r: &R,
    c0: &Context,
    c1: &Context,
    c2: &Context,
    n: Expr,
    l: Seq<Application>,
    m: Seq<Application>,
)
    requires
        answered(r, c0, c1, n, l),
        c2.grew(c1),
        l.len() <= m.len(),
        forall|k: int| 0 <= k < l.len() ==> #[trigger] m[k] == l[k],
    ensures
        answered(r, c0, c2, n, m),
{
    let (c, reply) = choose|c: Context, reply: Option<Expr>| #[trigger]
        r.replies(&c, n, reply) && c.grew(c0) && c1.grew(&c) && (reply is None || reply == Some(n)
            || exists|k: int|
            0 <= k < l.len() && (#[trigger] l[k]).node == n && reply == Some(l[k].result)
                && l[k].cx.grew(&c) && c1.grew(&l[k].cx));
    if reply is Some && reply != Some(n) {
        let k = choose|k: int|
            0 <= k < l.len() && (#[trigger] l[k]).node == n && reply == Some(l[k].result)
                && l[k].cx.grew(&c) && c1.grew(&l[k].cx);
        assert(m[k] == l[k]);
        assert(c2.grew(&m[k].cx));
    }
    assert(c2.grew(&c));
}

proof fn lemma_asked_grow<R: Rewrite + ?Sized>(
    r: &R,
    c0: &Context,
    c1: &Context,
    c2: &Context,
    root: Expr,
    l: Seq<Application>,
    m: Seq<Application>,
)
    requires
        asked(r, c0, c1, root, l),
        c2.grew(c1),
        l.len() <= m.len(),
        forall|k: int| 0 <= k < l.len() ==> #[trigger] m[k] == l[k],
    ensures
        asked(r, c0, c2, root, m),
{
    assert forall|i: int|
        #![trigger reach::reach(c0.nodes@, root.id as int).contains(i)]
        0 <= i <= root.id && reach::reach(c0.nodes@, root.id as int).contains(i) implies answered(
        r,
        c0,
        c2,
        Expr { id: i as u32 },
        m,
    ) by {
        lemma_answered_grow(r, c0, c1, c2, Expr { id: i as u32 }, l, m);
    }
}

/// One more application.
proof fn lemma_reports(
    r0: RewriteReport,
    r1: RewriteReport,
    l: Seq<Application>,
    x: Application,
    cfg: RewriteCheckConfig,
)
    requires
        reports(r0, l, cfg),
        passes(x, cfg),
        r1.applications == sum_of(r0.applications, 1),
        r1.exhaustive == (if in_full(x, cfg) {
            sum_of(r0.exhaustive, 1)
        } else {
            r0.exhaustive
        }),
        r1.points == sum_of(
            r0.points,
            if in_full(x, cfg) {
                pow2(total(x.symbols))
            } else {
                2 + cfg.samples as nat
            },
        ),
    ensures
        reports(r1, l.push(x), cfg),
{
    let m = l.push(x);
    assert(m.drop_last() =~= l);
    assert(m.last() == x);
    assert forall|k: int| 0 <= k < m.len() implies passes(#[trigger] m[k], cfg) by {
        if k < l.len() {
            assert(m[k] == l[k]);
        }
    }
}

/// Applies `r` at every node of `root` and checks every result.
fn check_root<R: Rewrite + ?Sized>(
    cx: &mut Context,
    r: &R,
    root: Expr,
    cfg: &RewriteCheckConfig,
    rng: &mut Rng,
    report: &mut RewriteReport,
    apps: &mut Ghost<Seq<Application>>,
) -> (out: Result<(), RewriteFailure>)
    requires
        old(cx).wf(),
        old(cx).has(root),
        reports(*old(report), old(apps)@, *cfg),
    ensures
        final(cx).wf(),
        final(cx).grew(old(cx)),
        out matches Err(f) ==> of_context(f) && failure_ok(f, final(cx)),
        final(report).applications >= old(report).applications,
        old(report).exhaustive <= old(report).applications ==> final(report).exhaustive
            <= final(report).applications,
        more_of(old(apps)@, final(apps)@),
        out is Ok ==> reports(*final(report), final(apps)@, *cfg) && asked(
            r,
            old(cx),
            final(cx),
            root,
            final(apps)@,
        ),
{
    let marks = cx.marks(root.id);
    let ghost cx0 = *cx;
    proof {
        reach::lemma_reach_top(cx.nodes@, root.id as int);
    }
    let mut i: u32 = 0;
    while i <= root.id
        invariant
            old(report).exhaustive <= old(report).applications ==> report.exhaustive
                <= report.applications,
            cx.wf(),
            cx.grew(old(cx)),
            cx0 == *old(cx),
            old(cx).has(root),
            root.id < u32::MAX,
            i <= root.id + 1,
            marks@.len() == root.id + 1,
            forall|j: int|
                0 <= j <= root.id ==> #[trigger] marks@[j] == reach::reach(
                    cx0.nodes@,
                    root.id as int,
                ).contains(j),
            report.applications >= old(report).applications,
            more_of(old(apps)@, apps@),
            reports(*report, apps@, *cfg),
            forall|j: int|
                #![trigger marks@[j]]
                0 <= j < i && marks@[j] ==> answered(r, &cx0, cx, Expr { id: j as u32 }, apps@),
        decreases root.id + 1 - i,
    {
        let n = Expr { id: i };
        let ghost at = i as int;
        let ghost c0 = *cx;
        let ghost apps0 = apps@;
        let ghost report0 = *report;
        i = i + 1;
        if !marks[n.id as usize] {
            continue;
        }
        let reply = apply_standalone(cx, r, n);
        let ghost c1 = *cx;
        proof {
            assert forall|j: int| #![trigger marks@[j]] 0 <= j < at && marks@[j] implies answered(
                r,
                &cx0,
                &c1,
                Expr { id: j as u32 },
                apps0,
            ) by {
                lemma_answered_grow(r, &cx0, &c0, &c1, Expr { id: j as u32 }, apps0, apps0);
            }
        }
        let result = match after_reply(cx, n, reply)? {
            Some(e) => e,
            None => {
                proof {
                    assert(r.replies(&c0, n, reply));
                    assert(answered(r, &cx0, &c1, n, apps0));
                }
                continue;
            },
        };
        let again = apply_standalone(cx, r, n);
        after_again(cx, n, result, again)?;
        let ghost state = rng.state;
        if let Err(f) = compare(cx, n, result, cfg, rng, report) {
            return Err(f);
        }
        let ghost report1 = *report;
        report.applications = bump(report.applications);
        let ghost l = choose|l: Seq<(u64, u16)>| #[trigger]
                compared(cx, n, result, *cfg, l, state) && report1.exhaustive == (if total(l)
                    <= most_of(*cfg) {
                    budget::more(report0.exhaustive, 1)
                } else {
                    report0.exhaustive
                }) && report1.points == sum_of(
                    report0.points,
                    if total(l) <= most_of(*cfg) {
                        pow2(total(l))
                    } else {
                        2 + cfg.samples as nat
                    },
                );
        let ghost x = Application { cx: *cx, node: n, result, symbols: l };
        *apps = Ghost(apps0.push(x));
        proof {
            assert(cx.tm()[n.id as int] == c1.tm()[n.id as int]);
            assert(cx.tm()[result.id as int] == c1.tm()[result.id as int]);
            assert(compared(&x.cx, x.node, x.result, *cfg, x.symbols, state));
            assert(passes(x, *cfg));
            lemma_reports(report0, *report, apps0, x, *cfg);
            assert(apps@[apps0.len() as int] == x);
            assert(r.replies(&c0, n, reply));
            assert(answered(r, &cx0, cx, n, apps@));
            assert forall|j: int| #![trigger marks@[j]] 0 <= j < at && marks@[j] implies answered(
                r,
                &cx0,
                cx,
                Expr { id: j as u32 },
                apps@,
            ) by {
                lemma_answered_grow(r, &cx0, &c1, cx, Expr { id: j as u32 }, apps0, apps@);
            }
        }
    }
    proof {
        assert forall|j: int|
            #![trigger reach::reach(cx0.nodes@, root.id as int).contains(j)]
            0 <= j <= root.id && reach::reach(cx0.nodes@, root.id as int).contains(j) implies answered(
            r,
            &cx0,
            cx,
            Expr { id: j as u32 },
            apps@,
        ) by {
            assert(marks@[j]);
        }
    }
    Ok(())
}

/// The state once the constants among `all` with an index below `i` were drawn.
pub open spec fn const_state(nodes: Seq<Node>, all: Set<int>, s: u64, i: int) -> u64
    decreases i,
{
    if i <= 0 {
        s
    } else {
        let t = const_state(nodes, all, s, i - 1);
        if all.contains(i - 1) && nodes[i - 1] is Const {
            eval::advanced(t, random::biased_steps(t))
        } else {
            t
        }
    }
}

/// The value of node `i` with the constants among `all` replaced by drawn ones.
pub open spec fn varied_value(
    nodes: Seq<Node>,
    terms: Seq<Term>,
    all: Set<int>,
    s: u64,
    i: int,
    env: Env,
) -> Seq<bool>
    decreases i, 1nat,
{
    match nodes[i] {
        Node::Const(_) => random::biased_value(
            const_state(nodes, all, s, i),
            term::twidth(terms[i]),
        ),
        _ => rebuild::value_over(
            nodes[i],
            term::twidth(terms[i]),
            term::value(terms[i], env),
            varied_kids(nodes, terms, all, s, i, env),
        ),
    }
}

/// The values of its operands.
pub open spec fn varied_kids(
    nodes: Seq<Node>,
    terms: Seq<Term>,
    all: Set<int>,
    s: u64,
    i: int,
    env: Env,
) -> Seq<Seq<bool>>
    decreases i, 0nat,
{
    Seq::new(
        expr::kids(nodes[i]).len(),
        |j: int|
            if 0 <= expr::kids(nodes[i])[j] < i {
                varied_value(nodes, terms, all, s, expr::kids(nodes[i])[j] as int, env)
            } else {
                Seq::empty()
            },
    )
}

/// Node `e` is `root` of `c0` with its constants replaced by those drawn from state `s`.
pub open(crate) spec fn varies(c0: &Context, root: Expr, c: &Context, e: Expr, s: u64) -> bool {
    c.has(e) && forall|env: Env| #[trigger]
        c.value(e, env) == varied_value(
            c0.nodes@,
            c0.tm(),
            reach::reach(c0.nodes@, root.id as int),
            s,
            root.id as int,
            env,
        )
}

/// The state after one variation.
pub open(crate) spec fn varied_state(c0: &Context, root: Expr, s: u64) -> u64 {
    const_state(c0.nodes@, reach::reach(c0.nodes@, root.id as int), s, root.id + 1)
}

/// The state from which the `k`-th variation is drawn.
pub open(crate) spec fn nth_varied(c0: &Context, root: Expr, s: u64, k: nat) -> u64
    decreases k,
{
    if k == 0 {
        s
    } else {
        varied_state(c0, root, nth_varied(c0, root, s, (k - 1) as nat))
    }
}

/// There is a constant below `root`.
pub open(crate) spec fn has_consts(cx: &Context, root: Expr) -> bool {
    exists|i: int| #[trigger]
        reach::reach(cx.nodes@, root.id as int).contains(i) && 0 <= i <= root.id && cx.nodes@[i] is Const
}

/// The arena is all but full.
pub open(crate) spec fn crowded(cx: &Context) -> bool {
    cx.count() + 3 > cx.limit()
}

/// `root` with other constants: each constant replaced by a boundary-biased value of its width
/// (rebuilt, so folded where it folds).
fn variant(cx: &mut Context, root: Expr, rng: &mut Rng) -> (r: Option<Expr>)
    requires
        old(cx).wf(),
        old(cx).has(root),
    ensures
        final(cx).wf(),
        final(cx).grew(old(cx)),
        r matches Some(e) ==> final(cx).has(e) && final(cx).width_of(e) == old(cx).width_of(root),
        // Its constants are drawn; only a full arena is in the way.
        r matches Some(e) ==> varies(old(cx), root, final(cx), e, old(rng).state)
            && final(rng).state == varied_state(old(cx), root, old(rng).state),
        r is None ==> crowded(final(cx)),
{
    let engine = Engine::bare();
    let ghost s = rng.state;
    let ghost all = reach::reach(cx.nodes@, root.id as int);
    proof {
        reach::lemma_reach_top(cx.nodes@, root.id as int);
        reveal(budget::unhurried);
    }
    let marks = cx.marks(root.id);
    let mut runner = Runner::alone(cx, &engine.inner);
    let ghost cx0 = *cx;
    let ghost runner0 = runner;
    let mut to: Vec<u32> = Vec::new();
    let mut i: u32 = 0;
    while i <= root.id
        invariant
            cx0.wf(),
            cx0 == *old(cx),
            runner::went(&runner, cx, &runner0, &cx0),
            cx0.has(root),
            root.id < u32::MAX,
            i <= root.id + 1,
            marks@.len() == root.id + 1,
            to@.len() == i,
            forall|j: int|
                #![trigger to@[j]]
                0 <= j < i ==> to@[j] < cx.n() && cx.w(to@[j] as int) == cx0.w(j),
            runner0.meter.limit.new_nodes == u64::MAX,
            runner0.meter.spent == budget::Budget::all(0),
            runner0.meter.timeless(),
            !runner0.meter.expired,
            all == reach::reach(cx0.nodes@, root.id as int),
            forall|j: int| 0 <= j <= root.id ==> #[trigger] marks@[j] == all.contains(j),
            rng.state == const_state(cx0.nodes@, all, s, i as int),
            forall|j: int|
                #![trigger to@[j]]
                0 <= j < i && all.contains(j) ==> forall|env: Env| #[trigger]
                    cx.val(to@[j] as int, env) == varied_value(
                        cx0.nodes@,
                        cx0.tm(),
                        all,
                        s,
                        j,
                        env,
                    ),
        decreases root.id + 1 - i,
    {
        let ghost cx1 = *cx;
        let ghost mut taken: Seq<u32> = Seq::empty();
        let ghost to0 = to@;
        proof {
            assert(cx1.tm()[i as int] == cx0.tm()[i as int]);
            assert(cx1.nodes@[i as int] == cx0.nodes@[i as int]);
            assert(cx.ok_at(i as int));
            assert(cx0.ok_at(i as int));
        }
        let m: u32 = if !marks[i as usize] {
            i
        } else if cx.is_const(i) {
            let v = biased(rng, Width { bits: cx.wid(i) });
            match runner.mk_const(cx, &v) {
                Ok(k) => k,
                Err(_) => {
                    return None;
                },
            }
        } else {
            let kids = cx.node(i).children();
            let mut ks: Vec<u32> = Vec::new();
            let mut k: usize = 0;
            while k < kids.len()
                invariant
                    cx1 == *cx,
                    cx.wf(),
                    cx.grew(&cx0),
                    i < cx0.n(),
                    to@.len() == i,
                    forall|j: int|
                        #![trigger to@[j]]
                        0 <= j < i ==> to@[j] < cx.n() && cx.w(to@[j] as int) == cx0.w(j),
                    kids@ == expr::kids(cx.nodes@[i as int]),
                    forall|q: int| 0 <= q < kids@.len() ==> #[trigger] kids@[q] < i,
                    k <= kids@.len(),
                    ks@.len() == k,
                    forall|q: int|
                        #![trigger ks@[q]]
                        0 <= q < k ==> ks@[q] < cx.n() && cx.w(ks@[q] as int) == cx.w(
                            kids@[q] as int,
                        ) && ks@[q] == to@[kids@[q] as int],
                decreases kids@.len() - k,
            {
                let c = kids[k];
                proof {
                    let _ = to@[c as int];
                    assert(cx.tm()[c as int] == cx0.tm()[c as int]);
                }
                ks.push(to[c as usize]);
                k = k + 1;
            }
            proof {
                taken = ks@;
            }
            match runner.rebuild(cx, i, &ks) {
                Ok(x) => x,
                Err(_) => {
                    return None;
                },
            }
        };
        to.push(m);
        proof {
            assert forall|j: int| #![trigger to@[j]] 0 <= j < i + 1 && all.contains(j) implies forall|
                env: Env,
            | #[trigger]
                cx.val(to@[j] as int, env) == varied_value(
                    cx0.nodes@,
                    cx0.tm(),
                    all,
                    s,
                    j,
                    env,
                ) by {
                if j < i {
                    assert(to@[j] == to0[j]);
                    assert(cx.tm()[to0[j] as int] == cx1.tm()[to0[j] as int]);
                    assert forall|env: Env| #[trigger] cx.val(to@[j] as int, env) == varied_value(
                        cx0.nodes@,
                        cx0.tm(),
                        all,
                        s,
                        j,
                        env,
                    ) by {
                        assert(cx1.val(to0[j] as int, env) == cx.val(to@[j] as int, env));
                    }
                } else if !(cx0.nodes@[i as int] is Const) {
                    let ks = expr::kids(cx0.nodes@[i as int]);
                    assert forall|env: Env| #[trigger] cx.val(to@[j] as int, env) == varied_value(
                        cx0.nodes@,
                        cx0.tm(),
                        all,
                        s,
                        j,
                        env,
                    ) by {
                        let vs = varied_kids(cx0.nodes@, cx0.tm(), all, s, i as int, env);
                        assert(rebuild::values_at(cx1.tm(), taken, env) =~= vs) by {
                            assert forall|q: int| 0 <= q < ks.len() implies #[trigger] vs[q]
                                == term::value(cx1.tm()[taken[q] as int], env) by {
                                assert(reach::feeds(cx0.nodes@, ks[q] as int, i as int)) by {
                                    assert(expr::kids(cx0.nodes@[i as int])[q] == ks[q]);
                                }
                                reach::lemma_reach_kid(
                                    cx0.nodes@,
                                    root.id as int,
                                    i as int,
                                    ks[q] as int,
                                );
                                assert(taken[q] == to0[ks[q] as int]);
                                assert(cx1.val(to0[ks[q] as int] as int, env) == vs[q]);
                            }
                        }
                    }
                }
            }
            assert forall|j: int| #![trigger to@[j]] 0 <= j < i + 1 implies to@[j] < cx.n() && cx.w(
                to@[j] as int,
            ) == cx0.w(j) by {
                if j < i {
                    assert(to@[j] == to0[j]);
                    assert(cx.tm()[to0[j] as int] == cx1.tm()[to0[j] as int]);
                } else {
                    assert(cx.tm()[i as int] == cx0.tm()[i as int]);
                }
            }
        }
        i = i + 1;
    }
    let _ = to[root.id as usize];
    Some(Expr { id: to[root.id as usize] })
}

/// Whether there is a constant below `root`.
fn has_constant(cx: &Context, root: Expr) -> (b: bool)
    requires
        cx.wf(),
        cx.has(root),
    ensures
        b == exists|i: int| #[trigger]
            reach::reach(cx.nodes@, root.id as int).contains(i) && 0 <= i <= root.id
                && cx.nodes@[i] is Const,
{
    let marks = cx.marks(root.id);
    let mut i: u32 = 0;
    while i <= root.id
        invariant
            cx.wf(),
            cx.has(root),
            root.id < u32::MAX,
            i <= root.id + 1,
            marks@.len() == root.id + 1,
            forall|j: int|
                0 <= j <= root.id ==> #[trigger] marks@[j] == reach::reach(
                    cx.nodes@,
                    root.id as int,
                ).contains(j),
            forall|j: int| 0 <= j < i && #[trigger] marks@[j] ==> !(cx.nodes@[j] is Const),
        decreases root.id + 1 - i,
    {
        if marks[i as usize] && cx.is_const(i) {
            assert(reach::reach(cx.nodes@, root.id as int).contains(i as int));
            return true;
        }
        i = i + 1;
    }
    proof {
        assert forall|j: int| #[trigger]
            reach::reach(cx.nodes@, root.id as int).contains(j) && 0 <= j <= root.id implies !(
        cx.nodes@[j] is Const) by {
            assert(marks@[j]);
        }
    }
    false
}

/// Growing changes nothing of the variations of `root`.
proof fn lemma_same_varied(c0: &Context, c1: &Context, root: Expr)
    requires
        c0.wf(),
        c1.wf(),
        c1.extends(c0),
        c0.has(root),
    ensures
        forall|s: u64| #[trigger] varied_state(c1, root, s) == varied_state(c0, root, s),
        forall|c: &Context, e: Expr, s: u64| #[trigger]
            varies(c1, root, c, e, s) ==> varies(c0, root, c, e, s),
{
    let all = reach::reach(c0.nodes@, root.id as int);
    lemma_same_reach(c0, c1, root.id as int);
    assert forall|s: u64| #[trigger] varied_state(c1, root, s) == varied_state(c0, root, s) by {
        lemma_same_state(c0, c1, all, s, root.id + 1);
    }
    assert forall|c: &Context, e: Expr, s: u64| #[trigger] varies(c1, root, c, e, s) implies varies(
        c0,
        root,
        c,
        e,
        s,
    ) by {
        assert forall|env: Env| #[trigger] c.value(e, env) == varied_value(
            c0.nodes@,
            c0.tm(),
            all,
            s,
            root.id as int,
            env,
        ) by {
            lemma_same_value_varied(c0, c1, all, s, root.id as int, env);
        }
    }
}

proof fn lemma_same_reach(c0: &Context, c1: &Context, i: int)
    requires
        c0.wf(),
        c1.extends(c0),
        0 <= i < c0.n(),
    ensures
        reach::reach(c1.nodes@, i) == reach::reach(c0.nodes@, i),
    decreases i,
{
    assert(c0.ok_at(i));
    assert(c1.nodes@[i] == c0.nodes@[i]);
    let ks = expr::kids(c0.nodes@[i]);
    if ks.len() > 0 && ks[0] < i {
        lemma_same_reach(c0, c1, ks[0] as int);
    }
    if ks.len() > 1 && ks[1] < i {
        lemma_same_reach(c0, c1, ks[1] as int);
    }
    if ks.len() > 2 && ks[2] < i {
        lemma_same_reach(c0, c1, ks[2] as int);
    }
}

proof fn lemma_same_state(c0: &Context, c1: &Context, all: Set<int>, s: u64, i: int)
    requires
        c1.extends(c0),
        i <= c0.n(),
    ensures
        const_state(c1.nodes@, all, s, i) == const_state(c0.nodes@, all, s, i),
    decreases i,
{
    if i > 0 {
        lemma_same_state(c0, c1, all, s, i - 1);
        assert(c1.nodes@[i - 1] == c0.nodes@[i - 1]);
    }
}

proof fn lemma_same_value_varied(c0: &Context, c1: &Context, all: Set<int>, s: u64, i: int, env: Env)
    requires
        c0.wf(),
        c1.extends(c0),
        0 <= i < c0.n(),
    ensures
        varied_value(c1.nodes@, c1.tm(), all, s, i, env) == varied_value(
            c0.nodes@,
            c0.tm(),
            all,
            s,
            i,
            env,
        ),
    decreases i,
{
    assert(c1.nodes@[i] == c0.nodes@[i]);
    assert(c1.tm()[i] == c0.tm()[i]);
    lemma_same_state(c0, c1, all, s, i);
    let ks = expr::kids(c0.nodes@[i]);
    assert forall|j: int| 0 <= j < ks.len() && 0 <= #[trigger] ks[j] < i implies varied_value(
        c1.nodes@,
        c1.tm(),
        all,
        s,
        ks[j] as int,
        env,
    ) == varied_value(c0.nodes@, c0.tm(), all, s, ks[j] as int, env) by {
        lemma_same_value_varied(c0, c1, all, s, ks[j] as int, env);
    }
    assert(varied_kids(c1.nodes@, c1.tm(), all, s, i, env) =~= varied_kids(
        c0.nodes@,
        c0.tm(),
        all,
        s,
        i,
        env,
    ));
}

/// `n` times `root` with other constants; none where it has no constant.
fn variants(cx: &mut Context, root: Expr, n: u32, rng: &mut Rng) -> (r: Vec<Expr>)
    requires
        old(cx).wf(),
        old(cx).has(root),
    ensures
        final(cx).wf(),
        final(cx).grew(old(cx)),
        r@.len() <= n,
        forall|j: int|
            0 <= j < r@.len() ==> final(cx).has(#[trigger] r@[j]) && final(cx).width_of(r@[j])
                == old(cx).width_of(root),
        !has_consts(old(cx), root) ==> r@.len() == 0 && *final(cx) == *old(cx) && *final(rng)
            == *old(rng),
        // Unless the arena is full, there are as many as asked for, drawn one after the other.
        has_consts(old(cx), root) && !crowded(final(cx)) ==> r@.len() == n && forall|j: int|
            0 <= j < n ==> varies(
                old(cx),
                root,
                final(cx),
                #[trigger] r@[j],
                nth_varied(old(cx), root, old(rng).state, j as nat),
            ),
{
    let ghost s = rng.state;
    let mut r: Vec<Expr> = Vec::new();
    if !has_constant(cx, root) {
        return r;
    }
    let mut k: u32 = 0;
    while k < n
        invariant
            cx.wf(),
            cx.grew(old(cx)),
            old(cx).has(root),
            k <= n,
            old(cx).wf(),
            r@.len() <= k,
            crowded(cx) || (r@.len() == k && rng.state == nth_varied(old(cx), root, s, k as nat)
                && forall|j: int|
                0 <= j < k ==> varies(
                    old(cx),
                    root,
                    cx,
                    #[trigger] r@[j],
                    nth_varied(old(cx), root, s, j as nat),
                )),
            forall|j: int|
                0 <= j < r@.len() ==> cx.has(#[trigger] r@[j]) && cx.width_of(r@[j]) == old(cx).width_of(root),
        decreases n - k,
    {
        let ghost cx1 = *cx;
        let ghost r0 = r@;
        let ghost s1 = rng.state;
        proof {
            lemma_same_varied(old(cx), cx, root);
        }
        if let Some(e) = variant(cx, root, rng) {
            r.push(e);
        }
        proof {
            if !crowded(cx) {
                assert(r@.len() == k + 1);
                assert forall|j: int| 0 <= j < k + 1 implies varies(
                    old(cx),
                    root,
                    cx,
                    #[trigger] r@[j],
                    nth_varied(old(cx), root, s, j as nat),
                ) by {
                    if j < k {
                        assert(r@[j] == r0[j]);
                        let st = nth_varied(old(cx), root, s, j as nat);
                        assert(varies(old(cx), root, &cx1, r0[j], st));
                        assert(cx.tm()[r0[j].id as int] == cx1.tm()[r0[j].id as int]);
                        assert forall|env: Env| #[trigger] cx.value(r@[j], env) == varied_value(
                            old(cx).nodes@,
                            old(cx).tm(),
                            reach::reach(old(cx).nodes@, root.id as int),
                            st,
                            root.id as int,
                            env,
                        ) by {
                            assert(cx1.value(r0[j], env) == cx.value(r@[j], env));
                        }
                    } else {
                        assert(varies(&cx1, root, cx, r@[j], s1));
                    }
                }
            }
            assert(cx1.tm()[root.id as int] == old(cx).tm()[root.id as int]);
            assert forall|j: int| 0 <= j < r@.len() implies cx.has(#[trigger] r@[j]) && cx.width_of(
                r@[j],
            ) == old(cx).width_of(root) by {
                if j < r0.len() {
                    assert(r@[j] == r0[j]);
                    assert(cx.tm()[r0[j].id as int] == cx1.tm()[r0[j].id as int]);
                }
            }
        }
        k = k + 1;
    }
    r
}

/// Every context of the inputs is consistent and holds its root.
pub open(crate) spec fn inputs_ok(inputs: Seq<RewriteInput>) -> bool {
    forall|i: int, j: int|
        #![trigger inputs[i].read@[j]]
        0 <= i < inputs.len() && 0 <= j < inputs[i].read@.len() ==> inputs[i].read@[j].0.wf()
            && inputs[i].read@[j].0.has(inputs[i].read@[j].1)
}

/// The rewrite was asked at every node of a root, in a context grown from `c0`.
pub open(crate) spec fn asked_from<R: Rewrite + ?Sized>(
    r: &R,
    c0: &Context,
    c1: &Context,
    root: Expr,
    l: Seq<Application>,
) -> bool {
    exists|c: Context| #[trigger] asked(r, &c, c1, root, l) && c.grew(c0)
}

/// The rewrite was asked at every node of a root, and of its variations: as many as asked for, unless
/// the arena is full, each with its constants drawn after those before.
pub open(crate) spec fn probes<R: Rewrite + ?Sized>(
    r: &R,
    c0: &Context,
    c: &Context,
    c1: &Context,
    root: Expr,
    list: Seq<Expr>,
    s: u64,
    cfg: RewriteCheckConfig,
    l: Seq<Application>,
) -> bool {
    &&& asked_from(r, c0, c1, root, l)
    &&& c.grew(c0)
    &&& forall|k: int| 0 <= k < list.len() ==> asked_from(r, c, c1, #[trigger] list[k], l)
    &&& has_consts(c0, root) && !crowded(c) ==> list.len() == cfg.variants && forall|k: int|
        0 <= k < cfg.variants ==> varies(
            c0,
            root,
            c,
            #[trigger] list[k],
            nth_varied(c0, root, s, k as nat),
        )
}

/// So it was, for some state of the generator.
pub open(crate) spec fn probed<R: Rewrite + ?Sized>(
    r: &R,
    c0: &Context,
    c1: &Context,
    root: Expr,
    cfg: RewriteCheckConfig,
    l: Seq<Application>,
) -> bool {
    exists|c: Context, list: Seq<Expr>, s: u64| #[trigger]
        probes(r, c0, &c, c1, root, list, s, cfg, l)
}

proof fn lemma_asked_on<R: Rewrite + ?Sized>(
    r: &R,
    c0: &Context,
    c1: &Context,
    c2: &Context,
    root: Expr,
    l: Seq<Application>,
    m: Seq<Application>,
)
    requires
        asked_from(r, c0, c1, root, l),
        c2.grew(c1),
        more_of(l, m),
    ensures
        asked_from(r, c0, c2, root, m),
{
    let c = choose|c: Context| #[trigger] asked(r, &c, c1, root, l) && c.grew(c0);
    lemma_asked_grow(r, &c, c1, c2, root, l, m);
}

proof fn lemma_probed<R: Rewrite + ?Sized>(
    r: &R,
    c0: &Context,
    c1: &Context,
    root: Expr,
    cfg: RewriteCheckConfig,
    l: Seq<Application>,
    m: Seq<Application>,
)
    requires
        probed(r, c0, c1, root, cfg, l),
        more_of(l, m),
    ensures
        probed(r, c0, c1, root, cfg, m),
{
    let (c, list, s) = choose|c: Context, list: Seq<Expr>, s: u64| #[trigger]
        probes(r, c0, &c, c1, root, list, s, cfg, l);
    lemma_asked_on(r, c0, c1, c1, root, l, m);
    assert forall|k: int| 0 <= k < list.len() implies asked_from(r, &c, c1, #[trigger] list[k], m) by {
        lemma_asked_on(r, &c, c1, c1, list[k], l, m);
    }
    assert(probes(r, c0, &c, c1, root, list, s, cfg, m));
}

/// Checks host rewrite `r` at one root and on variations of it.
fn check_input<R: Rewrite + ?Sized>(
    cx: &mut Context,
    r: &R,
    root: Expr,
    cfg: &RewriteCheckConfig,
    rng: &mut Rng,
    report: &mut RewriteReport,
    apps: &mut Ghost<Seq<Application>>,
) -> (out: Result<(), RewriteFailure>)
    requires
        old(cx).wf(),
        old(cx).has(root),
        reports(*old(report), old(apps)@, *cfg),
    ensures
        final(cx).wf(),
        final(cx).grew(old(cx)),
        out matches Err(f) ==> of_context(f) && failure_ok(f, final(cx)),
        final(report).applications >= old(report).applications,
        old(report).exhaustive <= old(report).applications ==> final(report).exhaustive
            <= final(report).applications,
        more_of(old(apps)@, final(apps)@),
        out is Ok ==> reports(*final(report), final(apps)@, *cfg) && probed(
            r,
            old(cx),
            final(cx),
            root,
            *cfg,
            final(apps)@,
        ),
{
    let ghost s = rng.state;
    let list = variants(cx, root, cfg.variants, rng);
    let ghost c0 = *cx;
    check_root(cx, r, root, cfg, rng, report, apps)?;
    let mut k: usize = 0;
    while k < list.len()
        invariant
            cx.wf(),
            cx.grew(old(cx)),
            old(cx).has(root),
            k <= list@.len(),
            more_of(old(apps)@, apps@),
            reports(*report, apps@, *cfg),
            asked(r, &c0, cx, root, apps@),
            c0.grew(old(cx)),
            cx.grew(&c0),
            forall|j: int| 0 <= j < k ==> asked_from(r, &c0, cx, #[trigger] list@[j], apps@),
            forall|j: int| 0 <= j < list@.len() ==> cx.has(#[trigger] list@[j]),
            report.applications >= old(report).applications,
            old(report).exhaustive <= old(report).applications ==> report.exhaustive
                <= report.applications,
        decreases list@.len() - k,
    {
        let ghost c1 = *cx;
        let ghost apps1 = apps@;
        check_root(cx, r, list[k], cfg, rng, report, apps)?;
        proof {
            lemma_asked_grow(r, &c0, &c1, cx, root, apps1, apps@);
            assert forall|j: int| 0 <= j < k + 1 implies asked_from(
                r,
                &c0,
                cx,
                #[trigger] list@[j],
                apps@,
            ) by {
                if j < k {
                    lemma_asked_on(r, &c0, &c1, cx, list@[j], apps1, apps@);
                } else {
                    assert(asked(r, &c1, cx, list@[j], apps@));
                }
            }
        }
        k = k + 1;
    }
    proof {
        assert(asked_from(r, old(cx), cx, root, apps@));
        assert(probes(r, old(cx), &c0, cx, root, list@, s, *cfg, apps@));
    }
    Ok(())
}

/// A failure says what is so, of one of the contexts where it speaks of one.
pub open(crate) spec fn found(f: RewriteFailure, before: Seq<RewriteInput>, after: Seq<RewriteInput>) -> bool {
    match f {
        RewriteFailure::Unparsable { input } => input < before.len() && before[input as int].read@.len()
            == 0,
        RewriteFailure::NeverApplied => forall|i: int|
            #![trigger before[i]]
            0 <= i < before.len() ==> before[i].read@.len() > 0,
        _ => exists|i: int, j: int|
            #![trigger after[i].read@[j]]
            0 <= i < after.len() && 0 <= j < after[i].read@.len() && failure_ok(
                f,
                &after[i].read@[j].0,
            ),
    }
}

/// The rewrite was asked at every node of every input, at every width.
pub open(crate) spec fn all_asked<R: Rewrite + ?Sized>(
    r: &R,
    before: Seq<RewriteInput>,
    after: Seq<RewriteInput>,
    cfg: RewriteCheckConfig,
    l: Seq<Application>,
) -> bool {
    forall|i: int, j: int|
        #![trigger after[i].read@[j]]
        0 <= i < before.len() && 0 <= j < before[i].read@.len() ==> probed(
            r,
            &before[i].read@[j].0,
            &after[i].read@[j].0,
            before[i].read@[j].1,
            cfg,
            l,
        )
}

/// Every reply at every node of every input, and of its variations, is nothing, the node, or a result
/// that passed, and the report counts these.
pub open(crate) spec fn examined<R: Rewrite + ?Sized>(
    r: &R,
    before: Seq<RewriteInput>,
    after: Seq<RewriteInput>,
    cfg: RewriteCheckConfig,
    report: RewriteReport,
) -> bool {
    exists|apps: Seq<Application>| #[trigger]
        reports(report, apps, cfg) && all_asked(r, before, after, cfg, apps)
}

/// Checks host rewrite `r` on `inputs`: a report of what was covered, or the first failure
/// found. The evidence a host gathers in its own test suite.
///
/// Arbitrary code cannot be proved the way a rule is, so the checker tests it where it applies:
/// - at every node of every input, at every width the input was read at, and on variations of
///   it with other constants;
/// - each result compared with its node at every assignment of their symbols when those have
///   few bits, and at boundary-biased random points otherwise;
/// - what the engine relies on: the result has the node's width, the same node gives the
///   same result, and the result is smaller in the termination order (else the engine never
///   commits it).
///
/// It covers only the shapes the inputs exercise: give inputs where the rewrite applies and
/// where it nearly does.
pub fn rewrite<R: Rewrite + ?Sized>(r: &R, inputs: &mut Vec<RewriteInput>, cfg: &RewriteCheckConfig) -> (out:
    Result<RewriteReport, RewriteFailure>)
    requires
        inputs_ok(old(inputs)@),
    ensures
        inputs_ok(final(inputs)@),
        final(inputs)@.len() == old(inputs)@.len(),
        out matches Ok(report) ==> report.applications > 0 && report.exhaustive
            <= report.applications && forall|i: int|
            #![trigger old(inputs)@[i]]
            0 <= i < old(inputs)@.len() ==> old(inputs)@[i].read@.len() > 0,
        out matches Err(f) ==> found(f, old(inputs)@, final(inputs)@),
        old(inputs)@.len() == 0 ==> out matches Err(RewriteFailure::NeverApplied),
        // Every reply at every node of every input is nothing, the node, or a result that passed,
        // and these are what is reported.
        out matches Ok(report) ==> examined(r, old(inputs)@, final(inputs)@, *cfg, report),
{
    let mut report = RewriteReport { applications: 0, points: 0, exhaustive: 0 };
    let mut rng = Rng { state: cfg.seed };
    let mut apps: Ghost<Seq<Application>> = Ghost(Seq::empty());
    let mut out: Vec<RewriteInput> = Vec::new();
    let ghost inputs0 = inputs@;
    let n: usize = inputs.len();
    let mut failure: Option<RewriteFailure> = None;
    let mut i: usize = 0;
    while i < n
        invariant
            i <= n == inputs0.len(),
            inputs0 == old(inputs)@,
            inputs@ == inputs0.skip(i as int),
            out@.len() == i,
            inputs_ok(inputs0),
            inputs_ok(out@),
            i == 0 ==> failure is None && report.applications == 0,
            report.exhaustive <= report.applications,
            failure matches Some(f) ==> found(f, inputs0, out@) && !(f is NeverApplied),
            failure is None ==> forall|k: int|
                #![trigger inputs0[k]]
                0 <= k < i ==> inputs0[k].read@.len() > 0,
            failure is None ==> reports(report, apps@, *cfg) && all_asked(
                r,
                inputs0.take(i as int),
                out@,
                *cfg,
                apps@,
            ),
            forall|k: int| 0 <= k < i ==> (#[trigger] out@[k]).read@.len() == inputs0[k].read@.len(),
        decreases n - i,
    {
        let ghost rest = inputs@;
        let RewriteInput { text, read } = inputs.remove(0);
        proof {
            assert(inputs@ =~= inputs0.skip(i + 1));
            assert(rest[0] == inputs0[i as int]);
            assert(read == inputs0[i as int].read);
        }
        let ghost read0 = read@;
        let mut read = read;
        let m: usize = read.len();
        if m == 0 && failure.is_none() {
            failure = Some(RewriteFailure::Unparsable { input: i });
        }
        let mut back: Vec<(Context, Expr)> = Vec::new();
        let ghost done = failure;
        let ghost apps0 = apps@;
        let ghost mut mine: int = -1;
        let mut j: usize = 0;
        while j < m
            invariant
                i < inputs0.len(),
                inputs_ok(inputs0),
                inputs0[i as int].read@ == read0,
                m == read0.len(),
                j <= m,
                read@ == read0.skip(j as int),
                back@.len() == j,
                forall|k: int|
                    #![trigger back@[k]]
                    0 <= k < j ==> back@[k].0.wf() && back@[k].0.has(back@[k].1),
                mine < j,
                report.exhaustive <= report.applications,
                mine < 0 ==> failure == done,
                more_of(apps0, apps@),
                failure is None ==> reports(report, apps@, *cfg) && forall|k: int|
                    #![trigger back@[k]]
                    0 <= k < j ==> probed(
                        r,
                        &read0[k].0,
                        &back@[k].0,
                        read0[k].1,
                        *cfg,
                        apps@,
                    ),
                mine >= 0 ==> done is None && (failure matches Some(f) && of_context(f)
                    && failure_ok(f, &back@[mine].0)),
            decreases m - j,
        {
            let ghost r1 = read@;
            let (cx, root) = read.remove(0);
            let mut cx = cx;
            proof {
                assert(read@ =~= read0.skip(j + 1));
                assert(r1[0] == read0[j as int]);
                assert(inputs0[i as int].read@[j as int] == (cx, root));
            }
            let ghost before = cx;
            let ghost apps1 = apps@;
            if failure.is_none() {
                match check_input(&mut cx, r, root, cfg, &mut rng, &mut report, &mut apps) {
                    Ok(_) => {},
                    Err(f) => {
                        failure = Some(f);
                        proof {
                            mine = j as int;
                        }
                    },
                }
            }
            let ghost b0 = back@;
            back.push((cx, root));
            proof {
                assert forall|k: int| #![trigger back@[k]] 0 <= k < j + 1 implies back@[k].0.wf()
                    && back@[k].0.has(back@[k].1) by {
                    if k < j {
                        assert(back@[k] == b0[k]);
                    }
                }
                if 0 <= mine < j {
                    assert(back@[mine] == b0[mine]);
                }
                if failure is None {
                    assert forall|k: int| #![trigger back@[k]] 0 <= k < j + 1 implies probed(
                        r,
                        &read0[k].0,
                        &back@[k].0,
                        read0[k].1,
                        *cfg,
                        apps@,
                    ) by {
                        if k < j {
                            assert(back@[k] == b0[k]);
                            lemma_probed(
                                r,
                                &read0[k].0,
                                &back@[k].0,
                                read0[k].1,
                                *cfg,
                                apps1,
                                apps@,
                            );
                        }
                    }
                }
            }
            j = j + 1;
        }
        let ghost out0 = out@;
        out.push(RewriteInput { text, read: back });
        proof {
            assert forall|p: int, q: int|
                #![trigger out@[p].read@[q]]
                0 <= p < out@.len() && 0 <= q < out@[p].read@.len() implies out@[p].read@[q].0.wf()
                && out@[p].read@[q].0.has(out@[p].read@[q].1) by {
                if p < i {
                    assert(out@[p] == out0[p]);
                    let _ = out0[p].read@[q];
                } else {
                    let _ = back@[q];
                }
            }
            if failure is None {
                let b1 = inputs0.take(i + 1);
                assert forall|p: int, q: int|
                    #![trigger out@[p].read@[q]]
                    0 <= p < b1.len() && 0 <= q < b1[p].read@.len() implies probed(
                    r,
                    &b1[p].read@[q].0,
                    &out@[p].read@[q].0,
                    b1[p].read@[q].1,
                    *cfg,
                    apps@,
                ) by {
                    if p < i {
                        assert(out@[p] == out0[p]);
                        assert(inputs0.take(i as int)[p] == b1[p]);
                        let _ = out0[p].read@[q];
                        lemma_probed(
                            r,
                            &b1[p].read@[q].0,
                            &out0[p].read@[q].0,
                            b1[p].read@[q].1,
                            *cfg,
                            apps0,
                            apps@,
                        );
                    } else {
                        let _ = back@[q];
                    }
                }
            }
            if failure is Some {
                let f = failure->Some_0;
                if mine >= 0 {
                    assert(out@[i as int].read@[mine] == back@[mine]);
                    assert(found(f, inputs0, out@));
                } else if of_context(f) && done is Some {
                    if exists|p: int, q: int|
                        #![trigger out0[p].read@[q]]
                        0 <= p < out0.len() && 0 <= q < out0[p].read@.len() && failure_ok(
                            f,
                            &out0[p].read@[q].0,
                        ) {
                        let (p, q) = choose|p: int, q: int|
                            #![trigger out0[p].read@[q]]
                            0 <= p < out0.len() && 0 <= q < out0[p].read@.len() && failure_ok(
                                f,
                                &out0[p].read@[q].0,
                            );
                        assert(out@[p].read@[q] == out0[p].read@[q]);
                    }
                }
            }
        }
        i = i + 1;
    }
    proof {
        assert(inputs0.take(i as int) =~= inputs0);
        if failure is None {
            assert(reports(report, apps@, *cfg));
            assert(all_asked(r, old(inputs)@, out@, *cfg, apps@));
        }
    }
    *inputs = out;
    match failure {
        Some(f) => Err(f),
        None => if report.applications == 0 {
            Err(RewriteFailure::NeverApplied)
        } else {
            proof {
                let found = apps@;
                assert(reports(report, found, *cfg));
                assert(all_asked(r, old(inputs)@, inputs@, *cfg, found));
                assert(examined(r, old(inputs)@, inputs@, *cfg, report));
            }
            Ok(report)
        },
    }
}

} // verus!
