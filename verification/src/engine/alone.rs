//! Simplifying one root in a context of its own, and putting the answers together.

use vstd::prelude::*;
use crate::engine::runner;
use crate::engine::walk;
use crate::term;
use crate::engine::results;
use crate::engine::budget::{Budget, Exhausted};
use crate::engine::run;
use crate::facts::store;
use crate::engine::link::Engine;
use crate::engine::run::{Each, End, RootOutcome, Run};
use crate::engine::stats::Stats;
use crate::expr::{Context, Error, Expr};
use crate::facts::store::{Assumptions, Constraint};
use crate::term::Env;

verus! {

/// What came of a root simplified alone: its result in a context that holds nothing else.
pub struct Alone {
    /// The context.
    pub cx: Context,
    /// The outcome, with the result in that context.
    pub outcome: RootOutcome,
    /// Counters.
    pub stats: Stats,
}

/// The copies of the first `n` constraints say of `cx` what the constraints say of `src`.
spec fn copies(items: Seq<Constraint>, made: Seq<Constraint>, n: int, src: &Context, cx: &Context) -> bool {
    &&& made.len() == n
    &&& forall|k: int|
        #![trigger made[k]]
        0 <= k < n ==> made[k].expr < cx.n() && made[k].known.has(cx.w(made[k].expr as int))
            && made[k].known.zero@ == items[k].known.zero@ && made[k].known.one@
            == items[k].known.one@ && forall|env: Env| #[trigger]
            cx.val(made[k].expr as int, env) == src.val(items[k].expr as int, env)
}

/// Copies stay copies as the context grows.
proof fn lemma_copies_grow(
    items: Seq<Constraint>,
    made: Seq<Constraint>,
    n: int,
    src: &Context,
    cx0: &Context,
    cx1: &Context,
)
    requires
        copies(items, made, n, src, cx0),
        cx1.extends(cx0),
    ensures
        copies(items, made, n, src, cx1),
{
    assert forall|k: int| #![trigger made[k]] 0 <= k < n implies made[k].expr < cx1.n()
        && made[k].known.has(cx1.w(made[k].expr as int)) && made[k].known.zero@
        == items[k].known.zero@ && made[k].known.one@ == items[k].known.one@ && forall|env: Env|
         #[trigger]
        cx1.val(made[k].expr as int, env) == src.val(items[k].expr as int, env) by {
        assert(cx1.tm()[made[k].expr as int] == cx0.tm()[made[k].expr as int]);
        assert forall|env: Env| #[trigger]
            cx1.val(made[k].expr as int, env) == src.val(items[k].expr as int, env) by {
            let _ = cx0.val(made[k].expr as int, env);
        }
    }
}

/// The copies hold where the constraints do.
proof fn lemma_copies_hold(
    items: Seq<Constraint>,
    made: Seq<Constraint>,
    src: &Context,
    cx: &Context,
    k: int,
    env: Env,
)
    requires
        copies(items, made, items.len() as int, src, cx),
        store::constraint_holds(items, src.tm(), k, env),
    ensures
        store::constraint_holds(made, cx.tm(), k, env),
{
    if 0 <= k < made.len() {
        let _ = made[k];
        let v = cx.val(made[k].expr as int, env);
        assert(v == src.val(items[k].expr as int, env));
        assert(items[k].known.admits(v));
        assert(made[k].known.admits(v));
    }
}

/// How many assumptions there are.
pub open spec fn assumed(a: Option<&Assumptions>) -> int {
    match a {
        Some(x) => x.items@.len() as int,
        None => 0,
    }
}

/// There is room for the copies of a root and the assumptions, for the nodes that a run may make,
/// and for the copy of its result.
pub open(crate) spec fn room_alone(src: &Context, each: Each<'_>) -> bool {
    2 * (2 * src.count() * (1 + assumed(each.assumptions)) + each.per_root.new_nodes) <= src.limit()
}

/// What [`Engine::run_alone`] returns is what a run on the copy `x` of the root, alone in a
/// context `c0` that it grows to `c`, came to: `o`.
pub open(crate) spec fn as_run(
    engine: &Engine,
    src: &Context,
    root: Expr,
    each: Each<'_>,
    a: Alone,
    c0: Context,
    c: Context,
    x: Expr,
    o: RootOutcome,
    used: Option<&Assumptions>,
) -> bool {
    &&& c.extends(&c0)
    &&& c0.limit() == src.limit()
    &&& c.count() - c0.count() == a.stats.new_nodes
    &&& forall|env: Env| #[trigger] c0.value(x, env) == src.value(root, env)
    &&& forall|env: Env| #[trigger] a.cx.value(a.outcome.expr, env) == c.value(o.expr, env)
    &&& a.outcome == (RootOutcome { expr: a.outcome.expr, ..o })
    &&& c.answered(&c0, o, x, used, engine.sound(), each.admission)
    &&& used is Some <==> each.assumptions is Some
    &&& run::roots_counted(a.stats, seq![x], seq![o])
    &&& exists|b: Budget| #[trigger] run::spent_as(a.stats, b) && b.within(each.per_root)
    &&& o.end matches End::BudgetTerminated(e) ==> run::cut_short(
        e,
        each.per_root,
        a.stats,
        None,
        &c,
    )
    &&& each.hooks is None && engine.nothing_held_back(a.stats) && a.stats.rounds
        < walk::rounds_of(engine.plan_of()) && o.end is Completed ==> engine.at_rest(&c, o.expr)
    &&& runner::refuses_every(each.hooks) ==> a.stats.rewrites == 0 && o.expr == x && !o.changed
    &&& each.per_root.node_visits == 0 && engine.phase_count() > 0 ==> run::all_stopped(
        seq![o],
        seq![x],
        Exhausted::NodeVisits,
    ) && run::spent_as(a.stats, Budget::all(0))
}

impl Engine {
    /// Simplifies one root of `src` as a call of [`run`](Self::run) with that root alone would,
    /// in a context of its own (with the assumptions copied too): the outcome, with its result
    /// alone in a context of its own, and the counters.
    pub fn run_alone(&self, src: &Context, root: Expr, each: &Each<'_>) -> (r: Result<Alone, Error>)
        requires
            self.wf(),
            src.wf(),
        ensures
            !src.has(root) ==> r is Err && r->Err_0 == Error::BadHandle,
            // With room for the copies and for what the run makes, it succeeds.
            src.has(root) && (each.assumptions matches Some(a) ==> src.speaks_of(a))
                && room_alone(src, *each) ==> r is Ok,
            r is Ok ==> (each.assumptions matches Some(a) ==> src.speaks_of(a)),
            r matches Ok(a) ==> {
                &&& src.has(root)
                &&& a.cx.wf()
                &&& a.cx.made(a.outcome.expr, src.width_of(root))
                &&& self.sound() ==> forall|env: Env|
                    a.outcome.relies_on.admits(run::run_hyp(each.assumptions, src.tm()), env)
                        ==> #[trigger] a.cx.value(a.outcome.expr, env) == src.value(root, env)
            },
            r matches Ok(a) ==> exists|
                c0: Context,
                c: Context,
                x: Expr,
                o: RootOutcome,
                used: Option<&Assumptions>,
            | #[trigger]
                as_run(self, src, root, *each, a, c0, c, x, o, used),
    {
        let mut cx = Context::with_max_nodes(src.max_nodes);
        let ghost fresh = cx;
        proof {
            let s = src.count();
            let k = assumed(each.assumptions);
            assert(2 * s <= 2 * s * (1 + k)) by (nonlinear_arith)
                requires
                    s >= 0,
                    k >= 0,
            ;
        }
        let x = cx.import(src, root)?;
        let ghost cx1 = cx;
        let mut copy = Assumptions::new();
        let ghost items: Seq<Constraint> = match each.assumptions {
            Some(a) => a.items@,
            None => seq![],
        };
        if let Some(a) = each.assumptions {
            let mut k: usize = 0;
            while k < a.items.len()
                invariant
                    src.wf(),
                    src.has(root),
                    cx.wf(),
                    cx.grew(&fresh),
                    cx.extends(&cx1),
                    a.items@ == items,
                    k <= items.len(),
                    copies(items, copy.items@, k as int, src, &cx),
                    cx.limit() == src.limit(),
                    cx.count() <= 2 * src.count() * (1 + k),
                    forall|j: int|
                        #![trigger items[j]]
                        0 <= j < k ==> items[j].expr < src.n() && items[j].known.has(
                            src.w(items[j].expr as int),
                        ),
                    src.speaks_of(a) ==> forall|j: int|
                        #![trigger items[j]]
                        0 <= j < items.len() ==> items[j].expr < src.n() && items[j].known.has(
                            src.w(items[j].expr as int),
                        ),
                    each.assumptions == Some(a),
                decreases items.len() - k,
            {
                let ghost cx2 = cx;
                let ghost made0 = copy.items@;
                let c = &a.items[k];
                proof {
                    let _ = items[k as int];
                    let s = src.count();
                    assert(2 * s * (1 + (k + 1)) == 2 * s * (1 + k) + 2 * s) by (nonlinear_arith);
                    assert(2 * s * (1 + (k + 1)) <= 2 * s * (1 + items.len())) by (nonlinear_arith)
                        requires
                            k + 1 <= items.len(),
                            s >= 0,
                    ;
                }
                let e = cx.import(src, Expr { id: c.expr })?;
                proof {
                    lemma_copies_grow(items, made0, k as int, src, &cx2, &cx);
                }
                let known = c.known.dup();
                match copy.assume_known(&cx, e, known) {
                    Ok(_) => {},
                    Err(x) => {
                        return Err(x);
                    },
                }
                proof {
                    let made = copy.items@;
                    assert forall|j: int| #![trigger made[j]] 0 <= j < k + 1 implies made[j].expr
                        < cx.n() && made[j].known.has(cx.w(made[j].expr as int))
                        && made[j].known.zero@ == items[j].known.zero@ && made[j].known.one@
                        == items[j].known.one@ && forall|env: Env| #[trigger]
                        cx.val(made[j].expr as int, env) == src.val(items[j].expr as int, env) by {
                        if j < k {
                            assert(made[j] == made0[j]);
                        } else {
                            assert forall|env: Env| #[trigger]
                                cx.val(made[j].expr as int, env) == src.val(
                                    items[j].expr as int,
                                    env,
                                ) by {
                                assert(cx.value(e, env) == src.value(
                                    Expr { id: items[j].expr },
                                    env,
                                ));
                            }
                        }
                    }
                }
                k = k + 1;
            }
        }
        proof {
            if each.assumptions is None {
                assert(copies(items, copy.items@, 0, src, &cx));
            }
            results::lemma_memo_right_grow(fresh.memo, fresh.tm(), cx.tm());
        }
        let mut options = Run::default().with_per_call(each.per_root).with_admission(each.admission);
        if each.assumptions.is_some() {
            options = options.with_assumptions(&copy);
        }
        options.hooks = each.hooks;
        let ghost cx3 = cx;
        let ghost used = options.assumptions;
        let ghost host = options.hooks;
        assert(host == each.hooks);
        let roots: [Expr; 1] = [x];
        let out = self.run(&mut cx, &roots, options)?;
        let mut outcome = out.roots[0];
        let ghost o = outcome;
        proof {
            assert(roots@[0] == x);
            assert(out.roots@[0] == o);
            assert(cx.tm()[x.id as int] == cx3.tm()[x.id as int]);
            assert(cx3.tm()[x.id as int] == cx1.tm()[x.id as int]);
            lemma_copies_grow(items, copy.items@, items.len() as int, src, &cx3, &cx);
        }
        proof {
            assert(cx3.count() <= 2 * src.count() * (1 + assumed(each.assumptions)));
            let b = choose|b: Budget| #[trigger]
                run::spent_as(out.stats, b) && b.within(each.per_root);
            assert(out.stats.new_nodes <= each.per_root.new_nodes);
        }
        let mut small = Context::with_max_nodes(src.max_nodes);
        let e = small.import(&cx, outcome.expr)?;
        outcome.expr = e;
        let r = Alone { cx: small, outcome, stats: out.stats };
        proof {
            if self.sound() {
                assert forall|env: Env|
                    r.outcome.relies_on.admits(run::run_hyp(each.assumptions, src.tm()), env) implies #[trigger] r.cx.value(
                    r.outcome.expr,
                    env,
                ) == src.value(root, env) by {
                    let h = run::run_hyp(used, cx.tm());
                    assert forall|k: int| #[trigger] o.relies_on.uses(k) implies h(k, env) by {
                        assert(r.outcome.relies_on.uses(k));
                        if each.assumptions is Some {
                            lemma_copies_hold(items, copy.items@, src, &cx, k, env);
                        }
                    }
                    assert(o.relies_on.admits(h, env));
                    assert(term::value(cx.tm()[x.id as int], env) == term::value(
                        cx.tm()[o.expr.id as int],
                        env,
                    ));
                    assert(small.value(e, env) == cx.value(o.expr, env));
                    assert(cx1.value(x, env) == src.value(root, env));
                }
            }
            assert forall|env: Env| #[trigger] cx3.value(x, env) == src.value(root, env) by {
                assert(cx1.value(x, env) == src.value(root, env));
            }
            assert forall|env: Env| #[trigger] small.value(e, env) == cx.value(o.expr, env) by {}
            assert(roots@ =~= seq![x]);
            assert(out.roots@ =~= seq![o]);
            assert(cx3.rested_under(self));
            assert(cx3.limit() == src.limit());
            assert(cx3.nothing_kept());
            assert(forall|env: Env| #[trigger] r.cx.value(r.outcome.expr, env) == cx.value(o.expr, env));
            assert(r.outcome == (RootOutcome { expr: r.outcome.expr, ..o }));
            assert(cx.answered(&cx3, o, x, used, self.sound(), each.admission));
            assert(used is Some <==> each.assumptions is Some);
            assert(run::roots_counted(r.stats, seq![x], seq![o]));
            if let End::BudgetTerminated(e) = o.end {
                assert(run::cut_short(e, each.per_root, r.stats, None, &cx));
            }
            if runner::refuses_every(each.hooks) {
                assert(runner::refuses_every(host));
                assert(out.roots@[0].expr == roots@[0]);
                assert(r.stats.rewrites == 0 && o.expr == x && !o.changed);
            }
            if each.per_root.node_visits == 0 && self.phase_count() > 0 {
                assert(run::all_stopped(seq![o], seq![x], Exhausted::NodeVisits));
                assert(run::spent_as(r.stats, Budget::all(0)));
            }
            if each.hooks is None && self.nothing_held_back(r.stats) && r.stats.rounds
                < walk::rounds_of(self.plan_of()) && o.end is Completed {
                assert(self.at_rest(&cx, o.expr));
            }
            assert(as_run(self, src, root, *each, r, cx3, cx, x, o, used));
        }
        Ok(r)
    }
}

/// The distinct roots, in the order they first occur.
pub fn distinct_roots(roots: &[Expr]) -> (r: Vec<Expr>)
    ensures
        forall|i: int| 0 <= i < roots@.len() ==> r@.contains(#[trigger] roots@[i]),
        forall|i: int| 0 <= i < r@.len() ==> roots@.contains(#[trigger] r@[i]),
        forall|i: int, j: int| 0 <= i < j < r@.len() ==> #[trigger] r@[i] != #[trigger] r@[j],
{
    let mut r: Vec<Expr> = Vec::new();
    let mut i: usize = 0;
    while i < roots.len()
        invariant
            i <= roots@.len(),
            forall|k: int| 0 <= k < i ==> r@.contains(#[trigger] roots@[k]),
            forall|k: int| 0 <= k < r@.len() ==> roots@.contains(#[trigger] r@[k]),
            forall|k: int, j: int| 0 <= k < j < r@.len() ==> #[trigger] r@[k] != #[trigger] r@[j],
        decreases roots@.len() - i,
    {
        let e = roots[i];
        let ghost r0 = r@;
        if place_of(&r, e).is_none() {
            r.push(e);
            proof {
                assert forall|k: int| 0 <= k < i + 1 implies r@.contains(#[trigger] roots@[k]) by {
                    if k < i {
                        let j = choose|j: int| 0 <= j < r0.len() && r0[j] == roots@[k];
                        assert(r@[j] == roots@[k]);
                    } else {
                        assert(r@[r0.len() as int] == e);
                    }
                }
                assert forall|k: int| 0 <= k < r@.len() implies roots@.contains(#[trigger] r@[k]) by {
                    if k < r0.len() {
                        assert(r@[k] == r0[k]);
                    } else {
                        assert(roots@[i as int] == e);
                    }
                }
                assert forall|k: int, j: int| 0 <= k < j < r@.len() implies #[trigger] r@[k]
                    != #[trigger] r@[j] by {
                    if j == r0.len() {
                        assert(r@[k] == r0[k]);
                        if r0[k] == e {
                            assert(r0.contains(e));
                        }
                    }
                }
            }
        }
        i = i + 1;
    }
    r
}

/// Where a list holds `e`.
fn place_of(v: &Vec<Expr>, e: Expr) -> (r: Option<usize>)
    ensures
        r matches Some(i) ==> i < v@.len() && v@[i as int] == e,
        r is None ==> !v@.contains(e),
{
    let mut i: usize = 0;
    while i < v.len()
        invariant
            i <= v@.len(),
            forall|j: int| 0 <= j < i ==> v@[j] != e,
        decreases v@.len() - i,
    {
        if v[i] == e {
            return Some(i);
        }
        i = i + 1;
    }
    None
}

/// The answer to a root is what came of it alone, copied into `cx`.
pub open(crate) spec fn answer_of(o: RootOutcome, root: Expr, a: Alone, cx: &Context) -> bool {
    &&& cx.has(o.expr)
    &&& o.changed == (o.expr != root)
    &&& o.end == a.outcome.end
    &&& o.relies_on == a.outcome.relies_on
    &&& forall|env: Env| #[trigger] cx.value(o.expr, env) == a.cx.value(a.outcome.expr, env)
}

/// The answer to a root is what came of one of the distinct roots, the same one.
pub open(crate) spec fn answered_by(
    o: RootOutcome,
    root: Expr,
    distinct: Seq<Expr>,
    done: Seq<Alone>,
    cx: &Context,
) -> bool {
    exists|k: int|
        #![trigger done[k]]
        0 <= k < done.len() && distinct[k] == root && answer_of(o, root, done[k], cx)
}

/// How many nodes the copies of the first `n` results may take.
pub open(crate) spec fn copies_of(done: Seq<Alone>, n: int) -> int
    decreases n,
{
    if n <= 0 {
        0
    } else {
        copies_of(done, n - 1) + 2 * done[n - 1].cx.count()
    }
}

proof fn lemma_copies_of(done: Seq<Alone>, m: int, n: int)
    requires
        0 <= m <= n <= done.len(),
        forall|k: int| #![trigger done[k]] 0 <= k < done.len() ==> done[k].cx.wf(),
    ensures
        copies_of(done, m) <= copies_of(done, n),
    decreases n - m,
{
    if m < n {
        lemma_copies_of(done, m, n - 1);
        let _ = done[n - 1];
    }
}

/// Copies what came of the distinct roots back into `cx`: the answer to each of `roots`.
pub fn answer_each(cx: &mut Context, roots: &[Expr], distinct: &Vec<Expr>, done: &Vec<Alone>) -> (r: Result<
    Vec<RootOutcome>,
    Error,
>)
    requires
        old(cx).wf(),
        distinct@.len() == done@.len(),
        forall|i: int| 0 <= i < roots@.len() ==> distinct@.contains(#[trigger] roots@[i]),
        forall|k: int|
            #![trigger done@[k]]
            0 <= k < done@.len() ==> done@[k].cx.wf() && done@[k].cx.has(done@[k].outcome.expr),
    ensures
        final(cx).wf(),
        final(cx).grew(old(cx)),
        r matches Ok(v) ==> v@.len() == roots@.len() && forall|i: int|
            0 <= i < v@.len() ==> answered_by(#[trigger] v@[i], roots@[i], distinct@, done@, final(cx)),
        r matches Err(e) ==> e == Error::ArenaFull,
        old(cx).count() + copies_of(done@, done@.len() as int) <= old(cx).limit() ==> r is Ok,
{
    let mut answers: Vec<RootOutcome> = Vec::with_capacity(done.len());
    let mut k: usize = 0;
    while k < done.len()
        invariant
            cx.wf(),
            cx.grew(old(cx)),
            k <= done@.len(),
            distinct@.len() == done@.len(),
            answers@.len() == k,
            cx.count() <= old(cx).count() + copies_of(done@, k as int),
            forall|j: int|
                #![trigger done@[j]]
                0 <= j < done@.len() ==> done@[j].cx.wf() && done@[j].cx.has(
                    done@[j].outcome.expr,
                ),
            forall|j: int|
                0 <= j < k ==> answer_of(#[trigger] answers@[j], distinct@[j], done@[j], cx),
        decreases done@.len() - k,
    {
        let ghost cx0 = *cx;
        let ghost a0 = answers@;
        let a = &done[k];
        proof {
            let _ = done@[k as int];
            lemma_copies_of(done@, k + 1, done@.len() as int);
        }
        let e = match cx.import(&a.cx, a.outcome.expr) {
            Ok(e) => e,
            Err(_) => {
                return Err(Error::ArenaFull);
            },
        };
        let mut o = a.outcome;
        o.expr = e;
        o.changed = e != distinct[k];
        answers.push(o);
        proof {
            assert forall|j: int| 0 <= j < k + 1 implies answer_of(
                #[trigger] answers@[j],
                distinct@[j],
                done@[j],
                cx,
            ) by {
                if j < k {
                    assert(answers@[j] == a0[j]);
                    assert(answer_of(a0[j], distinct@[j], done@[j], &cx0));
                    assert(cx.tm()[a0[j].expr.id as int] == cx0.tm()[a0[j].expr.id as int]);
                    assert forall|env: Env| #[trigger]
                        cx.value(a0[j].expr, env) == done@[j].cx.value(
                            done@[j].outcome.expr,
                            env,
                        ) by {
                        assert(cx.value(a0[j].expr, env) == cx0.value(a0[j].expr, env));
                    }
                }
            }
        }
        k = k + 1;
    }
    let mut out: Vec<RootOutcome> = Vec::with_capacity(roots.len());
    let mut i: usize = 0;
    while i < roots.len()
        invariant
            cx.wf(),
            cx.grew(old(cx)),
            i <= roots@.len(),
            distinct@.len() == done@.len(),
            answers@.len() == done@.len(),
            forall|q: int| 0 <= q < roots@.len() ==> distinct@.contains(#[trigger] roots@[q]),
            forall|j: int|
                0 <= j < answers@.len() ==> answer_of(
                    #[trigger] answers@[j],
                    distinct@[j],
                    done@[j],
                    cx,
                ),
            out@.len() == i,
            forall|q: int|
                0 <= q < i ==> answered_by(#[trigger] out@[q], roots@[q], distinct@, done@, cx),
        decreases roots@.len() - i,
    {
        let ghost out0 = out@;
        match place_of(distinct, roots[i]) {
            Some(p) => {
                out.push(answers[p]);
                proof {
                    let _ = done@[p as int];
                    assert(answer_of(answers@[p as int], distinct@[p as int], done@[p as int], cx));
                    assert forall|q: int| 0 <= q < i + 1 implies answered_by(
                        #[trigger] out@[q],
                        roots@[q],
                        distinct@,
                        done@,
                        cx,
                    ) by {
                        if q < i {
                            assert(out@[q] == out0[q]);
                        } else {
                            assert(out@[q] == answers@[p as int]);
                        }
                    }
                }
            },
            None => {
                assert(false);
            },
        }
        i = i + 1;
    }
    Ok(out)
}

} // verus!
