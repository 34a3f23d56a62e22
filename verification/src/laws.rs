//! What holds of the library as a whole.

use vstd::prelude::*;
use crate::check::host;
use crate::check::rules;
use crate::check::tuples;
use crate::engine::accept;
use crate::engine::budget;
use crate::engine::pass::corners;
use crate::engine::pass::layers;
use crate::engine::pass::spoken;
use crate::engine::rest;
use crate::engine::results;
use crate::engine::run;
use crate::engine::walk;
use crate::eval;
use crate::ops;
use crate::rules::meaning;
use crate::term;
use crate::check::host::{Application, RewriteCheckConfig, RewriteReport};
use crate::check::verdict::{CheckConfig, RuleCheck, Verdict};
use crate::engine::budget::{Allowance, Budget};
use crate::engine::link::Engine;
use crate::engine::run::{RootOutcome, Tally};
use crate::engine::stats::{PassKind, Stats};
use crate::expr::{Context, Expr};
use crate::facts::reliance::{Hyp, Reliance};
use crate::ops::BinOp;
use crate::rules::rule::Rule;
use crate::term::{Env, Term};

verus! {

/// The results of engine calls that a context keeps stay right while it grows: whatever is built
/// after them, they have the value of what they replace wherever what they rely on holds.
pub proof fn law_kept_results_stay_right(before: &Context, after: &Context)
    requires
        before.memo_ok(),
        after.grew(before),
    ensures
        after.memo_ok(),
{
    results::lemma_memo_right_grow(before.memo, before.tm(), after.tm());
}

/// Simplifying what a call gave is simplifying what the call was given: where an outcome answers
/// a root, and another outcome answers its result, the second result has the value of the root
/// wherever the constraints that either relies on hold.
pub proof fn law_answers_compose(
    terms: Seq<Term>,
    h: Hyp,
    root: int,
    first: RootOutcome,
    second: RootOutcome,
    env: Env,
)
    requires
        run::answers(first, root, terms, h, true, None),
        run::answers(second, first.expr.id as int, terms, h, true, None),
        first.relies_on.admits(h, env),
        second.relies_on.admits(h, env),
    ensures
        term::value(terms[second.expr.id as int], env) == term::value(terms[root], env),
        term::twidth(terms[second.expr.id as int]) == term::twidth(terms[root]),
{
    let _ = term::value(terms[first.expr.id as int], env);
}

/// An outcome that left its root as it was relies on nothing.
pub proof fn law_unchanged_roots_rely_on_nothing(
    o: RootOutcome,
    root: int,
    terms: Seq<Term>,
    h: Hyp,
    on: bool,
)
    requires
        run::answers(o, root, terms, h, on, None),
        o.expr.id == root,
    ensures
        !o.changed,
        o.relies_on.used == 0,
{
}

/// A sound rule is never refuted.
pub proof fn law_sound_rules_are_never_refuted(c: RuleCheck, r: Rule, cfg: CheckConfig)
    requires
        rules::check_ok(c, r, cfg),
        meaning::rule_sound(r),
    ensures
        !(c.verdict is Unsound),
{
    if let Verdict::Unsound(x) = c.verdict {
        assert(!meaning::sides_agree(r, x.ws(), x.ps()));
    }
}

/// A rule that fails at a width assignment that is checked exhaustively is refuted.
pub proof fn law_small_failures_are_found(
    c: RuleCheck,
    r: Rule,
    cfg: CheckConfig,
    ws: Seq<u16>,
    ps: Seq<Seq<bool>>,
)
    requires
        rules::check_ok(c, r, cfg),
        rules::covered(r, cfg, ws),
        meaning::params_fit(r, ws, ps),
        !meaning::sides_agree(r, ws, ps),
    ensures
        c.verdict is Unsound,
{
    if !(c.verdict is Unsound) {
        assert(rules::agrees(r, ws));
    }
}

/// What a check without gaps passed is sound at every assignment of widths of values; what it
/// passed at all was tested where its guard holds.
pub proof fn law_passed_rules_were_tested(c: RuleCheck, r: Rule, cfg: CheckConfig)
    requires
        rules::check_ok(c, r, cfg),
        c.verdict is Sound,
    ensures
        exists|ws: Seq<u16>| #[trigger] rules::covered(r, cfg, ws) && tuples::fires(r, ws),
        c.evidence.complete ==> rules::sound_at_widths(r),
        !c.evidence.complete ==> c.evidence.sampled_fired > 0,
{
}

/// The least of two budgets is the most that is within both.
pub proof fn law_least_budget(a: Budget, b: Budget, c: Budget)
    ensures
        c.within(a) && c.within(b) <==> c.within(
            a.zipped(b, |x: u64, y: u64| budget::min_u64(x, y)),
        ),
        a.zipped(b, |x: u64, y: u64| budget::min_u64(x, y)) == b.zipped(
            a,
            |x: u64, y: u64| budget::min_u64(x, y),
        ),
        a.zipped(a, |x: u64, y: u64| budget::min_u64(x, y)) == a,
{
}

/// A linear combination of bitwise functions is determined by its values at the corners, where
/// every atom is zero or all ones: two nodes that the same corner values give are equal.
pub proof fn law_corner_values_determine(
    terms: Seq<Term>,
    atoms: Seq<u32>,
    row: Seq<Seq<bool>>,
    i: u32,
    j: u32,
    w: nat,
    env: Env,
)
    requires
        corners::tells(terms, atoms, row, i, w),
        corners::tells(terms, atoms, row, j, w),
        term::value(terms[i as int], env).len() == w,
        term::value(terms[j as int], env).len() == w,
    ensures
        term::value(terms[i as int], env) == term::value(terms[j as int], env),
{
    corners::lemma_same_corners(
        terms,
        atoms,
        row,
        term::value(terms[j as int], env),
        term::value(terms[i as int], env),
        env,
        w,
    );
}

/// The layers that equalities are solved through are injective: a sum, a difference, a xor and a
/// product by an odd value tell apart what they are applied to.
pub proof fn law_layers_are_injective(a: Seq<bool>, b: Seq<bool>, k: Seq<bool>)
    requires
        a.len() == k.len(),
        b.len() == k.len(),
        k.len() > 0,
    ensures
        ops::bin_value(BinOp::Add, a, k) == ops::bin_value(BinOp::Add, b, k) ==> a == b,
        ops::bin_value(BinOp::Sub, a, k) == ops::bin_value(BinOp::Sub, b, k) ==> a == b,
        ops::bin_value(BinOp::Sub, k, a) == ops::bin_value(BinOp::Sub, k, b) ==> a == b,
        ops::bin_value(BinOp::Xor, a, k) == ops::bin_value(BinOp::Xor, b, k) ==> a == b,
        ops::bin_value(BinOp::RotL, a, k) == ops::bin_value(BinOp::RotL, b, k) ==> a == b,
        k[0] && ops::bin_value(BinOp::Mul, a, k) == ops::bin_value(BinOp::Mul, b, k) ==> a == b,
{
    layers::lemma_undo_add(a, k);
    layers::lemma_undo_add(b, k);
    layers::lemma_undo_xor(a, k);
    layers::lemma_undo_xor(b, k);
    layers::lemma_undo_rot(a, k);
    layers::lemma_undo_rot(b, k);
    if k[0] && ops::bin_value(BinOp::Mul, a, k) == ops::bin_value(BinOp::Mul, b, k) {
        layers::lemma_odd_product(a, b, k);
    }
}

/// Every distinct root of a call is counted once: completed, stopped by a budget, or declined.
pub proof fn law_every_root_is_counted_once(
    stats: Stats,
    roots: Seq<Expr>,
    outs: Seq<RootOutcome>,
)
    requires
        run::roots_counted(stats, roots, outs),
        outs.len() == roots.len(),
        forall|i: int, j: int|
            0 <= i < roots.len() && 0 <= j < roots.len() && roots[i] == roots[j]
                ==> #[trigger] outs[i] == #[trigger] outs[j],
    ensures
        stats.completed.changed + stats.completed.unchanged + stats.budget_terminated.changed
            + stats.budget_terminated.unchanged + stats.declined == run::root_ids(roots).len(),
{
    let ids = run::root_ids(roots);
    let names = roots.map_values(|e: Expr| e.id);
    let a = run::counted_roots(roots, outs, Tally::Completed(true));
    let b = run::counted_roots(roots, outs, Tally::Completed(false));
    let c = run::counted_roots(roots, outs, Tally::Stopped(true));
    let d = run::counted_roots(roots, outs, Tally::Stopped(false));
    let e = run::counted_roots(roots, outs, Tally::Declined);
    vstd::seq_lib::seq_to_set_is_finite(names);
    assert forall|k: u32, s: Tally, t: Tally|
        run::counted_roots(roots, outs, s).contains(k) && run::counted_roots(roots, outs, t).contains(
            k,
        ) implies s == t by {
        let i = choose|i: int|
            #![trigger outs[i]]
            0 <= i < outs.len() && roots[i].id == k && Tally::of(outs[i].end, outs[i].changed) == s;
        let j = choose|j: int|
            #![trigger outs[j]]
            0 <= j < outs.len() && roots[j].id == k && Tally::of(outs[j].end, outs[j].changed) == t;
        assert(roots[i] == roots[j]);
        assert(outs[i] == outs[j]);
    }
    assert(ids =~= a + b + c + d + e) by {
        assert forall|k: u32| ids.contains(k) implies (a + b + c + d + e).contains(k) by {
            let i = choose|i: int| 0 <= i < names.len() && names[i] == k;
            assert(roots[i].id == k);
            let o = outs[i];
            assert(run::counted_roots(roots, outs, Tally::of(o.end, o.changed)).contains(k));
        }
    }
    vstd::set_lib::lemma_set_disjoint_lens(a, b);
    vstd::set_lib::lemma_set_disjoint_lens(a + b, c);
    vstd::set_lib::lemma_set_disjoint_lens(a + b + c, d);
    vstd::set_lib::lemma_set_disjoint_lens(a + b + c + d, e);
    assert(Tally::Completed(true).get(stats) == a.len());
    assert(Tally::Completed(false).get(stats) == b.len());
    assert(Tally::Stopped(true).get(stats) == c.len());
    assert(Tally::Stopped(false).get(stats) == d.len());
    assert(Tally::Declined.get(stats) == e.len());
}

/// What an account reports as spent and what it has left move together: a call charges it exactly
/// what the call reports, so what was left is what is left with what was spent, where no count
/// overflows.
pub proof fn law_accounts_balance(before: Allowance, after: Allowance, b: Budget)
    requires
        b.within(before.left()),
        after.left() == before.left().minus(b),
        after.used() == before.used().plus(b),
    ensures
        after.left().plus(b) == before.left(),
        after.used().minus(b).within(before.used()),
{
}

/// What an engine call keeps as the final result of a node in a phase is a fixed point of that
/// phase: its own kept result is itself. (A call on a node that every phase leaves so is answered
/// without work, as [`Engine::run`](crate::engine::link::Engine::run) states.)
pub proof fn law_kept_results_are_fixed_points(cx: &Context, p: int, n: u32)
    requires
        cx.wf(),
        0 <= p < cx.kept_phases().len(),
    ensures
        cx.kept_phases()[p].at(n) matches Some((r, _)) ==> walk::kept_as(cx.kept_phases()[p], n, r),
{
    assert(results::fixed(cx.memo.phases@[p]));
}

/// In a context that keeps no results, all that are kept rest: a row of calls begins there, and a
/// call in which nothing holds a rewrite back hands it on, as [`Engine::run`] states.
pub proof fn law_nothing_kept_rests(cx: &Context, engine: &Engine)
    requires
        cx.nothing_kept(),
    ensures
        cx.rested_under(engine),
{
}

/// What is at rest stays so while the context grows.
pub proof fn law_rest_stays(before: &Context, after: &Context, engine: &Engine, e: Expr)
    requires
        before.wf(),
        after.wf(),
        after.extends(before),
        before.has(e),
        engine.at_rest(before, e),
    ensures
        engine.at_rest(after, e),
{
    let inner = &*engine.inner;
    assert forall|p: int| #![trigger inner.phases@[p]] 0 <= p < inner.phases@.len() implies rest::rests(
        inner.phases@[p],
        inner.rules@,
        after.nodes@,
        after.tm(),
        e.id,
    ) by {
        rest::lemma_rests_grow(inner.phases@[p], inner.rules@, before, after, e.id);
    }
}

/// What combines comparisons of one node with constants has, at every assignment, the truth that
/// the comparisons have at the value of the node: its truth at a value is what it says.
pub proof fn law_comparisons_speak_of_a_value(cx: &Context, n: Expr, x: Expr, env: Env)
    requires
        cx.wf(),
        cx.has(n),
        cx.compares_with_constants(n, x),
    ensures
        cx.value(n, env)[0] == cx.said_at(n, x, cx.value(x, env)),
{
    spoken::lemma_truth(cx, n.id as int, x.id as int, env);
}

/// Where an engine with a compares phase has come to rest, a combination of few comparisons of one
/// node with constants holds at some value of the node and fails at another: one that always or
/// never holds was replaced, at every width.
pub proof fn law_decided_comparisons_are_replaced(
    cx: &Context,
    engine: &Engine,
    p: int,
    n: Expr,
    x: Expr,
)
    requires
        cx.wf(),
        cx.has(n),
        engine.at_rest(cx, n),
        engine.runs_pass(p, PassKind::Compares),
        cx.few_comparisons(n),
        cx.compares_with_constants(n, x),
    ensures
        exists|v: Seq<bool>| v.len() == cx.width_of(x) && #[trigger] cx.said_at(n, x, v),
        exists|v: Seq<bool>| v.len() == cx.width_of(x) && !#[trigger] cx.said_at(n, x, v),
{
    let inner = &*engine.inner;
    spoken::lemma_speaks(cx, n.id as int, x.id as int);
    assert(rest::rests(inner.phases@[p], inner.rules@, cx.nodes@, cx.tm(), n.id));
    assert(spoken::undecided(cx.nodes@, cx.tm(), n.id as int));
    assert(!spoken::always(cx.nodes@, cx.tm(), n.id as int, x.id as int));
    assert(!spoken::never(cx.nodes@, cx.tm(), n.id as int, x.id as int));
    let a = choose|v: Seq<bool>|
        v.len() == term::twidth(cx.tm()[x.id as int]) && !#[trigger] spoken::truth(
            cx.nodes@,
            cx.tm(),
            n.id as int,
            x.id as int,
            v,
        );
    let b = choose|v: Seq<bool>|
        v.len() == term::twidth(cx.tm()[x.id as int]) && #[trigger] spoken::truth(
            cx.nodes@,
            cx.tm(),
            n.id as int,
            x.id as int,
            v,
        );
    assert(!cx.said_at(n, x, a));
    assert(cx.said_at(n, x, b));
}

/// What combines comparisons of two nodes has, at every assignment, the truth that they have at the
/// values of the two.
pub proof fn law_comparisons_speak_of_two_values(cx: &Context, n: Expr, x: Expr, y: Expr, env: Env)
    requires
        cx.wf(),
        cx.has(n),
        cx.compares_the_two(n, x, y),
    ensures
        cx.value(n, env)[0] == cx.said_of(n, x, cx.value(x, env), cx.value(y, env)),
{
    spoken::lemma_truth_of(cx, n.id as int, x.id as int, y.id as int, env);
}

/// Where an engine with a compares phase has come to rest, a combination of comparisons of two nodes
/// holds at some values of the two and fails at others: one that always or never holds was
/// replaced, at every width.
pub proof fn law_decided_relations_are_replaced(
    cx: &Context,
    engine: &Engine,
    p: int,
    n: Expr,
    x: Expr,
    y: Expr,
    b: bool,
)
    requires
        cx.wf(),
        cx.has(n),
        engine.at_rest(cx, n),
        engine.runs_pass(p, PassKind::Compares),
        cx.compares_the_two(n, x, y),
    ensures
        exists|v: Seq<bool>, u: Seq<bool>|
            v.len() == cx.width_of(x) && u.len() == cx.width_of(x) && #[trigger] cx.said_of(
                n,
                x,
                v,
                u,
            ) == b,
{
    let inner = &*engine.inner;
    spoken::lemma_relates(cx, n.id as int, x.id as int, y.id as int);
    assert(rest::rests(inner.phases@[p], inner.rules@, cx.nodes@, cx.tm(), n.id));
    assert(spoken::open_pair(cx.nodes@, cx.tm(), n.id as int));
    let w = term::twidth(cx.tm()[x.id as int]);
    assert(spoken::relates(cx.nodes@, n.id as int, x.id as int, y.id as int));
    assert(!spoken::same_for_all(cx.nodes@, n.id as int, x.id as int, w, !b));
    let (v, u) = choose|v: Seq<bool>, u: Seq<bool>|
        v.len() == w && u.len() == w && #[trigger] spoken::truth_of(
            cx.nodes@,
            n.id as int,
            x.id as int,
            v,
            u,
        ) != !b;
    assert(cx.said_of(n, x, v, u) == b);
}

/// A host rewrite that passes is right wherever its symbols have few bits together: what it replied
/// has the value of the node at every assignment.
pub proof fn law_passing_results_have_the_value_of_their_node(
    report: RewriteReport,
    apps: Seq<Application>,
    cfg: RewriteCheckConfig,
    k: int,
    env: Env,
)
    requires
        host::reports(report, apps, cfg),
        0 <= k < apps.len(),
        host::in_full(apps[k], cfg),
    ensures
        apps[k].cx.value(apps[k].result, env) == apps[k].cx.value(apps[k].node, env),
{
    assert(host::passes(apps[k], cfg));
}

/// Whatever the symbols, a result that passes agrees with its node at all zeros and at all ones.
pub proof fn law_passing_results_agree_at_the_ends(
    report: RewriteReport,
    apps: Seq<Application>,
    cfg: RewriteCheckConfig,
    k: int,
    b: bool,
    env: Env,
)
    requires
        host::reports(report, apps, cfg),
        0 <= k < apps.len(),
        forall|key: int, i: int| #[trigger] env(key, i) == b,
    ensures
        apps[k].cx.value(apps[k].result, env) == apps[k].cx.value(apps[k].node, env),
{
    assert(host::passes(apps[k], cfg));
    assert(host::assigns(apps[k].symbols, host::same(apps[k].symbols, b), env));
}

/// A result whose symbols have more bits agrees with its node at as many points as were asked for,
/// drawn in a row over the whole widths of the symbols.
pub proof fn law_passing_results_agree_where_drawn(
    report: RewriteReport,
    apps: Seq<Application>,
    cfg: RewriteCheckConfig,
    k: int,
)
    requires
        host::reports(report, apps, cfg),
        0 <= k < apps.len(),
        !host::in_full(apps[k], cfg),
    ensures
        exists|s: u64| #[trigger] host::agrees_where_drawn(apps[k], s, cfg.samples as nat),
{
    let a = apps[k];
    assert(host::passes(a, cfg));
    let s = choose|s: u64| #[trigger]
        host::compared(&a.cx, a.node, a.result, cfg, a.symbols, s);
    assert(host::agrees_where_drawn(a, s, cfg.samples as nat));
}

/// Sampled verification tells symbols apart: it does not take one symbol of a word or more for
/// another.
pub proof fn law_sampled_verification_tells_symbols_apart(
    terms: Seq<Term>,
    h: Hyp,
    rel: Reliance,
    n: int,
    r: int,
    x: u64,
    y: u64,
    w: nat,
    points: int,
)
    requires
        terms[n] == Term::Sym(x as int, w),
        terms[r] == Term::Sym(y as int, w),
        w >= 64,
        points >= 3,
        rel.admits(h, eval::point_env(2)),
        accept::agree_at(terms, h, rel, n, r, points),
    ensures
        x == y,
{
    if x != y {
        eval::law_points_tell_symbols_apart(x, y, 2, 0);
        let env = eval::point_env(2);
        let i = choose|i: int| 0 <= i < 64 && #[trigger] env(x as int, i) != env(y as int, i);
        assert(eval::point_env(2u64) == eval::point_env(2int as u64));
        assert(term::value(terms[n], env) == term::value(terms[r], env));
        assert(term::value(terms[n], env)[i] == env(x as int, i));
        assert(term::value(terms[r], env)[i] == env(y as int, i));
    }
}

/// It does not take one node for either of two symbols: of `x & y` as `x` and `x & y` as `y`, and of
/// any such pair, it rejects one.
pub proof fn law_sampled_verification_takes_sides(
    terms: Seq<Term>,
    h: Hyp,
    rel: Reliance,
    n: int,
    r: int,
    q: int,
    x: u64,
    y: u64,
    w: nat,
    points: int,
)
    requires
        terms[r] == Term::Sym(x as int, w),
        terms[q] == Term::Sym(y as int, w),
        w >= 64,
        points >= 3,
        rel.admits(h, eval::point_env(2)),
        accept::agree_at(terms, h, rel, n, r, points),
        accept::agree_at(terms, h, rel, n, q, points),
    ensures
        x == y,
{
    if x != y {
        eval::law_points_tell_symbols_apart(x, y, 2, 0);
        let env = eval::point_env(2);
        let i = choose|i: int| 0 <= i < 64 && #[trigger] env(x as int, i) != env(y as int, i);
        assert(eval::point_env(2u64) == eval::point_env(2int as u64));
        assert(term::value(terms[n], env) == term::value(terms[r], env));
        assert(term::value(terms[n], env) == term::value(terms[q], env));
        assert(term::value(terms[r], env)[i] == env(x as int, i));
        assert(term::value(terms[q], env)[i] == env(y as int, i));
    }
}

} // verus!
