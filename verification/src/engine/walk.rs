//! The walk of a phase: every node below a root is normalized, operands first.

use vstd::prelude::*;
use crate::term;
use crate::expr;
use crate::engine::runner;
use crate::engine::rewrite;
use crate::engine::results;
use crate::engine::rebuild;
use crate::engine::fin;
use crate::engine::rest;
use crate::engine::strategy::Strategy;
use crate::rules::rule::Rule;
use crate::engine::pass::fold;
use std::collections::HashMap;
use crate::engine::budget;
use crate::engine::budget::{Counter, Exhausted, Meter};
use crate::engine::fin::{Fin, Step, Stop};
use crate::engine::link::{Inner, PhaseImpl};
use crate::engine::results::{PhaseMemo, Results};
use crate::engine::runner::Runner;
use crate::engine::stats::{bump, PassKind};
use crate::expr::Context;
use crate::facts::reliance::Hyp;
use crate::term::{Env, Term};

verus! {

broadcast use {crate::term::lemma_value_len, vstd::std_specs::hash::group_hash_axioms};

/// What a walk has left to do.
#[derive(Clone, Copy, Debug, PartialEq, Eq, Structural)]
pub enum Frame {
    /// Normalize a node.
    Visit(u32),
    /// The result of the first node is the result of the second; the flag says what the first
    /// node's own step (its operands and its declined candidates) contributes.
    Finish(u32, u32, Fin),
}

/// What is left to do speaks of nodes that are there; a node that waits for another has that
/// one's value.
pub open spec fn frame_ok(f: Frame, terms: Seq<Term>, h: Hyp, on: bool) -> bool {
    match f {
        Frame::Visit(n) => n < terms.len(),
        Frame::Finish(n, t, own) => results::stands(terms, h, on, n as int, t as int, own.rel),
    }
}

/// Everything left to do is right.
#[verifier::opaque]
pub open spec fn frames_ok(stack: Seq<Frame>, terms: Seq<Term>, h: Hyp, on: bool) -> bool {
    forall|i: int| 0 <= i < stack.len() ==> frame_ok(#[trigger] stack[i], terms, h, on)
}

proof fn lemma_frames_grow(
    stack: Seq<Frame>,
    terms: Seq<Term>,
    more: Seq<Term>,
    h: Hyp,
    on: bool,
)
    requires
        frames_ok(stack, terms, h, on),
        terms.len() <= more.len(),
        forall|i: int| 0 <= i < terms.len() ==> #[trigger] more[i] == terms[i],
    ensures
        frames_ok(stack, more, h, on),
{
    reveal(frames_ok);
    assert forall|i: int| 0 <= i < stack.len() implies frame_ok(
        #[trigger] stack[i],
        more,
        h,
        on,
    ) by {
        if let Frame::Finish(n, t, own) = stack[i] {
            results::lemma_stands_grow(terms, more, h, on, n as int, t as int, own.rel);
        }
    }
}

proof fn lemma_frames_push(stack: Seq<Frame>, f: Frame, terms: Seq<Term>, h: Hyp, on: bool)
    requires
        frames_ok(stack, terms, h, on),
        frame_ok(f, terms, h, on),
    ensures
        frames_ok(stack.push(f), terms, h, on),
{
    reveal(frames_ok);
}

proof fn lemma_frames_pop(stack: Seq<Frame>, terms: Seq<Term>, h: Hyp, on: bool)
    requires
        frames_ok(stack, terms, h, on),
        stack.len() > 0,
    ensures
        frames_ok(stack.drop_last(), terms, h, on),
        frame_ok(stack.last(), terms, h, on),
{
    reveal(frames_ok);
    assert(frame_ok(stack[stack.len() - 1], terms, h, on));
}

/// The final result kept for `n` is `r`, and that for `r` is `r` itself.
pub open spec fn kept_as(p: PhaseMemo, n: u32, r: u32) -> bool {
    &&& p.at(n) matches Some((x, _)) && x == r
    &&& p.at(r) matches Some((x, _)) && x == r
}

/// Nothing was spent and no node was made.
pub open(crate) spec fn idle<'a>(
    r1: &Runner<'a>,
    cx1: &Context,
    r0: &Runner<'a>,
    cx0: &Context,
) -> bool {
    &&& r1.meter.spent == r0.meter.spent
    &&& r1.meter.stuck() == r0.meter.stuck()
    &&& cx1.n() == cx0.n()
}

/// The most rounds of a strategy.
pub open spec fn rounds_of(s: Strategy) -> int {
    if s.max_rounds == 0 {
        1
    } else {
        s.max_rounds as int
    }
}

/// Every phase leaves node `n`.
pub(crate) open spec fn all_rest(
    phases: Seq<PhaseImpl>,
    rules: Seq<Rule>,
    cx: &Context,
    n: u32,
) -> bool {
    forall|p: int|
        #![trigger phases[p]]
        0 <= p < phases.len() ==> rest::rests(phases[p], rules, cx.nodes@, cx.tm(), n)
}

/// The first `k` phases leave node `n`.
#[verifier::opaque]
spec fn some_rest(phases: Seq<PhaseImpl>, rules: Seq<Rule>, cx: &Context, n: u32, k: int) -> bool {
    forall|p: int|
        #![trigger phases[p]]
        0 <= p < k ==> rest::rests(phases[p], rules, cx.nodes@, cx.tm(), n)
}

proof fn lemma_some_rest_next(
    phases: Seq<PhaseImpl>,
    rules: Seq<Rule>,
    cx0: &Context,
    cx1: &Context,
    n: u32,
    k: int,
)
    requires
        cx0.wf(),
        cx1.wf(),
        cx1.extends(cx0),
        n < cx0.n(),
        0 <= k < phases.len(),
        some_rest(phases, rules, cx0, n, k),
        rest::rests(phases[k], rules, cx1.nodes@, cx1.tm(), n),
    ensures
        some_rest(phases, rules, cx1, n, k + 1),
{
    reveal(some_rest);
    assert forall|p: int| #![trigger phases[p]] 0 <= p < k + 1 implies rest::rests(
        phases[p],
        rules,
        cx1.nodes@,
        cx1.tm(),
        n,
    ) by {
        if p < k {
            rest::lemma_rests_grow(phases[p], rules, cx0, cx1, n);
        }
    }
}

/// Nothing waits for another node's result.
spec fn all_visits(stack: Seq<Frame>) -> bool {
    forall|i: int| 0 <= i < stack.len() ==> #[trigger] stack[i] is Visit
}

/// Two node indices as one key.
fn edge(n: u32, r: u32) -> (k: u64)
    ensures
        k == n as u64 * 0x1_0000_0000 + r as u64,
{
    n as u64 * 0x1_0000_0000 + r as u64
}

/// The results `kids` of the operands `cs` have their values wherever what is relied on holds.
pub open spec fn kids_stand(
    cs: Seq<u32>,
    kids: Seq<u32>,
    terms: Seq<Term>,
    h: Hyp,
    on: bool,
    own: Fin,
) -> bool {
    forall|j: int|
        #![trigger kids[j]]
        0 <= j < kids.len() ==> results::stands(terms, h, on, cs[j] as int, kids[j] as int, own.rel)
}

/// Keeps the result of `n` in `phase`.
fn keep(
    res: &mut Results,
    inner: &Inner,
    cx: &Context,
    phase: usize,
    n: u32,
    r: u32,
    fin: Fin,
    Ghost(h): Ghost<Hyp>,
    Ghost(on): Ghost<bool>,
)
    requires
        cx.wf(),
        phase < inner.phases@.len(),
        old(res).ok(inner.phases@.len(), cx.tm(), h, on),
        r < cx.n(),
        results::stands(cx.tm(), h, on, n as int, r as int, fin.rel),
        fin.done && r != n ==> fixed_at(*old(res), phase as int, r),
    ensures
        final(res).ok(inner.phases@.len(), cx.tm(), h, on),
        rest::rested(*old(res), inner.phases@, inner.rules@, cx.nodes@, cx.tm()) && (fin.done
            || fin.why is None ==> rest::rests(
            inner.phases@[phase as int],
            inner.rules@,
            cx.nodes@,
            cx.tm(),
            r,
        )) ==> rest::rested(*final(res), inner.phases@, inner.rules@, cx.nodes@, cx.tm()),
        rest::untouched(*old(res)) && r == n ==> rest::untouched(*final(res)),
{
    let ghost res0 = *res;
    proof {
        reveal(fixed_at);
    }
    res.set(
        phase,
        n,
        r,
        fin,
        Ghost(inner.phases@.len()),
        Ghost(cx.tm()),
        Ghost(h),
        Ghost(on),
    );
    proof {
        if rest::rested(res0, inner.phases@, inner.rules@, cx.nodes@, cx.tm()) && (fin.done
            || fin.why is None ==> rest::rests(
            inner.phases@[phase as int],
            inner.rules@,
            cx.nodes@,
            cx.tm(),
            r,
        )) {
            rest::lemma_rested_set(
                res0,
                *res,
                phase as int,
                n,
                r,
                fin,
                inner.phases@,
                inner.rules@,
                cx.nodes@,
                cx.tm(),
            );
        }
        if rest::untouched(res0) && r == n {
            rest::lemma_untouched_set(res0, *res, phase as int, n, fin);
        }
    }
}

/// The final result kept for `r` in the phase is `r`.
#[verifier::opaque]
spec fn fixed_at(res: Results, phase: int, r: u32) -> bool {
    match res.memo@[phase].at(r) {
        Some((q, _)) => q == r,
        None => false,
    }
}

/// The result for `n` in `phase`, if there is one.
fn look(
    res: &Results,
    inner: &Inner,
    cx: &Context,
    phase: usize,
    n: u32,
    Ghost(h): Ghost<Hyp>,
    Ghost(on): Ghost<bool>,
) -> (r: Option<(u32, Fin)>)
    requires
        phase < inner.phases@.len(),
        res.ok(inner.phases@.len(), cx.tm(), h, on),
    ensures
        r matches Some((x, fin)) ==> results::stands(cx.tm(), h, on, n as int, x as int, fin.rel),
        r matches Some((x, fin)) ==> fin.done ==> fixed_at(*res, phase as int, x) && kept_as(
            res.memo@[phase as int],
            n,
            x,
        ),
        r matches Some((x, fin)) ==> rest::rested(
            *res,
            inner.phases@,
            inner.rules@,
            cx.nodes@,
            cx.tm(),
        ) ==> (fin.done || fin.why is None ==> rest::rests(
            inner.phases@[phase as int],
            inner.rules@,
            cx.nodes@,
            cx.tm(),
            x,
        )),
        r matches Some((x, fin)) ==> rest::untouched(*res) ==> x == n,
        res.fresh() ==> r is None,
{
    let r = res.lookup(
        phase,
        n,
        Ghost(inner.phases@.len()),
        Ghost(cx.tm()),
        Ghost(h),
        Ghost(on),
    );
    proof {
        if let Some((x, fin)) = r {
            reveal(fixed_at);
            assert(results::fixed(res.memo@[phase as int]));
            let _ = res.memo@[phase as int].at(n);
            if rest::rested(*res, inner.phases@, inner.rules@, cx.nodes@, cx.tm()) {
                rest::lemma_rested_get(
                    *res,
                    phase as int,
                    n,
                    x,
                    fin,
                    inner.phases@,
                    inner.rules@,
                    cx.nodes@,
                    cx.tm(),
                );
            }
            if rest::untouched(*res) {
                rest::lemma_untouched_get(*res, phase as int, n, x, fin);
            }
        }
        let _ = res.partial@[phase as int];
    }
    r
}

impl<'a> Runner<'a> {
    /// One pass at one node.
    pub(crate) fn pass_step(
        &mut self,
        cx: &mut Context,
        kind: PassKind,
        n: u32,
        Ghost(rules): Ghost<Seq<Rule>>,
    ) -> (out: Result<Step, Stop>)
        requires
            old(self).wf(old(cx)),
            n < old(cx).n(),
        ensures
            runner::went(final(self), final(cx), old(self), old(cx)),
            out matches Err(e) ==> final(self).refuses(final(cx), e),
            out matches Ok(s) ==> fin::step_keeps(s, final(cx).tm(), final(self).hyp@, n as int),
            old(self).refuses_all() ==> !(out matches Ok(Step::To(_, _))),
            // What is left rests.
            out matches Ok(Step::Normal(f)) ==> f.why is None && final(self).quiet() ==> rest::rests(
                PhaseImpl::Pass(kind),
                rules,
                final(cx).nodes@,
                final(cx).tm(),
                n,
            ),
            // Fact folding leaves no node whose facts pin its value.
            kind == PassKind::FactFold && old(self).unchecked() ==> (out matches Ok(
                Step::Normal(f),
            ) ==> f.done ==> old(cx).nodes@[n as int] is Const || fold::left_open(
                final(self).facts.known@,
                n,
            )),
    {
        let c = self.stats.passes.entry(kind);
        c.calls = bump(c.calls);
        self.charge(Counter::PassWork, 1)?;
        let ghost cx0 = *cx;
        let step = match kind {
            PassKind::FactFold => self.fold(cx, n),
            PassKind::Linear => self.lin_step(cx, n),
            PassKind::Bitwise => self.bitwise_step(cx, n),
            PassKind::Xor => self.xor_step(cx, n),
            PassKind::Casts => self.casts_step(cx, n),
            PassKind::Demanded => self.demanded_step(cx, n),
            PassKind::Shuffle => self.shuffle_step(cx, n),
            PassKind::Compares => self.compares_step(cx, n),
            PassKind::LinearMba => self.linear_mba_step(cx, n),
            PassKind::Invert => self.invert_step(cx, n),
            _ => Ok(Step::Normal(Fin::full())),
        };
        proof {
            if rest::rests(PhaseImpl::Pass(kind), rules, cx0.nodes@, cx0.tm(), n) {
                rest::lemma_rests_grow(PhaseImpl::Pass(kind), rules, &cx0, cx, n);
            }
        }
        step
    }

    /// Charges the visit of a node.
    fn visit(&mut self) -> (r: Result<(), Stop>)
        requires
            old(self).meter.spent.within(old(self).meter.limit),
        ensures
            final(self).metered(old(self)),
            final(self).meter.spent.within(final(self).meter.limit),
            r is Ok ==> final(self).meter.spent.node_visits == old(self).meter.spent.node_visits
                + 1,
            r is Err ==> final(self).meter.spent == old(self).meter.spent,
            final(self).meter.spent.rewrites == old(self).meter.spent.rewrites,
            r matches Err(Stop::Exhausted(e)) ==> (e == Exhausted::Deadline
                && final(self).meter.expired) || (e == Exhausted::NodeVisits
                && final(self).meter.spent.node_visits >= final(self).meter.limit.node_visits),
            old(self).meter.stuck() matches Some(e) ==> r == Err::<(), Stop>(Stop::Exhausted(e))
                && final(self).meter.stuck() == Some(e),
    {
        proof {
            reveal(Meter::stuck);
            reveal(Meter::late);
            reveal(budget::unhurried);
        }
        if self.meter.spent.node_visits == u64::MAX {
            return Err(Stop::Exhausted(Exhausted::NodeVisits));
        }
        self.charge(Counter::NodeVisits, 1)
    }

    /// The results of the operands of `n`, with what they contribute.
    fn kid_results(
        &self,
        cx: &Context,
        res: &Results,
        phase: usize,
        cs: &Vec<u32>,
        Ghost(phases): Ghost<nat>,
        Ghost(on): Ghost<bool>,
    ) -> (out: (Vec<u32>, Fin, bool))
        requires
            self.wf(cx),
            res.ok(phases, cx.tm(), self.hyp@, on),
            phase < phases,
            runner::listed(cs@, cx.n()),
        ensures
            out.0@.len() == cs@.len(),
            kids_stand(cs@, out.0@, cx.tm(), self.hyp@, on, out.1),
            !out.2 ==> out.0@ == cs@,
            rest::untouched(*res) ==> !out.2,
    {
        let mut kids: Vec<u32> = Vec::with_capacity(cs.len());
        let mut own = Fin::full();
        let mut changed = false;
        let mut k: usize = 0;
        while k < cs.len()
            invariant
                self.wf(cx),
                res.ok(phases, cx.tm(), self.hyp@, on),
                phase < phases,
                runner::listed(cs@, cx.n()),
                k <= cs@.len(),
                kids@.len() == k,
                kids_stand(cs@, kids@, cx.tm(), self.hyp@, on, own),
                !changed ==> kids@ == cs@.take(k as int),
                rest::untouched(*res) ==> !changed,
            decreases cs@.len() - k,
        {
            let c = cs[k];
            let (r, fin) = match res.lookup(
                phase,
                c,
                Ghost(phases),
                Ghost(cx.tm()),
                Ghost(self.hyp@),
                Ghost(on),
            ) {
                Some(x) => x,
                None => (c, Fin::provisional()),
            };
            proof {
                if rest::untouched(*res) && r != c {
                    rest::lemma_untouched_get(*res, phase as int, c, r, fin);
                }
            }
            let ghost own0 = own;
            let ghost kids0 = kids@;
            kids.push(r);
            own = own.and(fin);
            if r != c {
                changed = true;
            }
            proof {
                let h = self.hyp@;
                assert forall|j: int| #![trigger kids@[j]] 0 <= j < kids@.len() implies results::stands(
                    cx.tm(),
                    h,
                    on,
                    cs@[j] as int,
                    kids@[j] as int,
                    own.rel,
                ) by {
                    if j < k {
                        assert(kids@[j] == kids0[j]);
                        lemma_stands_weaken(
                            cx.tm(),
                            h,
                            on,
                            cs@[j] as int,
                            kids@[j] as int,
                            own0.rel,
                            own.rel,
                        );
                    } else {
                        lemma_stands_weaken(
                            cx.tm(),
                            h,
                            on,
                            cs@[j] as int,
                            kids@[j] as int,
                            fin.rel,
                            own.rel,
                        );
                    }
                }
                assert(cs@.take(k + 1) =~= cs@.take(k as int).push(c));
            }
            k = k + 1;
        }
        assert(cs@.take(k as int) =~= cs@);
        (kids, own, changed)
    }

    /// Takes the result of `t`, which replaced `n`, for `n`.
    fn conclude(
        &mut self,
        cx: &Context,
        inner: &Inner,
        res: &mut Results,
        phase: usize,
        n: u32,
        t: u32,
        own: Fin,
        Ghost(on): Ghost<bool>,
        Ghost(calm): Ghost<bool>,
    )
        requires
            old(self).wf(cx),
            phase < inner.phases@.len(),
            old(res).ok(inner.phases@.len(), cx.tm(), old(self).hyp@, on),
            results::stands(cx.tm(), old(self).hyp@, on, n as int, t as int, own.rel),
            calm && old(self).quiet() ==> rest::rested(
                *old(res),
                inner.phases@,
                inner.rules@,
                cx.nodes@,
                cx.tm(),
            ),
        ensures
            runner::went(final(self), cx, old(self), cx),
            final(res).ok(inner.phases@.len(), cx.tm(), final(self).hyp@, on),
            calm && final(self).quiet() ==> rest::rested(
                *final(res),
                inner.phases@,
                inner.rules@,
                cx.nodes@,
                cx.tm(),
            ),
    {
        let ghost h = self.hyp@;
        let (r, fin) = match look(res, inner, cx, phase, t, Ghost(h), Ghost(on)) {
            Some(x) => x,
            None => {
                // A result that is not there was cut short.
                self.stats.cycles_cut = cut_more(self.stats.cycles_cut);
                (t, Fin::provisional())
            },
        };
        if r != n {
            self.retire(cx, n);
        }
        let all = own.and(fin);
        let ghost res0 = *res;
        proof {
            results::lemma_stands_trans(
                cx.tm(),
                h,
                on,
                n as int,
                t as int,
                r as int,
                own.rel,
                fin.rel,
                all.rel,
            );
        }
        keep(res, inner, cx, phase, n, r, all, Ghost(h), Ghost(on));
    }

    /// Rebuilds `n`, whose operands have results, where one of them changed, and has it visited
    /// or applies the phase to it.
    fn treat(
        &mut self,
        cx: &mut Context,
        inner: &Inner,
        res: &mut Results,
        phase: usize,
        local: bool,
        n: u32,
        cs: &Vec<u32>,
        stack: &mut Vec<Frame>,
        pending: &mut HashMap<u32, u32>,
        Ghost(on): Ghost<bool>,
        Ghost(calm): Ghost<bool>,
        Ghost(still): Ghost<bool>,
    ) -> (out: Result<(), Stop>)
        requires
            old(self).wf(old(cx)),
            inner.wf(),
            on ==> inner.sound(),
            phase < inner.phases@.len(),
            old(res).ok(inner.phases@.len(), old(cx).tm(), old(self).hyp@, on),
            frames_ok(old(stack)@, old(cx).tm(), old(self).hyp@, on),
            n < old(cx).n(),
            calm && old(self).quiet() ==> rest::rested(
                *old(res),
                inner.phases@,
                inner.rules@,
                old(cx).nodes@,
                old(cx).tm(),
            ),
            still ==> old(self).refuses_all() && rest::untouched(*old(res)) && all_visits(
                old(stack)@,
            ),
            cs@ == expr::kids(old(cx).nodes@[n as int]),
            runner::listed(cs@, old(cx).n()),
        ensures
            runner::went(final(self), final(cx), old(self), old(cx)),
            out matches Err(e) ==> final(self).refuses(final(cx), e),
            final(res).ok(inner.phases@.len(), final(cx).tm(), final(self).hyp@, on),
            out is Ok ==> frames_ok(final(stack)@, final(cx).tm(), final(self).hyp@, on),
            out is Ok ==> final(stack)@.len() <= old(stack)@.len() + 2,
            calm && final(self).quiet() ==> rest::rested(
                *final(res),
                inner.phases@,
                inner.rules@,
                final(cx).nodes@,
                final(cx).tm(),
            ),
            still ==> rest::untouched(*final(res)) && (out is Ok ==> all_visits(final(stack)@)),
    {
        let ghost phases = inner.phases@.len();
        let ghost h = self.hyp@;
        let ghost ips = inner.phases@;
        let ghost irs = inner.rules@;
        let (kids, own, changed) = self.kid_results(
            cx,
            res,
            phase,
            cs,
            Ghost(phases),
            Ghost(on),
        );
        if changed {
            let ghost cx0 = *cx;
            assert(!still);
            let made = self.rebuild(cx, n, &kids);
            proof {
                res.lemma_grow(phases, cx0.tm(), cx.tm(), h, on);
                if calm && self.quiet() {
                    rest::lemma_rested_grow(*res, ips, irs, &cx0, cx);
                }
            }
            let n1 = made?;
            proof {
                lemma_frames_grow(stack@, cx0.tm(), cx.tm(), h, on);
                lemma_rebuilt(&cx0, cx, h, on, n, n1, kids@, own);
            }
            if n1 != n && (pending.contains_key(&n1) || (!local
                && self.rewritten.contains_key(&edge(n1, n)))) {
                self.stats.cycles_cut = cut_more(self.stats.cycles_cut);
                let all = own.and(Fin::provisional());
                proof {
                    results::lemma_stands_self(cx.tm(), h, on, n as int, all.rel);
                }
                keep(res, inner, cx, phase, n, n, all, Ghost(h), Ghost(on));
                return Ok(());
            }
            if n1 != n {
                if !local {
                    count_up(pending, n);
                }
                // `n1` replaces `n`: `n` no longer counts as a user.
                self.retire(cx, n);
                proof {
                    lemma_frames_push(
                        stack@,
                        Frame::Finish(n, n1, own),
                        cx.tm(),
                        h,
                        on,
                    );
                    lemma_frames_push(
                        stack@.push(Frame::Finish(n, n1, own)),
                        Frame::Visit(n1),
                        cx.tm(),
                        h,
                        on,
                    );
                }
                stack.push(Frame::Finish(n, n1, own));
                stack.push(Frame::Visit(n1));
                return Ok(());
            }
        }
        self.apply_phase(
            cx,
            inner,
            res,
            phase,
            local,
            n,
            own,
            stack,
            pending,
            Ghost(on),
            Ghost(calm),
            Ghost(still),
        )
    }

    /// Applies the phase to `n`.
    fn apply_phase(
        &mut self,
        cx: &mut Context,
        inner: &Inner,
        res: &mut Results,
        phase: usize,
        local: bool,
        n: u32,
        own: Fin,
        stack: &mut Vec<Frame>,
        pending: &mut HashMap<u32, u32>,
        Ghost(on): Ghost<bool>,
        Ghost(calm): Ghost<bool>,
        Ghost(still): Ghost<bool>,
    ) -> (out: Result<(), Stop>)
        requires
            old(self).wf(old(cx)),
            inner.wf(),
            on ==> inner.sound(),
            phase < inner.phases@.len(),
            old(res).ok(inner.phases@.len(), old(cx).tm(), old(self).hyp@, on),
            frames_ok(old(stack)@, old(cx).tm(), old(self).hyp@, on),
            n < old(cx).n(),
            calm && old(self).quiet() ==> rest::rested(
                *old(res),
                inner.phases@,
                inner.rules@,
                old(cx).nodes@,
                old(cx).tm(),
            ),
            still ==> old(self).refuses_all() && rest::untouched(*old(res)) && all_visits(
                old(stack)@,
            ),
        ensures
            runner::went(final(self), final(cx), old(self), old(cx)),
            out matches Err(e) ==> final(self).refuses(final(cx), e),
            final(res).ok(inner.phases@.len(), final(cx).tm(), final(self).hyp@, on),
            out is Ok ==> frames_ok(final(stack)@, final(cx).tm(), final(self).hyp@, on),
            out is Ok ==> final(stack)@.len() <= old(stack)@.len() + 2,
            calm && final(self).quiet() ==> rest::rested(
                *final(res),
                inner.phases@,
                inner.rules@,
                final(cx).nodes@,
                final(cx).tm(),
            ),
            still ==> rest::untouched(*final(res)) && (out is Ok ==> all_visits(final(stack)@)),
    {
        let ghost phases = inner.phases@.len();
        let ghost h = self.hyp@;
        let ghost ips = inner.phases@;
        let ghost irs = inner.rules@;
        let ghost cx0 = *cx;
        assert(inner.phases@[phase as int] == inner.phases@[phase as int]);
        let step = match &inner.phases[phase] {
            PhaseImpl::Local(net, hosts) => self.rewrite(cx, inner, net, hosts, n),
            PhaseImpl::Pass(k) => self.pass_step(cx, *k, n, Ghost(irs)),
        };
        proof {
            res.lemma_grow(phases, cx0.tm(), cx.tm(), h, on);
            if calm && self.quiet() {
                rest::lemma_rested_grow(*res, ips, irs, &cx0, cx);
            }
        }
        let step = step?;
        proof {
            lemma_frames_grow(stack@, cx0.tm(), cx.tm(), h, on);
            assert(rewrite::step_stands(step, cx.tm(), h, on, n as int));
        }
        match step {
            Step::To(r, fin) => {
                let all = own.and(fin);
                proof {
                    lemma_stands_weaken(
                        cx.tm(),
                        h,
                        on,
                        n as int,
                        r as int,
                        fin.rel,
                        all.rel,
                    );
                }
                if pending.contains_key(&r) {
                    // `r` waits on `n`: take the rewrite (accepted as smaller where
                    // it was made) without visiting `r` again, so both settle on
                    // `r`.
                    self.stats.cycles_cut = cut_more(self.stats.cycles_cut);
                    self.retire(cx, n);
                    let last = all.and(Fin::provisional());
                    proof {
                        lemma_stands_weaken(
                            cx.tm(),
                            h,
                            on,
                            n as int,
                            r as int,
                            all.rel,
                            last.rel,
                        );
                    }
                    keep(res, inner, cx, phase, n, r, last, Ghost(h), Ghost(on));
                } else {
                    if !local {
                        self.rewritten.insert(edge(n, r), true);
                        count_up(pending, n);
                    }
                    self.retire(cx, n);
                    proof {
                        lemma_frames_push(
                            stack@,
                            Frame::Finish(n, r, all),
                            cx.tm(),
                            h,
                            on,
                        );
                        lemma_frames_push(
                            stack@.push(Frame::Finish(n, r, all)),
                            Frame::Visit(r),
                            cx.tm(),
                            h,
                            on,
                        );
                    }
                    stack.push(Frame::Finish(n, r, all));
                    stack.push(Frame::Visit(r));
                }
            },
            Step::Normal(fin) => {
                let all = own.and(fin.unchanged()).closed();
                let ghost res0 = *res;
                proof {
                    results::lemma_stands_self(cx.tm(), h, on, n as int, all.rel);
                }
                keep(res, inner, cx, phase, n, n, all, Ghost(h), Ghost(on));
            },
        }
        Ok(())
    }

    /// The walk of [`local`](Self::local) from the root.
    #[verifier::rlimit(60)]
    fn walk(
        &mut self,
        cx: &mut Context,
        inner: &Inner,
        res: &mut Results,
        phase: usize,
        root: u32,
        Ghost(on): Ghost<bool>,
    ) -> (out: Result<(u32, Fin), Stop>)
        requires
            old(self).wf(old(cx)),
            inner.wf(),
            on ==> inner.sound(),
            phase < inner.phases@.len(),
            old(res).ok(inner.phases@.len(), old(cx).tm(), old(self).hyp@, on),
            root < old(cx).n(),
        ensures
            runner::went(final(self), final(cx), old(self), old(cx)),
            out matches Err(e) ==> final(self).refuses(final(cx), e),
            final(res).ok(inner.phases@.len(), final(cx).tm(), final(self).hyp@, on),
            out matches Ok((r, fin)) ==> results::stands(
                final(cx).tm(),
                final(self).hyp@,
                on,
                root as int,
                r as int,
                fin.rel,
            ),
            // Where every result rested, so do those of the walk.
            rest::rested(
                *old(res),
                inner.phases@,
                inner.rules@,
                old(cx).nodes@,
                old(cx).tm(),
            ) && final(self).quiet() ==> rest::rested(
                *final(res),
                inner.phases@,
                inner.rules@,
                final(cx).nodes@,
                final(cx).tm(),
            ) && (out matches Ok((r, fin)) ==> fin.done || fin.why is None ==> rest::rests(
                inner.phases@[phase as int],
                inner.rules@,
                final(cx).nodes@,
                final(cx).tm(),
                r,
            )),
            // Where every rewrite is refused, nothing changes.
            old(self).refuses_all() && rest::untouched(*old(res)) ==> rest::untouched(*final(res))
                && (out matches Ok((r, _)) ==> r == root),
            out matches Ok((r, fin)) ==> fin.done ==> kept_as(
                final(res).memo@[phase as int],
                root,
                r,
            ),
            old(self).meter.stuck() is Some && old(res).fresh() ==> out == Err::<(u32, Fin), Stop>(
                Stop::Exhausted(old(self).meter.stuck()->Some_0),
            ) && final(res).fresh() && idle(final(self), final(cx), old(self), old(cx)),
    {
        // Rewrites are accepted where they are made, but results are remembered and reused
        // anywhere: a pass's decision depends on sharing, so an operand's remembered result can
        // rebuild the very node its parent was rewritten from, which the pass rewrites again,
        // and so on. Such cycles are cut in favor of the rewrite, not final: a node is not
        // rebuilt into one a pass rewrote it from in this call (`rewritten`), nor into one whose
        // result waits on it (`pending`: a `Finish` on the stack); a node rewritten into a
        // waiting one takes it. Rules strictly decrease an order, so their phases never cycle
        // and keep no such records.
        let ghost phases = inner.phases@.len();
        let ghost h = self.hyp@;
        let ghost ips = inner.phases@;
        let ghost irs = inner.rules@;
        let ghost calm = rest::rested(*res, ips, irs, cx.nodes@, cx.tm());
        let ghost still = self.refuses_all() && rest::untouched(*res);
        let ghost halted = self.meter.stuck() is Some && res.fresh();
        let mut pending: HashMap<u32, u32> = HashMap::new();
        let local = match &inner.phases[phase] {
            PhaseImpl::Local(_, _) => true,
            _ => false,
        };
        let mut stack: Vec<Frame> = Vec::new();
        stack.push(Frame::Visit(root));
        proof {
            reveal(frames_ok);
        }
        while stack.len() > 0
            invariant
                runner::went(self, cx, old(self), old(cx)),
                inner.wf(),
                phases == inner.phases@.len(),
                phase < phases,
                on ==> inner.sound(),
                h == self.hyp@,
                root < old(cx).n(),
                res.ok(phases, cx.tm(), h, on),
                frames_ok(stack@, cx.tm(), h, on),
                ips == inner.phases@,
                irs == inner.rules@,
                calm && self.quiet() ==> rest::rested(*res, ips, irs, cx.nodes@, cx.tm()),
                still ==> self.refuses_all() && rest::untouched(*res) && all_visits(stack@),
                calm == rest::rested(*old(res), ips, irs, old(cx).nodes@, old(cx).tm()),
                still == (old(self).refuses_all() && rest::untouched(*old(res))),
                halted == (old(self).meter.stuck() is Some && old(res).fresh()),
                halted ==> {
                    &&& stack@ == seq![Frame::Visit(root)]
                    &&& *res == *old(res)
                    &&& *self == *old(self)
                    &&& *cx == *old(cx)
                },
            decreases 5 * (self.meter.limit.node_visits - self.meter.spent.node_visits)
                + stack@.len(),
        {
            let ghost stack0 = stack@;
            let top = stack[stack.len() - 1];
            assert(top == stack0.last());
            proof {
                lemma_frames_pop(stack0, cx.tm(), h, on);
            }
            match top {
                Frame::Finish(n, t, own) => {
                    assert(!still) by {
                        assert(stack0[stack0.len() - 1] == top);
                    }
                    let _ = stack.pop();
                    assert(stack@ =~= stack0.drop_last());
                    count_down(&mut pending, n);
                    self.conclude(cx, inner, res, phase, n, t, own, Ghost(on), Ghost(calm));
                },
                Frame::Visit(n) => {
                    assert(halted ==> n == root);
                    if look(res, inner, cx, phase, n, Ghost(h), Ghost(on)).is_some() {
                        assert(!halted);
                        proof {
                            assert(results::phase_ok(res.memo@[phase as int], cx.tm(), h, on));
                            reveal(results::phase_ok);
                        }
                        if res.memo[phase].get(n).is_some() {
                            self.stats.memo_hits = bump(self.stats.memo_hits);
                        }
                        let _ = stack.pop();
                        assert(stack@ =~= stack0.drop_last());
                        continue;
                    }
                    self.visit()?;
                    assert(!halted);
                    let node = cx.node(n);
                    proof {
                        assert(cx.ok_at(n as int));
                    }
                    let cs = node.children();
                    let mut waiting = false;
                    let mut k: usize = 0;
                    while k < cs.len()
                        invariant
                            self.wf(cx),
                            h == self.hyp@,
                            phase < phases,
                            res.ok(phases, cx.tm(), h, on),
                            frames_ok(stack@, cx.tm(), h, on),
                            runner::listed(cs@, cx.n()),
                            phases == inner.phases@.len(),
                            k <= cs@.len(),
                            stack@.len() <= stack0.len() + k,
                            stack@.len() >= stack0.len(),
                            still ==> all_visits(stack@),
                            !waiting ==> stack@ == stack0,
                        decreases cs@.len() - k,
                    {
                        let c = cs[k];
                        if look(res, inner, cx, phase, c, Ghost(h), Ghost(on)).is_none() {
                            proof {
                                lemma_frames_push(stack@, Frame::Visit(c), cx.tm(), h, on);
                            }
                            stack.push(Frame::Visit(c));
                            waiting = true;
                        }
                        k = k + 1;
                    }
                    if waiting {
                        continue;
                    }
                    let _ = stack.pop();
                    assert(stack@ =~= stack0.drop_last());
                    self.treat(
                        cx,
                        inner,
                        res,
                        phase,
                        local,
                        n,
                        &cs,
                        &mut stack,
                        &mut pending,
                        Ghost(on),
                        Ghost(calm),
                        Ghost(still),
                    )?;
                },
            }
        }
        match look(res, inner, cx, phase, root, Ghost(h), Ghost(on)) {
            Some(x) => {
                Ok(x)
            },
            None => {
                // A result that is not there was cut short.
                self.stats.cycles_cut = cut_more(self.stats.cycles_cut);
                proof {
                    results::lemma_stands_self(
                        cx.tm(),
                        h,
                        on,
                        root as int,
                        crate::facts::reliance::Reliance { used: 0 },
                    );
                }
                Ok((root, Fin::provisional()))
            },
        }
    }

    /// Normalizes `root` under a phase.
    pub(crate) fn local(
        &mut self,
        cx: &mut Context,
        inner: &Inner,
        res: &mut Results,
        phase: usize,
        root: u32,
        Ghost(on): Ghost<bool>,
    ) -> (out: Result<(u32, Fin), Stop>)
        requires
            old(self).wf(old(cx)),
            inner.wf(),
            on ==> inner.sound(),
            phase < inner.phases@.len(),
            old(res).ok(inner.phases@.len(), old(cx).tm(), old(self).hyp@, on),
            root < old(cx).n(),
        ensures
            runner::went(final(self), final(cx), old(self), old(cx)),
            out matches Err(e) ==> final(self).refuses(final(cx), e),
            final(res).ok(inner.phases@.len(), final(cx).tm(), final(self).hyp@, on),
            out matches Ok((r, fin)) ==> results::stands(
                final(cx).tm(),
                final(self).hyp@,
                on,
                root as int,
                r as int,
                fin.rel,
            ),
            // Where every result rested, so do those of the walk.
            rest::rested(
                *old(res),
                inner.phases@,
                inner.rules@,
                old(cx).nodes@,
                old(cx).tm(),
            ) && final(self).quiet() ==> rest::rested(
                *final(res),
                inner.phases@,
                inner.rules@,
                final(cx).nodes@,
                final(cx).tm(),
            ) && (out matches Ok((r, fin)) ==> fin.done || fin.why is None ==> rest::rests(
                inner.phases@[phase as int],
                inner.rules@,
                final(cx).nodes@,
                final(cx).tm(),
                r,
            )),
            // Where every rewrite is refused, nothing changes.
            old(self).refuses_all() && rest::untouched(*old(res)) ==> rest::untouched(*final(res))
                && (out matches Ok((r, _)) ==> r == root),
            out matches Ok((r, fin)) ==> fin.done ==> kept_as(
                final(res).memo@[phase as int],
                root,
                r,
            ),
            old(self).meter.stuck() is Some && old(res).fresh() ==> out == Err::<(u32, Fin), Stop>(
                Stop::Exhausted(old(self).meter.stuck()->Some_0),
            ) && final(res).fresh() && idle(final(self), final(cx), old(self), old(cx)),
            old(res).memo@[phase as int].at(root) matches Some((r, rel)) ==> r == root ==> out
                == Ok::<(u32, Fin), Stop>((root, Fin { done: true, why: None, rel })) && *final(res)
                == *old(res) && idle(final(self), final(cx), old(self), old(cx)),
    {
        let ghost phases = inner.phases@.len();
        proof {
            assert(results::phase_ok(res.memo@[phase as int], cx.tm(), self.hyp@, on));
            reveal(results::phase_ok);
        }
        // A root with a final result: what the walk would find at its first step, without
        // preparing one (the preparation only matters to a walk that does work).
        if let Some((r, rel)) = res.memo[phase].get(root) {
            self.stats.memo_hits = bump(self.stats.memo_hits);
            proof {
                reveal(rest::rested);
                reveal(rest::untouched);
                let _ = res.memo@[phase as int].at(root);
            }
            return Ok((r, Fin::relying(rel)));
        }
        let local = match &inner.phases[phase] {
            PhaseImpl::Local(_, _) => true,
            _ => false,
        };
        if !local {
            // A pass's decisions depend on sharing, which the previous phase or round may have
            // changed: start afresh (final results stay memoized).
            self.uses_on = false;
            self.live.clear();
            self.dead.clear();
            self.dead_log = Vec::new();
            let ghost res0 = *res;
            res.forget_partial(phase, Ghost(phases), Ghost(cx.tm()), Ghost(self.hyp@), Ghost(on));
            proof {
                rest::lemma_forgotten(
                    res0,
                    *res,
                    phase as int,
                    inner.phases@,
                    inner.rules@,
                    cx.nodes@,
                    cx.tm(),
                );
            }
            self.phase_start = cx.len() as u32;
            self.set_live_root(cx, root);
        }
        self.walk(cx, inner, res, phase, root, Ghost(on))
    }

    /// The version of the root being processed is `r`.
    pub(crate) fn set_live_root(&mut self, cx: &Context, r: u32)
        requires
            old(self).wf(cx),
            r < cx.n(),
        ensures
            final(self).wf(cx),
            *final(self) == (Runner { live_roots: final(self).live_roots, ..*old(self) }),
            final(self).live_roots@.len() == old(self).live_roots@.len(),
    {
        let k: usize = self.active;
        if k < self.live_roots.len() {
            let ghost roots0 = self.live_roots@;
            self.live_roots.set(k, r);
            proof {
                assert forall|j: int| 0 <= j < self.live_roots@.len() implies
                #[trigger] self.live_roots@[j] < cx.n() by {
                    if j != k {
                        assert(self.live_roots@[j] == roots0[j]);
                    }
                }
            }
        }
    }

    /// Runs the strategy on one root: the result, or the best value-equivalent result so far
    /// with the reason it stopped.
    pub(crate) fn strategy(
        &mut self,
        cx: &mut Context,
        inner: &Inner,
        res: &mut Results,
        root: u32,
        Ghost(on): Ghost<bool>,
    ) -> (out: (u32, Fin, Option<Stop>))
        requires
            old(self).wf(old(cx)),
            inner.wf(),
            on ==> inner.sound(),
            old(res).ok(inner.phases@.len(), old(cx).tm(), old(self).hyp@, on),
            root < old(cx).n(),
        ensures
            runner::went(final(self), final(cx), old(self), old(cx)),
            final(res).ok(inner.phases@.len(), final(cx).tm(), final(self).hyp@, on),
            results::stands(
                final(cx).tm(),
                final(self).hyp@,
                on,
                root as int,
                out.0 as int,
                out.1.rel,
            ),
            inner.phases@.len() == 0 ==> out.0 == root && out.2 is None,
            out.2 matches Some(e) ==> final(self).refuses(final(cx), e),
            // Where every result rested, every phase leaves the result once a round changed
            // nothing.
            rest::rested(
                *old(res),
                inner.phases@,
                inner.rules@,
                old(cx).nodes@,
                old(cx).tm(),
            ) && final(self).quiet() ==> rest::rested(
                *final(res),
                inner.phases@,
                inner.rules@,
                final(cx).nodes@,
                final(cx).tm(),
            ) && (out.2 is None && out.1.why is None && final(self).stats.rounds < rounds_of(
                inner.strategy,
            ) ==> all_rest(inner.phases@, inner.rules@, final(cx), out.0)),
            // Where every rewrite is refused, nothing changes.
            old(self).refuses_all() && rest::untouched(*old(res)) ==> rest::untouched(*final(res))
                && out.0 == root,
            // A final result is one that the last phase leaves as it is.
            inner.phases@.len() > 0 && out.2 is None && out.1.done ==> kept_as(
                final(res).memo@[inner.phases@.len() - 1],
                out.0,
                out.0,
            ),
            inner.phases@.len() > 0 && old(self).meter.stuck() is Some && old(res).fresh() ==> {
                &&& out.0 == root
                &&& out.2 == Some(Stop::Exhausted(old(self).meter.stuck()->Some_0))
                &&& final(res).fresh()
                &&& idle(final(self), final(cx), old(self), old(cx))
            },
            results::settled(old(res).memo@, root) ==> {
                &&& out.0 == root
                &&& out.1.done
                &&& out.1.why is None
                &&& out.2 is None
                &&& *final(res) == *old(res)
                &&& idle(final(self), final(cx), old(self), old(cx))
            },
    {
        let ghost phases = inner.phases@.len();
        let ghost h = self.hyp@;
        let mut cur: u32 = root;
        let mut fin = Fin::full();
        let rounds: u8 = if inner.strategy.max_rounds == 0 {
            1
        } else {
            inner.strategy.max_rounds
        };
        let mut round: u8 = 0;
        let mut changed = true;
        let ghost ips = inner.phases@;
        let ghost irs = inner.rules@;
        let ghost calm = rest::rested(*res, ips, irs, cx.nodes@, cx.tm());
        let ghost still = self.refuses_all() && rest::untouched(*res);
        while round < rounds && changed
            invariant
                ips == inner.phases@,
                irs == inner.rules@,
                rounds == rounds_of(inner.strategy),
                calm == rest::rested(*old(res), ips, irs, old(cx).nodes@, old(cx).tm()),
                still == (old(self).refuses_all() && rest::untouched(*old(res))),
                calm && self.quiet() ==> rest::rested(*res, ips, irs, cx.nodes@, cx.tm()),
                still ==> rest::untouched(*res) && cur == root,
                self.stats.rounds >= round,
                !changed && calm && self.quiet() && fin.why is None ==> some_rest(
                    ips,
                    irs,
                    cx,
                    cur,
                    phases as int,
                ),
                runner::went(self, cx, old(self), old(cx)),
                inner.wf(),
                phases == inner.phases@.len(),
                on ==> inner.sound(),
                h == self.hyp@,
                root < old(cx).n(),
                round <= rounds,
                res.ok(phases, cx.tm(), h, on),
                results::stands(cx.tm(), h, on, root as int, cur as int, fin.rel),
                phases == 0 ==> cur == root,
                round > 0 && phases > 0 && fin.done ==> kept_as(res.memo@[phases - 1], cur, cur),
                round == 0 ==> *res == *old(res) && idle(self, cx, old(self), old(cx)) && cur
                    == root && fin.done && fin.why is None && changed,
                inner.phases@.len() > 0 && old(self).meter.stuck() is Some && old(res).fresh()
                    ==> round == 0,
                rounds >= 1,
                old(res).ok(phases, old(cx).tm(), old(self).hyp@, on),
                results::settled(old(res).memo@, root) ==> {
                    &&& cur == root
                    &&& fin.done
                    &&& fin.why is None
                    &&& *res == *old(res)
                    &&& idle(self, cx, old(self), old(cx))
                },
            decreases rounds - round,
        {
            if self.stats.rounds < round as u32 + 1 {
                self.stats.rounds = round as u32 + 1;
            }
            let start = cur;
            let mut moved = false;
            let mut phase: usize = 0;
            proof {
                reveal(some_rest);
            }
            while phase < inner.phases.len()
                invariant
                    ips == inner.phases@,
                    irs == inner.rules@,
                    calm == rest::rested(*old(res), ips, irs, old(cx).nodes@, old(cx).tm()),
                    still == (old(self).refuses_all() && rest::untouched(*old(res))),
                    calm && self.quiet() ==> rest::rested(*res, ips, irs, cx.nodes@, cx.tm()),
                    still ==> rest::untouched(*res) && cur == root,
                    self.stats.rounds >= round + 1,
                    !moved ==> cur == start,
                    !moved && calm && self.quiet() && fin.why is None ==> some_rest(
                        ips,
                        irs,
                        cx,
                        cur,
                        phase as int,
                    ),
                    runner::went(self, cx, old(self), old(cx)),
                    inner.wf(),
                    phases == inner.phases@.len(),
                    on ==> inner.sound(),
                    h == self.hyp@,
                    root < old(cx).n(),
                    phase <= phases,
                    res.ok(phases, cx.tm(), h, on),
                    results::stands(cx.tm(), h, on, root as int, cur as int, fin.rel),
                    phases == 0 ==> cur == root,
                    phase > 0 && fin.done ==> kept_as(res.memo@[phase - 1], cur, cur),
                    old(self).meter.stuck() is Some && old(res).fresh() && phases > 0 ==> phase == 0 && *res
                        == *old(res) && idle(self, cx, old(self), old(cx)) && cur == root,
                    old(res).ok(phases, old(cx).tm(), old(self).hyp@, on),
                    results::settled(old(res).memo@, root) ==> {
                        &&& cur == root
                        &&& fin.done
                        &&& fin.why is None
                        &&& *res == *old(res)
                        &&& idle(self, cx, old(self), old(cx))
                    },
                decreases phases - phase,
            {
                let ghost cx0 = *cx;
                let step = self.local(cx, inner, res, phase, cur, Ghost(on));
                proof {
                    results::lemma_stands_grow(
                        cx0.tm(),
                        cx.tm(),
                        h,
                        on,
                        root as int,
                        cur as int,
                        fin.rel,
                    );
                }
                match step {
                    Ok((r, f)) => {
                        let all = fin.and(f);
                        proof {
                            results::lemma_stands_trans(
                                cx.tm(),
                                h,
                                on,
                                root as int,
                                cur as int,
                                r as int,
                                fin.rel,
                                f.rel,
                                all.rel,
                            );
                        }
                        proof {
                            if !moved && r == cur && calm && self.quiet() && all.why is None {
                                lemma_some_rest_next(ips, irs, &cx0, cx, cur, phase as int);
                            }
                        }
                        if r != cur {
                            moved = true;
                        }
                        cur = r;
                        fin = all;
                    },
                    Err(stop) => {
                        return (cur, fin, Some(stop));
                    },
                }
                phase = phase + 1;
            }
            changed = cur != start;
            if moved && !changed {
                // Phases that undo each other.
                self.stats.cycles_cut = cut_more(self.stats.cycles_cut);
            }
            round = round + 1;
        }
        proof {
            reveal(some_rest);
        }
        (cur, fin, None)
    }
}

/// One more cycle was cut.
fn cut_more(n: u64) -> (r: u64)
    ensures
        r == crate::engine::stats::bumped(n),
        r > 0,
{
    bump(n)
}

/// One more result waits on `n`.
fn count_up(pending: &mut HashMap<u32, u32>, n: u32)
    ensures
        final(pending)@.contains_key(n),
        forall|k: u32| old(pending)@.contains_key(k) ==> #[trigger] final(pending)@.contains_key(k),
{
    let c: u32 = match pending.get(&n) {
        Some(c) => *c,
        None => 0,
    };
    pending.insert(n, c.saturating_add(1));
}

/// One result fewer waits on `n`.
fn count_down(pending: &mut HashMap<u32, u32>, n: u32)
    ensures
        forall|k: u32|
            k != n ==> #[trigger] final(pending)@.contains_key(k) == old(pending)@.contains_key(k),
        !old(pending)@.contains_key(n) ==> final(pending)@ == old(pending)@,
        old(pending)@.contains_key(n) && old(pending)@[n] <= 1 ==> !final(pending)@.contains_key(n),
{
    let c: u32 = match pending.get(&n) {
        Some(c) => *c,
        None => {
            return;
        },
    };
    if c <= 1 {
        let _ = pending.remove(&n);
    } else {
        pending.insert(n, c - 1);
    }
}

/// What stands under fewer constraints stands under more.
proof fn lemma_stands_weaken(
    terms: Seq<Term>,
    h: Hyp,
    on: bool,
    n: int,
    r: int,
    r1: crate::facts::reliance::Reliance,
    r2: crate::facts::reliance::Reliance,
)
    requires
        results::stands(terms, h, on, n, r, r1),
        forall|env: Env| #[trigger] r2.admits(h, env) ==> r1.admits(h, env),
    ensures
        results::stands(terms, h, on, n, r, r2),
{
}

/// A node rebuilt over the results of its operands stands for it.
proof fn lemma_rebuilt(
    cx0: &Context,
    cx: &Context,
    h: Hyp,
    on: bool,
    n: u32,
    n1: u32,
    kids: Seq<u32>,
    own: Fin,
)
    requires
        cx0.wf(),
        cx.wf(),
        cx.grew(cx0),
        n < cx0.n(),
        n1 < cx.n(),
        cx.w(n1 as int) == cx0.w(n as int),
        kids.len() == expr::kids(cx0.nodes@[n as int]).len(),
        kids_stand(expr::kids(cx0.nodes@[n as int]), kids, cx0.tm(), h, on, own),
        forall|env: Env|
            rebuild::same_kids(cx0.nodes@[n as int], kids, cx0.tm(), env)
                ==> #[trigger] cx.val(n1 as int, env) == cx0.val(n as int, env),
    ensures
        results::stands(cx.tm(), h, on, n as int, n1 as int, own.rel),
{
    assert(cx.tm()[n as int] == cx0.tm()[n as int]);
    if on {
        assert forall|env: Env|
            #![trigger term::value(cx.tm()[n as int], env)]
            #![trigger term::value(cx.tm()[n1 as int], env)]
            own.rel.admits(h, env) implies term::value(cx.tm()[n as int], env) == term::value(
            cx.tm()[n1 as int],
            env,
        ) by {
            let cs = expr::kids(cx0.nodes@[n as int]);
            assert forall|j: int| #![trigger kids[j]] 0 <= j < kids.len() implies term::value(
                cx0.tm()[kids[j] as int],
                env,
            ) == term::value(cx0.tm()[cs[j] as int], env) by {
                assert(results::stands(cx0.tm(), h, on, cs[j] as int, kids[j] as int, own.rel));
            }
            assert(rebuild::same_kids(cx0.nodes@[n as int], kids, cx0.tm(), env));
            assert(cx.val(n1 as int, env) == cx0.val(n as int, env));
        }
    }
}

} // verus!
