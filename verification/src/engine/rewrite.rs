//! Rules at a node: the candidates in priority order, each matched, built and checked.

use vstd::prelude::*;
use crate::engine::link;
use crate::term;
use crate::rules::meaning;
use crate::rules::matcher;
use crate::engine::runner;
use crate::engine::results;
use crate::engine::apply;
use crate::engine::rest;
use crate::rules::heads;
use crate::rules::structure;
use crate::engine::apply::can_build;
use crate::engine::accept;
use crate::engine::accept::Accept;
use crate::engine::apply::Applied;
use crate::engine::budget::{Counter, Exhausted};
use crate::engine::dispatch::DispatchNet;
use crate::engine::fin::{Fin, Step, Stop};
use crate::engine::link::Inner;
use crate::engine::runner::Runner;
use crate::engine::stats::{bump, By, Event, Reject};
use crate::engine::strategy::Verify;
use crate::expr::{Context, Expr};
use crate::facts::reliance::{Hyp, Reliance};
use crate::rules::matcher::{find, Search, MATCH_STEPS};
use crate::rules::rule::{RNode, Rule};
use crate::term::{Env, Term};

verus! {

broadcast use crate::term::lemma_value_len;

/// What a step makes of a node can stand for it.
pub open spec fn step_stands(s: Step, terms: Seq<Term>, h: Hyp, on: bool, n: int) -> bool {
    match s {
        Step::To(e, fin) => results::stands(terms, h, on, n, e as int, fin.rel),
        Step::Normal(_) => true,
    }
}

/// Node `x` is the rule's template at some match of its pattern at `n`.
pub open spec fn applied(r: Rule, before: Seq<Term>, after: Seq<Term>, n: u32, x: u32) -> bool {
    exists|ws: Seq<u16>, ns: Seq<u32>| #[trigger]
        matcher::matched(r, ws, ns, before, n as int) && apply::made(
            r,
            ws,
            ns,
            after,
            r.rhs as int,
            x as int,
        )
}

/// The two nodes agree at as many points as an application of some linked rule or host rewrite is
/// verified at: as many as for one without a proof, if it has none.
pub open(crate) spec fn verified(
    inner: &Inner,
    v: Verify,
    terms: Seq<Term>,
    h: Hyp,
    rel: Reliance,
    a: int,
    b: int,
) -> bool {
    ||| exists|ri: int|
        0 <= ri < inner.proven@.len() && accept::agree_at(
            terms,
            h,
            rel,
            a,
            b,
            accept::points_for(v, #[trigger] inner.proven@[ri]) as int,
        )
    ||| exists|hi: int|
        0 <= hi < inner.host@.len() && accept::agree_at(
            terms,
            h,
            rel,
            a,
            b,
            accept::points_for(v, (#[trigger] inner.host@[hi]).trusted) as int,
        )
}

impl<'a> Runner<'a> {
    /// Tries a rule at `n`.
    pub(crate) fn try_apply(&mut self, cx: &mut Context, r: &Rule, n: u32) -> (out: Result<
        Applied,
        Stop,
    >)
        requires
            old(self).wf(old(cx)),
            meaning::rule_ok(*r),
            n < old(cx).n(),
        ensures
            runner::went(final(self), final(cx), old(self), old(cx)),
            out matches Err(e) ==> final(self).refuses(final(cx), e),
            out matches Ok(Applied::To(x, fin)) ==> results::stands(
                final(cx).tm(),
                final(self).hyp@,
                meaning::rule_sound(*r),
                n as int,
                x as int,
                fin.rel,
            ),
            // It fails only where there is no match, and for a guard only where there is one.
            out matches Ok(Applied::NoMatch) ==> apply::buildable(*r, r.rhs as int)
                && structure::tells_all(*r) ==> forall|ws: Seq<u16>, ns: Seq<u32>|
                !#[trigger] structure::matches_at(
                    *r,
                    ws,
                    ns,
                    old(cx).nodes@,
                    old(cx).tm(),
                    n as int,
                ),
            out matches Ok(Applied::GuardFalse) ==> r.guard is Some,
            out matches Ok(Applied::NoMatch) ==> *final(cx) == *old(cx),
            // What it gives is the template at a match.
            out matches Ok(Applied::To(x, fin)) ==> applied(*r, old(cx).tm(), final(cx).tm(), n, x),
            out matches Ok(Applied::To(x, fin)) ==> fin.why is None && (structure::simple(*r)
                && heads::operator_rooted(*r) ==> x != n),
    {
        // A template that holds predicates stands for no expression.
        if !can_build(r, r.rhs) {
            return Ok(Applied::NoMatch);
        }
        let left = self.meter.left().match_steps;
        let steps: u32 = if left < MATCH_STEPS as u64 {
            left as u32
        } else {
            MATCH_STEPS
        };
        let mut rest: u32 = steps;
        let found = find(cx, r, n, &mut rest);
        self.meter.spent.match_steps = self.meter.spent.match_steps + (steps - rest) as u64;
        let f = match found {
            Search::Failed => {
                return Ok(Applied::NoMatch);
            },
            Search::Degraded => {
                // The call's budget stops the call; the cap on one application only makes the
                // node not final.
                if steps < MATCH_STEPS {
                    return Err(Stop::Exhausted(Exhausted::MatchSteps));
                }
                return Ok(Applied::Degraded(Exhausted::MatchSteps));
            },
            Search::Matched(f) => f,
        };
        self.checked()?;
        let ghost tm = cx.tm();
        let mut rel = Fin::full();
        let mut held = true;
        if let Some(g) = r.guard {
            let (b, fin) = self.guard(cx, r, &f, g)?;
            rel = fin;
            held = b;
        }
        if !held {
            if rel.done {
                return Ok(Applied::GuardFalse);
            }
            return Ok(Applied::Degraded(Exhausted::FactWork));
        }
        let ghost h = self.hyp@;
        let x = self.instantiate(cx, r, &f, r.rhs)?;
        let fin = Fin::relying(rel.rel);
        proof {
            assert(meaning::node_ok(*r, r.rhs as int));
            if heads::operator_rooted(*r) {
                if let RNode::Param(p) = r.nodes@[r.rhs as int] {
                    let _ = f.nodes@[p as int];
                }
                assert(!(cx.nodes@[n as int] is Const)) by {
                    assert(heads::rooted(*r, heads::node_place(cx.nodes@[n as int])));
                }
            }
            assert(cx.tm()[n as int] == tm[n as int]);
            if meaning::rule_sound(*r) {
                assert forall|env: Env|
                    #![trigger term::value(cx.tm()[n as int], env)]
                    #![trigger term::value(cx.tm()[x as int], env)]
                    fin.rel.admits(h, env) implies term::value(cx.tm()[n as int], env) == term::value(
                    cx.tm()[x as int],
                    env,
                ) by {
                    apply::lemma_fitted_grow(*r, f.ws@, f.nodes@, tm, cx.tm());
                    let ps = matcher::bound(tm, f.nodes@, env);
                    assert(ps == matcher::bound(cx.tm(), f.nodes@, env));
                    matcher::lemma_bound_fits(*r, f.ws@, f.nodes@, tm, env);
                    assert(meaning::guard_true(*r, f.ws@, ps));
                    assert(meaning::sides_agree(*r, f.ws@, ps));
                    assert(term::value(tm[n as int], env) == meaning::rvalue(*r, r.lhs as int, f.ws@, ps));
                }
            }
        }
        Ok(Applied::To(x, fin))
    }

    /// Marks rule `ri` as quarantined for the call.
    fn quarantine(&mut self, ri: u32)
        ensures
            *final(self) == (Runner {
                quarantined: final(self).quarantined,
                stats: final(self).stats,
                ..*old(self)
            }),
            runner::same_tallies(final(self).stats, old(self).stats),
            final(self).stats.quarantined > 0,
            final(self).stats.quarantined >= old(self).stats.quarantined,
            final(self).stats.cycles_cut == old(self).stats.cycles_cut,
            final(self).stats.rounds == old(self).stats.rounds,
    {
        let i: usize = ri as usize;
        while self.quarantined.len() <= i
            invariant
                *self == (Runner { quarantined: self.quarantined, ..*old(self) }),
            decreases i + 1 - self.quarantined@.len(),
        {
            self.quarantined.push(false);
        }
        self.quarantined.set(i, true);
        self.stats.quarantined = bump(self.stats.quarantined);
    }

    /// Tries the candidate rules at `n`, whose operands are normal, in order.
    pub(crate) fn try_candidates(
        &mut self,
        cx: &mut Context,
        inner: &Inner,
        n: u32,
        cands: &Vec<u32>,
    ) -> (out: Result<Step, Stop>)
        requires
            old(self).wf(old(cx)),
            inner.wf(),
            n < old(cx).n(),
            forall|i: int| 0 <= i < cands@.len() ==> #[trigger] cands@[i] < inner.rules@.len(),
        ensures
            runner::went(final(self), final(cx), old(self), old(cx)),
            out matches Err(e) ==> final(self).refuses(final(cx), e),
            out matches Ok(s) ==> step_stands(
                s,
                final(cx).tm(),
                final(self).hyp@,
                inner.sound(),
                n as int,
            ),
            cands@.len() == 0 ==> out == Ok::<Step, Stop>(
                Step::Normal(Fin { done: true, why: None, rel: Reliance { used: 0 } }),
            ),
            old(self).refuses_all() ==> !(out matches Ok(Step::To(_, _))),
            // What replaces the node agrees with it at every point that is verified.
            out matches Ok(Step::To(x, f)) ==> exists|ri: u32| #[trigger]
                cands@.contains(ri) && accept::agree_at(
                    final(cx).tm(),
                    final(self).hyp@,
                    f.rel,
                    n as int,
                    x as int,
                    accept::points_for(old(self).verify, inner.proven@[ri as int]) as int,
                ),
            // A node is left only where every candidate leaves it.
            out matches Ok(Step::Normal(f)) ==> f.why is None && final(self).quiet() ==> forall|j: int|
                0 <= j < cands@.len() ==> structure::leaves(
                    inner.rules@[#[trigger] cands@[j] as int],
                    final(cx).nodes@,
                    final(cx).tm(),
                    n as int,
                ),
    {
        proof {
            reveal(runner::refuses_every);
        }
        let mut fin = Fin::full();
        let mut i: usize = 0;
        while i < cands.len()
            invariant
                runner::went(self, cx, old(self), old(cx)),
                inner.wf(),
                n < old(cx).n(),
                i <= cands@.len(),
                forall|j: int| 0 <= j < cands@.len() ==> #[trigger] cands@[j] < inner.rules@.len(),
                i == 0 ==> fin == (Fin { done: true, why: None, rel: Reliance { used: 0 } }),
                fin.why is None && self.quiet() ==> forall|j: int|
                    0 <= j < i ==> structure::leaves(
                        inner.rules@[#[trigger] cands@[j] as int],
                        cx.nodes@,
                        cx.tm(),
                        n as int,
                    ),
            decreases cands@.len() - i,
        {
            let ri = cands[i];
            let ghost cx1 = *cx;
            let ghost fin1 = fin;
            let ghost i1 = i as int;
            i = i + 1;
            let rule = &inner.rules[ri as usize];
            assert(meaning::rule_ok(inner.rules@[ri as int]));
            if (ri as usize) < self.quarantined.len() && self.quarantined[ri as usize] {
                assert(self.quarantined@[ri as int]);
                // Skipped only for this call: the result is not final.
                fin = fin.and(Fin::provisional());
                continue;
            }
            self.charge(Counter::Candidates, 1)?;
            self.emit(Event::Candidate { rule, node: Expr { id: n } });
            let tried = self.try_apply(cx, rule, n)?;
            proof {
                if fin1.why is None && self.quiet() {
                    assert forall|j: int| 0 <= j < i1 implies structure::leaves(
                        inner.rules@[#[trigger] cands@[j] as int],
                        cx.nodes@,
                        cx.tm(),
                        n as int,
                    ) by {
                        structure::lemma_leaves_grow(
                            inner.rules@[cands@[j] as int],
                            &cx1,
                            cx,
                            n as int,
                        );
                    }
                }
                if tried is NoMatch || tried is GuardFalse {
                    assert(structure::leaves(*rule, cx.nodes@, cx.tm(), n as int)) by {
                        if structure::certain(*rule) {
                            apply::lemma_simple_builds(*rule);
                        }
                    }
                }
            }
            match tried {
                Applied::Degraded(why) => {
                    fin = fin.and(Fin::capped(why));
                    self.stats.degraded = bump(self.stats.degraded);
                    self.emit(Event::Degraded { rule });
                },
                Applied::GuardFalse => {
                    self.stats.guard_false = bump(self.stats.guard_false);
                    self.emit(Event::GuardFalse { rule });
                },
                Applied::NoMatch => {
                    self.stats.no_match = bump(self.stats.no_match);
                    self.emit(Event::NoMatch { rule });
                },
                Applied::To(r, own) => {
                    if r == n {
                        self.stats.no_change = bump(self.stats.no_change);
                        self.emit(Event::NoChange { rule });
                        continue;
                    }
                    let proven = inner.proven[ri as usize];
                    proof {
                        reveal(runner::refuses_every);
                    }
                    match self.accept(cx, By::Rule(rule), proven, n, r, own.rel)? {
                        Accept::Yes => {
                            let all = fin.and(own);
                            proof {
                                if inner.sound() {
                                    assert(meaning::rule_sound(inner.rules@[ri as int]));
                                }
                                assert(cands@.contains(ri));
                                assert(accept::agree_at(
                                    cx.tm(),
                                    self.hyp@,
                                    all.rel,
                                    n as int,
                                    r as int,
                                    accept::points_for(
                                        old(self).verify,
                                        inner.proven@[ri as int],
                                    ) as int,
                                ));
                            }
                            return Ok(Step::To(r, all));
                        },
                        Accept::Vetoed => {},
                        Accept::Rejected(reason) => {
                            if reason != Reject::Termination {
                                self.quarantine(ri);
                            }
                        },
                    }
                },
            }
        }
        Ok(Step::Normal(fin))
    }

    /// Tries the phase's candidate rules at `n`, whose operands are normal, and after them its
    /// host rewrites.
    pub(crate) fn rewrite(
        &mut self,
        cx: &mut Context,
        inner: &Inner,
        net: &DispatchNet,
        hosts: &Vec<u32>,
        n: u32,
    ) -> (out: Result<Step, Stop>)
        requires
            old(self).wf(old(cx)),
            inner.wf(),
            net.wf(inner.rules@.len()),
            link::hosts_listed(hosts@, inner.host@.len()),
            n < old(cx).n(),
        ensures
            runner::went(final(self), final(cx), old(self), old(cx)),
            out matches Err(e) ==> final(self).refuses(final(cx), e),
            out matches Ok(s) ==> step_stands(
                s,
                final(cx).tm(),
                final(self).hyp@,
                inner.sound(),
                n as int,
            ),
            old(self).refuses_all() ==> !(out matches Ok(Step::To(_, _))),
            // What replaces the node was verified, as a rule's or a host's application is.
            out matches Ok(Step::To(x, f)) ==> verified(
                inner,
                old(self).verify,
                final(cx).tm(),
                final(self).hyp@,
                f.rel,
                n as int,
                x as int,
            ),
            // A node is left only where every rule of the net leaves it.
            out matches Ok(Step::Normal(f)) ==> f.why is None && final(self).quiet() ==> rest::rules_rest(
                *net,
                inner.rules@,
                final(cx).nodes@,
                final(cx).tm(),
                n as int,
            ),
    {
        let cands = net.candidates(cx, n);
        let ghost cx0 = *cx;
        let step = self.try_candidates(cx, inner, n, &cands)?;
        let ghost cx1 = *cx;
        let ghost calm = self.quiet();
        proof {
            if let Step::To(r, f) = step {
                let ri = choose|ri: u32| #[trigger]
                    cands@.contains(ri) && accept::agree_at(
                        cx.tm(),
                        self.hyp@,
                        f.rel,
                        n as int,
                        r as int,
                        accept::points_for(old(self).verify, inner.proven@[ri as int]) as int,
                    );
                let q = choose|q: int| 0 <= q < cands@.len() && cands@[q] == ri;
                assert(cands@[q] < inner.rules@.len());
                let _ = inner.proven@[ri as int];
            }
            if let Step::Normal(f) = step {
                if f.why is None && calm {
                    rest::lemma_rules_rest(*net, inner.rules@, &cx0, cx, n, cands@);
                }
            }
        }
        if hosts.len() == 0 {
            return Ok(step);
        }
        assert(hosts@[0] < inner.host@.len());
        match step {
            Step::To(r, f) => Ok(Step::To(r, f)),
            Step::Normal(fin) => {
                let last = self.try_host(cx, &inner.host, n, hosts)?;
                proof {
                    if fin.why is None && calm {
                        rest::lemma_rules_rest_grow(*net, inner.rules@, &cx1, cx, n);
                    }
                }
                match last {
                    Step::To(r, f) => {
                        let all = fin.and(f);
                        proof {
                            let hi = choose|hi: u32| #[trigger]
                                hosts@.contains(hi) && accept::agree_at(
                                    cx.tm(),
                                    self.hyp@,
                                    f.rel,
                                    n as int,
                                    r as int,
                                    accept::points_for(
                                        old(self).verify,
                                        inner.host@[hi as int].trusted,
                                    ) as int,
                                );
                            let q = choose|q: int| 0 <= q < hosts@.len() && hosts@[q] == hi;
                            assert(hosts@[q] < inner.host@.len());
                            assert(accept::agree_at(
                                cx.tm(),
                                self.hyp@,
                                all.rel,
                                n as int,
                                r as int,
                                accept::points_for(
                                    old(self).verify,
                                    inner.host@[hi as int].trusted,
                                ) as int,
                            ));
                        }
                        Ok(Step::To(r, all))
                    },
                    Step::Normal(f) => Ok(Step::Normal(fin.and(f))),
                }
            },
        }
    }
}

} // verus!
