//! Checking the examples of a rule.

use vstd::prelude::*;
use crate::engine::runner;
use crate::rules::meaning;
use crate::check::verdict::ExampleFailure;
use crate::engine::apply::Applied;
use crate::engine::link::Engine;
use crate::engine::rewrite;
use crate::engine::runner::Runner;
use crate::expr::{Context, Expr};
use crate::rules::rule::Rule;
use crate::term::{Env, Term};

verus! {

/// Which example a failure is of.
pub open spec fn failed(f: ExampleFailure) -> int {
    match f {
        ExampleFailure::Parse { example, .. } => example as int,
        ExampleFailure::DoesNotFire { example, .. } => example as int,
        ExampleFailure::Differs { example, .. } => example as int,
    }
}

/// A failure is of example `i`.
pub open spec fn fails(out: Seq<ExampleFailure>, i: int) -> bool {
    exists|k: int| 0 <= k < out.len() && failed(#[trigger] out[k]) == i
}

/// The two sides of an example have one value everywhere.
pub open(crate) spec fn holds(cx: &Context, x: (Expr, Expr)) -> bool {
    forall|env: Env| #![trigger cx.value(x.0, env)] cx.value(x.0, env) == cx.value(x.1, env)
}

/// Among these terms, the rule gives `got` for `x`: its template at a match.
pub open(crate) spec fn gave(r: Rule, terms: Seq<Term>, x: Expr, got: Expr) -> bool {
    exists|before: Seq<Term>, after: Seq<Term>| #[trigger]
        rewrite::applied(r, before, after, x.id, got.id) && part(before, terms) && part(
            after,
            terms,
        ) && x.id < before.len() && got.id < after.len()
}

/// The first terms of `b`.
pub open spec fn part(a: Seq<Term>, b: Seq<Term>) -> bool {
    a.len() <= b.len() && forall|i: int| 0 <= i < a.len() ==> #[trigger] a[i] == b[i]
}

proof fn lemma_gave(r: Rule, t0: Seq<Term>, t1: Seq<Term>, x: Expr, got: Expr)
    requires
        gave(r, t0, x, got),
        t0.len() <= t1.len(),
        forall|i: int| 0 <= i < t0.len() ==> #[trigger] t1[i] == t0[i],
    ensures
        gave(r, t1, x, got),
{
    let (before, after) = choose|before: Seq<Term>, after: Seq<Term>| #[trigger]
        rewrite::applied(r, before, after, x.id, got.id) && part(before, t0) && part(after, t0)
            && x.id < before.len() && got.id < after.len();
    assert forall|i: int| 0 <= i < before.len() implies #[trigger] before[i] == t1[i] by {
        assert(before[i] == t0[i]);
    }
    assert forall|i: int| 0 <= i < after.len() implies #[trigger] after[i] == t1[i] by {
        assert(after[i] == t0[i]);
    }
    assert(part(before, t1) && part(after, t1));
}

/// The failure holds the input and the output expected, and another expression where the rule
/// gives one.
pub open(crate) spec fn tells(
    f: ExampleFailure,
    r: Rule,
    examples: Seq<(Expr, Expr)>,
    cx: &Context,
) -> bool {
    let x = examples[failed(f)];
    match f {
        ExampleFailure::Parse { input, expected, .. } => (input, expected) == x,
        ExampleFailure::DoesNotFire { input, .. } => input == x.0,
        ExampleFailure::Differs { input, expected, got, .. } => (input, expected) == x && got
            != expected && cx.has(got) && gave(r, cx.tm(), input, got),
    }
}

/// Applies `rule` once, at the root, to the input of each example (an input and the output
/// expected of it) and compares the result with the output. Guards are answered by the facts of
/// the example's own input. The failures, in example order.
pub fn check_examples(cx: &mut Context, rule: &Rule, examples: &Vec<(Expr, Expr)>) -> (out: Vec<
    ExampleFailure,
>)
    requires
        old(cx).wf(),
        meaning::rule_ok(*rule),
    ensures
        final(cx).wf(),
        final(cx).extends(old(cx)),
        // In example order, at most one of each.
        forall|k: int| 0 <= k < out@.len() ==> 0 <= failed(#[trigger] out@[k]) < examples@.len(),
        forall|j: int, k: int|
            #![trigger out@[j], out@[k]]
            0 <= j < k < out@.len() ==> failed(out@[j]) < failed(out@[k]),
        // What cannot be built is told apart.
        forall|k: int|
            0 <= k < out@.len() ==> (#[trigger] out@[k] is Parse <==> !(old(cx).has(
                examples@[failed(out@[k])].0,
            ) && old(cx).has(examples@[failed(out@[k])].1))),
        // Each says what it is about; what a rule gives instead is something else.
        forall|k: int|
            0 <= k < out@.len() ==> tells(#[trigger] out@[k], *rule, examples@, final(cx)),
        // Where nothing failed, the rule gave what was expected.
        forall|i: int|
            #![trigger examples@[i]]
            0 <= i < examples@.len() && !fails(out@, i) ==> gave(
                *rule,
                final(cx).tm(),
                examples@[i].0,
                examples@[i].1,
            ),
        // An example of a sound rule that holds is an equation.
        meaning::rule_sound(*rule) ==> forall|i: int|
            #![trigger examples@[i]]
            0 <= i < examples@.len() && !fails(out@, i) ==> old(cx).has(examples@[i].0) && old(
                cx,
            ).has(examples@[i].1) && holds(old(cx), examples@[i]),
{
    let engine = Engine::bare();
    let mut runner = Runner::alone(cx, &engine.inner);
    let ghost runner0 = runner;
    let ghost cx0 = *cx;
    let mut out: Vec<ExampleFailure> = Vec::new();
    let len: usize = cx.len();
    let mut i: usize = 0;
    while i < examples.len()
        invariant
            i <= examples@.len(),
            len == cx0.n(),
            cx0 == *old(cx),
            cx0.wf(),
            meaning::rule_ok(*rule),
            runner::went(&runner, cx, &runner0, &cx0),
            forall|k: int, env: Env| #[trigger] (runner0.hyp@)(k, env),
            forall|k: int| 0 <= k < out@.len() ==> 0 <= failed(#[trigger] out@[k]) < i,
            forall|j: int, k: int|
                #![trigger out@[j], out@[k]]
                0 <= j < k < out@.len() ==> failed(out@[j]) < failed(out@[k]),
            forall|k: int|
                0 <= k < out@.len() ==> (#[trigger] out@[k] is Parse <==> !(cx0.has(
                    examples@[failed(out@[k])].0,
                ) && cx0.has(examples@[failed(out@[k])].1))),
            forall|k: int| 0 <= k < out@.len() ==> tells(#[trigger] out@[k], *rule, examples@, cx),
            forall|j: int|
                #![trigger examples@[j]]
                0 <= j < i && !fails(out@, j) ==> gave(
                    *rule,
                    cx.tm(),
                    examples@[j].0,
                    examples@[j].1,
                ),
            meaning::rule_sound(*rule) ==> forall|j: int|
                #![trigger examples@[j]]
                0 <= j < i && !fails(out@, j) ==> cx0.has(examples@[j].0) && cx0.has(
                    examples@[j].1,
                ) && holds(&cx0, examples@[j]),
        decreases examples@.len() - i,
    {
        let (e, want) = examples[i];
        let ghost out0 = out@;
        let ghost cx1 = *cx;
        let failure = if (e.id as usize) >= len || (want.id as usize) >= len {
            Some(ExampleFailure::Parse { example: i, input: e, expected: want })
        } else {
            match runner.try_apply(cx, rule, e.id) {
                Ok(Applied::To(got, fin)) => {
                    proof {
                        assert(rewrite::applied(*rule, cx1.tm(), cx.tm(), e.id, got));
                        assert(part(cx1.tm(), cx.tm()) && part(cx.tm(), cx.tm()));
                        assert(e.id < cx1.tm().len() && got < cx.tm().len());
                        let x = Expr { id: got };
                        assert(rewrite::applied(*rule, cx1.tm(), cx.tm(), e.id, x.id));
                        assert(gave(*rule, cx.tm(), e, Expr { id: got }));
                    }
                    if got == want.id {
                        proof {
                            if meaning::rule_sound(*rule) {
                                assert forall|env: Env|
                                    #![trigger cx0.value(e, env)]
                                    cx0.value(e, env) == cx0.value(want, env) by {
                                    assert(fin.rel.admits(runner0.hyp@, env));
                                    assert(cx.tm()[e.id as int] == cx0.tm()[e.id as int]);
                                    assert(cx.tm()[want.id as int] == cx0.tm()[want.id as int]);
                                    let _ = crate::term::value(cx.tm()[e.id as int], env);
                                }
                                assert(holds(&cx0, examples@[i as int]));
                            }
                        }
                        None
                    } else {
                        Some(
                            ExampleFailure::Differs {
                                example: i,
                                input: e,
                                expected: want,
                                got: Expr { id: got },
                            },
                        )
                    }
                },
                _ => Some(ExampleFailure::DoesNotFire { example: i, input: e }),
            }
        };
        let ghost bad = failure is Some;
        proof {
            assert forall|j: int|
                #![trigger examples@[j]]
                0 <= j < i && !fails(out0, j) implies gave(
                *rule,
                cx.tm(),
                examples@[j].0,
                examples@[j].1,
            ) by {
                lemma_gave(*rule, cx1.tm(), cx.tm(), examples@[j].0, examples@[j].1);
            }
            assert forall|k: int| 0 <= k < out0.len() implies tells(
                #[trigger] out0[k],
                *rule,
                examples@,
                cx,
            ) by {
                if let ExampleFailure::Differs { input, got, .. } = out0[k] {
                    lemma_gave(*rule, cx1.tm(), cx.tm(), input, got);
                }
            }
        }
        if let Some(f) = failure {
            out.push(f);
        }
        proof {
            assert forall|j: int| #[trigger] fails(out0, j) implies fails(out@, j) by {
                let k = choose|k: int| 0 <= k < out0.len() && failed(#[trigger] out0[k]) == j;
                assert(out@[k] == out0[k]);
            }
            if bad {
                assert(failed(out@[out0.len() as int]) == i);
            }
            assert(!fails(out@, i as int) ==> !bad);
            assert forall|j: int|
                #![trigger examples@[j]]
                0 <= j < i + 1 && !fails(out@, j) implies gave(
                *rule,
                cx.tm(),
                examples@[j].0,
                examples@[j].1,
            ) by {
                if j < i {
                    assert(!fails(out0, j));
                }
            }
            if meaning::rule_sound(*rule) {
                assert forall|j: int|
                    #![trigger examples@[j]]
                    0 <= j < i + 1 && !fails(out@, j) implies cx0.has(examples@[j].0) && cx0.has(
                    examples@[j].1,
                ) && holds(&cx0, examples@[j]) by {
                    if j < i {
                        assert(!fails(out0, j));
                    }
                }
            }
        }
        i = i + 1;
    }
    out
}

} // verus!
