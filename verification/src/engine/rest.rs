//! What a phase leaves as it is.

use vstd::prelude::*;
use crate::engine::dispatch;
use crate::engine::dispatch::DispatchNet;
use crate::engine::fin::Fin;
use crate::engine::link::PhaseImpl;
use crate::engine::pass::casts;
use crate::engine::pass::compares::is_boolean;
use crate::engine::pass::shapes;
use crate::engine::pass::spoken;
use crate::term;
use crate::engine::results::{PhaseMemo, Results};
use crate::engine::stats::PassKind;
use crate::facts::floor;
use crate::expr::{Context, Node};
use crate::rules::heads;
use crate::rules::rule::Rule;
use crate::rules::structure;
use crate::term::Term;

verus! {

/// Every rule that the net lists leaves node `n`.
pub open spec fn rules_rest(
    net: DispatchNet,
    rules: Seq<Rule>,
    nodes: Seq<Node>,
    terms: Seq<Term>,
    n: int,
) -> bool {
    forall|order: Seq<u32>, i: int|
        #![trigger dispatch::net_of(net, rules, order), order[i]]
        dispatch::net_of(net, rules, order) && 0 <= i < order.len() ==> structure::leaves(
            rules[order[i] as int],
            nodes,
            terms,
            n,
        )
}

/// Where the candidates leave a node, so do the rules that are none.
pub(crate) proof fn lemma_rules_rest(
    net: DispatchNet,
    rules: Seq<Rule>,
    cx0: &Context,
    cx: &Context,
    n: u32,
    cands: Seq<u32>,
)
    requires
        cx0.wf(),
        cx.wf(),
        cx.extends(cx0),
        n < cx0.n(),
        forall|order: Seq<u32>| #[trigger]
            dispatch::net_of(net, rules, order) ==> cands == dispatch::chosen(
                rules,
                order,
                order.len() as int,
                heads::node_place(cx0.nodes@[n as int]),
                heads::kid_places(cx0.nodes@, cx0.nodes@[n as int]),
            ),
        forall|j: int|
            0 <= j < cands.len() ==> structure::leaves(
                rules[#[trigger] cands[j] as int],
                cx.nodes@,
                cx.tm(),
                n as int,
            ),
    ensures
        rules_rest(net, rules, cx.nodes@, cx.tm(), n as int),
{
    assert forall|order: Seq<u32>, i: int|
        #![trigger dispatch::net_of(net, rules, order), order[i]]
        dispatch::net_of(net, rules, order) && 0 <= i < order.len() implies structure::leaves(
        rules[order[i] as int],
        cx.nodes@,
        cx.tm(),
        n as int,
    ) by {
        let r = rules[order[i] as int];
        let o = heads::node_place(cx0.nodes@[n as int]);
        let ps = heads::kid_places(cx0.nodes@, cx0.nodes@[n as int]);
        dispatch::law_dropped_rules_cannot_match(rules, order, order.len() as int, o, ps, i);
        if cands.contains(order[i]) {
            let j = choose|j: int| 0 <= j < cands.len() && cands[j] == order[i];
            let _ = cands[j];
        } else if structure::certain(r) {
            assert forall|ws: Seq<u16>, ns: Seq<u32>| !#[trigger] structure::matches_at(
                r,
                ws,
                ns,
                cx.nodes@,
                cx.tm(),
                n as int,
            ) by {
                if structure::matches_at(r, ws, ns, cx.nodes@, cx.tm(), n as int) {
                    structure::lemma_may_match(r, ws, ns, cx.nodes@, cx.tm(), n as int);
                    assert(cx.nodes@[n as int] == cx0.nodes@[n as int]);
                    assert(cx0.ok_at(n as int));
                    assert(heads::kid_places(cx.nodes@, cx.nodes@[n as int]) =~= ps);
                }
            }
        }
    }
}

/// Rules go on leaving a node as the arena grows.
pub(crate) proof fn lemma_rules_rest_grow(
    net: DispatchNet,
    rules: Seq<Rule>,
    cx0: &Context,
    cx1: &Context,
    n: u32,
)
    requires
        cx0.wf(),
        cx1.wf(),
        cx1.extends(cx0),
        n < cx0.n(),
        rules_rest(net, rules, cx0.nodes@, cx0.tm(), n as int),
    ensures
        rules_rest(net, rules, cx1.nodes@, cx1.tm(), n as int),
{
    assert forall|order: Seq<u32>, i: int|
        #![trigger dispatch::net_of(net, rules, order), order[i]]
        dispatch::net_of(net, rules, order) && 0 <= i < order.len() implies structure::leaves(
        rules[order[i] as int],
        cx1.nodes@,
        cx1.tm(),
        n as int,
    ) by {
        structure::lemma_leaves_grow(rules[order[i] as int], cx0, cx1, n as int);
    }
}

/// The phase leaves node `n`: its rules do; for fact folding the operators leave a bit of it open;
/// for casts it does not extract an operand; for compares it is no combination of comparisons, of one
/// node with constants or of two nodes, that always or never holds. (Of the other passes nothing is said here.)
pub open spec fn rests(
    p: PhaseImpl,
    rules: Seq<Rule>,
    nodes: Seq<Node>,
    terms: Seq<Term>,
    n: u32,
) -> bool {
    match p {
        PhaseImpl::Local(net, _) => rules_rest(net, rules, nodes, terms, n as int),
        PhaseImpl::Pass(PassKind::FactFold) => nodes[n as int] is Const || !floor::fixed(
            terms[n as int],
        ),
        PhaseImpl::Pass(PassKind::Casts) => !casts::reads_operand(nodes, terms, n),
        PhaseImpl::Pass(PassKind::Compares) => spoken::undecided(nodes, terms, n as int)
            && spoken::open_pair(nodes, terms, n as int),
        PhaseImpl::Pass(_) => true,
    }
}

/// A phase goes on leaving a node as the arena grows.
pub(crate) proof fn lemma_rests_grow(
    p: PhaseImpl,
    rules: Seq<Rule>,
    cx0: &Context,
    cx1: &Context,
    n: u32,
)
    requires
        cx0.wf(),
        cx1.wf(),
        cx1.extends(cx0),
        n < cx0.n(),
        rests(p, rules, cx0.nodes@, cx0.tm(), n),
    ensures
        rests(p, rules, cx1.nodes@, cx1.tm(), n),
{
    assert(cx1.nodes@[n as int] == cx0.nodes@[n as int]);
    assert(cx1.tm()[n as int] == cx0.tm()[n as int]);
    assert(cx0.ok_at(n as int));
    match p {
        PhaseImpl::Local(net, _) => {
            lemma_rules_rest_grow(net, rules, cx0, cx1, n);
        },
        PhaseImpl::Pass(PassKind::Compares) => {
            assert forall|x: u32, y: u32|
                #![trigger spoken::relates(cx1.nodes@, n as int, x as int, y as int)]
                is_boolean(cx1.nodes@[n as int]) && spoken::relates(
                    cx1.nodes@,
                    n as int,
                    x as int,
                    y as int,
                ) implies !spoken::same_for_all(
                cx1.nodes@,
                n as int,
                x as int,
                term::twidth(cx1.tm()[x as int]),
                true,
            ) && !spoken::same_for_all(
                cx1.nodes@,
                n as int,
                x as int,
                term::twidth(cx1.tm()[x as int]),
                false,
            ) by {
                spoken::lemma_relates(cx1, n as int, x as int, y as int);
                spoken::lemma_related_grow(cx0, cx1, n as int, x as int, y as int);
                assert(spoken::relates(cx0.nodes@, n as int, x as int, y as int));
                assert(cx1.tm()[x as int] == cx0.tm()[x as int]);
                let w = term::twidth(cx0.tm()[x as int]);
                assert forall|b: bool| #[trigger]
                    spoken::same_for_all(cx1.nodes@, n as int, x as int, w, b) implies spoken::same_for_all(
                    cx0.nodes@,
                    n as int,
                    x as int,
                    w,
                    b,
                ) by {
                    assert forall|v: Seq<bool>, u: Seq<bool>|
                        v.len() == w && u.len() == w implies #[trigger] spoken::truth_of(
                        cx0.nodes@,
                        n as int,
                        x as int,
                        v,
                        u,
                    ) == b by {
                        assert(spoken::truth_of(cx1.nodes@, n as int, x as int, v, u) == b);
                    }
                }
            }
            assert forall|x: u32|
                #![trigger spoken::speaks(cx1.nodes@, n as int, x as int)]
                x < cx1.nodes@.len() && is_boolean(cx1.nodes@[n as int]) && spoken::speaks(
                    cx1.nodes@,
                    n as int,
                    x as int,
                ) && spoken::most_spans(cx1.nodes@, n as int) <= shapes::MAX_INTERVALS implies
            !spoken::always(cx1.nodes@, cx1.tm(), n as int, x as int) && !spoken::never(
                cx1.nodes@,
                cx1.tm(),
                n as int,
                x as int,
            ) by {
                spoken::lemma_speaks(cx1, n as int, x as int);
                spoken::lemma_spoken_grow(cx0, cx1, n as int, x as int);
                assert(spoken::speaks(cx0.nodes@, n as int, x as int));
                assert(cx1.tm()[x as int] == cx0.tm()[x as int]);
                if spoken::always(cx1.nodes@, cx1.tm(), n as int, x as int) {
                    assert forall|v: Seq<bool>|
                        v.len() == term::twidth(cx0.tm()[x as int]) implies #[trigger] spoken::truth(
                        cx0.nodes@,
                        cx0.tm(),
                        n as int,
                        x as int,
                        v,
                    ) by {
                        assert(spoken::truth(cx1.nodes@, cx1.tm(), n as int, x as int, v));
                    }
                }
                if spoken::never(cx1.nodes@, cx1.tm(), n as int, x as int) {
                    assert forall|v: Seq<bool>|
                        v.len() == term::twidth(cx0.tm()[x as int]) implies !#[trigger] spoken::truth(
                        cx0.nodes@,
                        cx0.tm(),
                        n as int,
                        x as int,
                        v,
                    ) by {
                        assert(!spoken::truth(cx1.nodes@, cx1.tm(), n as int, x as int, v));
                    }
                }
            }
        },
        PhaseImpl::Pass(PassKind::Casts) => {
            if let Node::Extract(a, lo) = cx0.nodes@[n as int] {
                assert(cx1.nodes@[a as int] == cx0.nodes@[a as int]);
                assert(cx1.tm()[a as int] == cx0.tm()[a as int]);
                assert(cx0.ok_at(a as int));
                match cx0.nodes@[a as int] {
                    Node::Zext(b) | Node::Sext(b) => {
                        assert(cx1.tm()[b as int] == cx0.tm()[b as int]);
                    },
                    Node::Concat(h, l) => {
                        assert(cx1.tm()[h as int] == cx0.tm()[h as int]);
                        assert(cx1.tm()[l as int] == cx0.tm()[l as int]);
                    },
                    _ => {},
                }
            }
        },
        _ => {},
    }
}

/// Every result of a phase is left by it: the final ones, and those that no cap kept open.
#[verifier::opaque]
pub(crate) open spec fn rested(
    res: Results,
    phases: Seq<PhaseImpl>,
    rules: Seq<Rule>,
    nodes: Seq<Node>,
    terms: Seq<Term>,
) -> bool {
    &&& memo_rests(res.memo@, phases, rules, nodes, terms)
    &&& forall|p: int, n: u32|
        #![trigger res.partial@[p]@[n]]
        0 <= p < phases.len() && res.partial@[p]@.contains_key(n) && res.partial@[p]@[n].1.why is None
            ==> res.partial@[p]@[n].0 < terms.len() && rests(
            phases[p],
            rules,
            nodes,
            terms,
            res.partial@[p]@[n].0,
        )
}

/// Every final result of a phase is left by it.
pub open spec fn memo_rests(
    memo: Seq<PhaseMemo>,
    phases: Seq<PhaseImpl>,
    rules: Seq<Rule>,
    nodes: Seq<Node>,
    terms: Seq<Term>,
) -> bool {
    forall|p: int, n: u32|
        #![trigger memo[p].at(n)]
        0 <= p < phases.len() ==> (memo[p].at(n) matches Some((r, _)) ==> r < terms.len() && rests(
            phases[p],
            rules,
            nodes,
            terms,
            r,
        ))
}

/// Where nothing is kept, all that is rests.
pub(crate) proof fn lemma_fresh_rests(
    res: Results,
    phases: Seq<PhaseImpl>,
    rules: Seq<Rule>,
    nodes: Seq<Node>,
    terms: Seq<Term>,
)
    requires
        res.memo@.len() == phases.len(),
        res.partial@.len() == phases.len(),
        memo_rests(res.memo@, phases, rules, nodes, terms),
        forall|p: int|
            #![trigger res.partial@[p]]
            0 <= p < res.partial@.len() ==> res.partial@[p]@ == Map::<u32, (u32, Fin)>::empty(),
    ensures
        rested(res, phases, rules, nodes, terms),
{
    reveal(rested);
}

pub(crate) proof fn lemma_rested_grow(
    res: Results,
    phases: Seq<PhaseImpl>,
    rules: Seq<Rule>,
    cx0: &Context,
    cx1: &Context,
)
    requires
        cx0.wf(),
        cx1.wf(),
        cx1.extends(cx0),
        rested(res, phases, rules, cx0.nodes@, cx0.tm()),
    ensures
        rested(res, phases, rules, cx1.nodes@, cx1.tm()),
{
    reveal(rested);
    assert forall|p: int, n: u32|
        #![trigger res.memo@[p].at(n)]
        0 <= p < phases.len() implies (res.memo@[p].at(n) matches Some((r, _)) ==> r
        < cx1.tm().len() && rests(phases[p], rules, cx1.nodes@, cx1.tm(), r)) by {
        if let Some((r, _)) = res.memo@[p].at(n) {
            lemma_rests_grow(phases[p], rules, cx0, cx1, r);
        }
    }
    assert forall|p: int, n: u32|
        #![trigger res.partial@[p]@[n]]
        0 <= p < phases.len() && res.partial@[p]@.contains_key(n)
            && res.partial@[p]@[n].1.why is None implies res.partial@[p]@[n].0 < cx1.tm().len()
        && rests(phases[p], rules, cx1.nodes@, cx1.tm(), res.partial@[p]@[n].0) by {
        lemma_rests_grow(phases[p], rules, cx0, cx1, res.partial@[p]@[n].0);
    }
}

pub(crate) proof fn lemma_rested_set(
    old: Results,
    new: Results,
    phase: int,
    n: u32,
    r: u32,
    fin: Fin,
    phases: Seq<PhaseImpl>,
    rules: Seq<Rule>,
    nodes: Seq<Node>,
    terms: Seq<Term>,
)
    requires
        rested(old, phases, rules, nodes, terms),
        new.put(&old, phase, n, r, fin),
        old.memo@.len() == phases.len(),
        old.partial@.len() == phases.len(),
        0 <= phase < phases.len(),
        r < terms.len(),
        fin.done || fin.why is None ==> rests(phases[phase], rules, nodes, terms, r),
    ensures
        rested(new, phases, rules, nodes, terms),
{
    reveal(Results::put);
    reveal(rested);
    assert forall|p: int, k: u32|
        #![trigger new.memo@[p].at(k)]
        0 <= p < phases.len() implies (new.memo@[p].at(k) matches Some((x, _)) ==> x < terms.len()
        && rests(phases[p], rules, nodes, terms, x)) by {
        let _ = old.memo@[p].at(k);
    }
    assert forall|p: int, k: u32|
        #![trigger new.partial@[p]@[k]]
        0 <= p < phases.len() && new.partial@[p]@.contains_key(k)
            && new.partial@[p]@[k].1.why is None implies new.partial@[p]@[k].0 < terms.len()
        && rests(phases[p], rules, nodes, terms, new.partial@[p]@[k].0) by {
        let _ = new.partial@[p];
        let _ = old.partial@[p]@[k];
    }
}

pub(crate) proof fn lemma_rested_get(
    res: Results,
    phase: int,
    n: u32,
    x: u32,
    fin: Fin,
    phases: Seq<PhaseImpl>,
    rules: Seq<Rule>,
    nodes: Seq<Node>,
    terms: Seq<Term>,
)
    requires
        rested(res, phases, rules, nodes, terms),
        0 <= phase < phases.len(),
        fin.done ==> res.memo@[phase].at(n) == Some((x, fin.rel)),
        !fin.done ==> res.partial@[phase]@.contains_key(n) && res.partial@[phase]@[n] == (x, fin),
    ensures
        fin.done || fin.why is None ==> rests(phases[phase], rules, nodes, terms, x),
{
    reveal(rested);
    let _ = res.memo@[phase].at(n);
    let _ = res.partial@[phase]@[n];
}

/// Every result is the node itself.
#[verifier::opaque]
pub open spec fn untouched(res: Results) -> bool {
    &&& forall|p: int, n: u32|
        #![trigger res.memo@[p].at(n)]
        0 <= p < res.memo@.len() ==> (res.memo@[p].at(n) matches Some((r, _)) ==> r == n)
    &&& forall|p: int, n: u32|
        #![trigger res.partial@[p]@[n]]
        0 <= p < res.partial@.len() && res.partial@[p]@.contains_key(n) ==> res.partial@[p]@[n].0
            == n
}

pub proof fn lemma_untouched_set(old: Results, new: Results, phase: int, n: u32, fin: Fin)
    requires
        untouched(old),
        new.put(&old, phase, n, n, fin),
    ensures
        untouched(new),
{
    reveal(Results::put);
    reveal(untouched);
    assert forall|p: int, k: u32|
        #![trigger new.memo@[p].at(k)]
        0 <= p < new.memo@.len() implies (new.memo@[p].at(k) matches Some((r, _)) ==> r == k) by {
        let _ = old.memo@[p].at(k);
    }
    assert forall|p: int, k: u32|
        #![trigger new.partial@[p]@[k]]
        0 <= p < new.partial@.len() && new.partial@[p]@.contains_key(k) implies new.partial@[p]@[k].0
        == k by {
        let _ = new.partial@[p];
        let _ = old.partial@[p]@[k];
    }
}

pub proof fn lemma_untouched_get(res: Results, phase: int, n: u32, x: u32, fin: Fin)
    requires
        untouched(res),
        0 <= phase < res.memo@.len(),
        phase < res.partial@.len(),
        fin.done ==> res.memo@[phase].at(n) == Some((x, fin.rel)),
        !fin.done ==> res.partial@[phase]@.contains_key(n) && res.partial@[phase]@[n] == (x, fin),
    ensures
        x == n,
{
    reveal(untouched);
    let _ = res.memo@[phase].at(n);
    let _ = res.partial@[phase]@[n];
}

/// Forgetting the open results of a phase leaves what rests, and what is untouched.
pub(crate) proof fn lemma_forgotten(
    old: Results,
    new: Results,
    phase: int,
    phases: Seq<PhaseImpl>,
    rules: Seq<Rule>,
    nodes: Seq<Node>,
    terms: Seq<Term>,
)
    requires
        new.memo@ == old.memo@,
        new.partial@.len() == old.partial@.len(),
        0 <= phase < old.partial@.len() == phases.len(),
        new.partial@[phase]@ == Map::<u32, (u32, Fin)>::empty(),
        forall|p: int|
            #![trigger new.partial@[p]]
            0 <= p < old.partial@.len() && p != phase ==> new.partial@[p] == old.partial@[p],
    ensures
        rested(old, phases, rules, nodes, terms) ==> rested(new, phases, rules, nodes, terms),
        untouched(old) ==> untouched(new),
{
    reveal(rested);
    reveal(untouched);
    assert forall|p: int, k: u32|
        #![trigger new.partial@[p]@[k]]
        0 <= p < new.partial@.len() && new.partial@[p]@.contains_key(k) implies old.partial@[p]@.contains_key(
        k,
    ) && new.partial@[p]@[k] == old.partial@[p]@[k] by {
        let _ = new.partial@[p];
        let _ = old.partial@[p]@[k];
    }
    assert forall|p: int, n: u32|
        #![trigger new.memo@[p].at(n)]
        0 <= p < new.memo@.len() implies new.memo@[p].at(n) == old.memo@[p].at(n) by {}
}

} // verus!
