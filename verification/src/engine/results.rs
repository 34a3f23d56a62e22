//! What each phase made of each node: final results, remembered across calls, and results of
//! the current call that are not final.

use vstd::prelude::*;
use crate::facts::store;
use crate::engine::runner;
use crate::term;
use crate::engine::fin;
use std::collections::HashMap;
use crate::engine::fin::Fin;
use crate::engine::memo::NodeTable;
use crate::facts::reliance::{Hyp, Reliance};
use crate::facts::store::{Assumptions, Constraint};
use crate::term::{Env, Term};

verus! {

broadcast use vstd::std_specs::hash::group_hash_axioms;

/// Node `r` can stand for node `n`: it has its width, and (where `on` says that every rule is
/// sound) its value wherever what is relied on holds.
pub open spec fn stands(
    terms: Seq<Term>,
    h: Hyp,
    on: bool,
    n: int,
    r: int,
    rel: Reliance,
) -> bool {
    &&& 0 <= n < terms.len()
    &&& 0 <= r < terms.len()
    &&& term::twidth(terms[n]) == term::twidth(terms[r])
    &&& on ==> fin::equal_under(terms, h, rel, n, r)
}

/// A node stands for itself.
pub proof fn lemma_stands_self(terms: Seq<Term>, h: Hyp, on: bool, n: int, rel: Reliance)
    requires
        0 <= n < terms.len(),
    ensures
        stands(terms, h, on, n, n, rel),
{
}

/// What stands for what stands for a node stands for it.
pub proof fn lemma_stands_trans(
    terms: Seq<Term>,
    h: Hyp,
    on: bool,
    a: int,
    b: int,
    c: int,
    r1: Reliance,
    r2: Reliance,
    r: Reliance,
)
    requires
        stands(terms, h, on, a, b, r1),
        stands(terms, h, on, b, c, r2),
        forall|env: Env| #[trigger] r.admits(h, env) ==> r1.admits(h, env) && r2.admits(h, env),
    ensures
        stands(terms, h, on, a, c, r),
{
    if on {
        assert forall|env: Env|
            #![trigger term::value(terms[a], env)]
            #![trigger term::value(terms[c], env)]
            r.admits(h, env) implies term::value(terms[a], env) == term::value(terms[c], env) by {
            let _ = term::value(terms[b], env);
        }
    }
}

/// What stands for a node goes on doing so as the arena grows.
pub proof fn lemma_stands_grow(
    terms: Seq<Term>,
    more: Seq<Term>,
    h: Hyp,
    on: bool,
    n: int,
    r: int,
    rel: Reliance,
)
    requires
        stands(terms, h, on, n, r, rel),
        terms.len() <= more.len(),
        forall|i: int| 0 <= i < terms.len() ==> #[trigger] more[i] == terms[i],
    ensures
        stands(more, h, on, n, r, rel),
{
    assert(more[n] == terms[n]);
    assert(more[r] == terms[r]);
}

/// One phase's final results: the result node of every node visited, and the constraints a
/// result relied on, where it relied on any (only under assumptions).
pub struct PhaseMemo {
    /// The results.
    pub result: NodeTable,
    /// What they relied on.
    pub rel: HashMap<u32, Reliance>,
}

impl PhaseMemo {
    /// The result of `n`, if there is one, and what it relied on.
    pub open spec fn at(self, n: u32) -> Option<(u32, Reliance)> {
        match self.result.at(n) {
            Some(r) => Some(
                (
                    r,
                    if self.rel@.contains_key(n) {
                        self.rel@[n]
                    } else {
                        Reliance { used: 0 }
                    },
                ),
            ),
            None => None,
        }
    }

    /// No results.
    pub(crate) fn new() -> (r: PhaseMemo)
        ensures
            r.result.wf(),
            forall|n: u32| r.at(n) is None,
    {
        PhaseMemo { result: NodeTable::new(), rel: HashMap::new() }
    }

    /// The result of `n`, if there is one, and what it relied on.
    pub(crate) fn get(&self, n: u32) -> (r: Option<(u32, Reliance)>)
        requires
            self.result.wf(),
        ensures
            r == self.at(n),
    {
        match self.result.get(n) {
            Some(v) => {
                match self.rel.get(&n) {
                    Some(rel) => Some((v, *rel)),
                    None => Some((v, Reliance { used: 0 })),
                }
            },
            None => None,
        }
    }

    /// Keeps the result of `n`.
    pub(crate) fn insert(&mut self, n: u32, r: u32, rel: Reliance)
        requires
            old(self).result.wf(),
            r < u32::MAX,
        ensures
            final(self).result.wf(),
            forall|k: u32| #[trigger]
                final(self).at(k) == (if k == n {
                    Some((r, rel))
                } else {
                    old(self).at(k)
                }),
    {
        self.result.insert(n, r);
        if rel.used == 0 {
            let _ = self.rel.remove(&n);
        } else {
            self.rel.insert(n, rel);
        }
    }
}

/// Every result of a phase stands for its node.
#[verifier::opaque]
pub open spec fn phase_ok(p: PhaseMemo, terms: Seq<Term>, h: Hyp, on: bool) -> bool {
    &&& p.result.wf()
    &&& forall|n: u32|
        (#[trigger] p.at(n)) matches Some((r, rel)) ==> stands(
            terms,
            h,
            on,
            n as int,
            r as int,
            rel,
        )
}

/// A result that is kept is its own result: what a phase made of a node it leaves.
pub open spec fn fixed(p: PhaseMemo) -> bool {
    forall|n: u32|
        (#[trigger] p.at(n)) matches Some((r, _)) ==> (match p.at(r) {
            Some((q, _)) => q == r,
            None => false,
        })
}

/// Every result of the call that is not final stands for its node.
#[verifier::opaque]
pub open spec fn partial_ok(
    m: Map<u32, (u32, Fin)>,
    terms: Seq<Term>,
    h: Hyp,
    on: bool,
) -> bool {
    forall|n: u32| #[trigger]
        m.contains_key(n) ==> !m[n].1.done && stands(
            terms,
            h,
            on,
            n as int,
            m[n].0 as int,
            m[n].1.rel,
        )
}

/// Results stay right as the arena grows.
pub proof fn lemma_phase_grow(
    p: PhaseMemo,
    terms: Seq<Term>,
    more: Seq<Term>,
    h: Hyp,
    on: bool,
)
    requires
        phase_ok(p, terms, h, on),
        terms.len() <= more.len(),
        forall|i: int| 0 <= i < terms.len() ==> #[trigger] more[i] == terms[i],
    ensures
        phase_ok(p, more, h, on),
{
    reveal(phase_ok);
    assert forall|n: u32|
        (#[trigger] p.at(n)) matches Some((r, rel)) ==> stands(
            more,
            h,
            on,
            n as int,
            r as int,
            rel,
        ) by {
        if let Some((r, rel)) = p.at(n) {
            lemma_stands_grow(terms, more, h, on, n as int, r as int, rel);
        }
    }
}

/// Results stay right as the arena grows.
pub proof fn lemma_partial_grow(
    m: Map<u32, (u32, Fin)>,
    terms: Seq<Term>,
    more: Seq<Term>,
    h: Hyp,
    on: bool,
)
    requires
        partial_ok(m, terms, h, on),
        terms.len() <= more.len(),
        forall|i: int| 0 <= i < terms.len() ==> #[trigger] more[i] == terms[i],
    ensures
        partial_ok(m, more, h, on),
{
    reveal(partial_ok);
    assert forall|n: u32| #[trigger] m.contains_key(n) implies !m[n].1.done && stands(
        more,
        h,
        on,
        n as int,
        m[n].0 as int,
        m[n].1.rel,
    ) by {
        lemma_stands_grow(terms, more, h, on, n as int, m[n].0 as int, m[n].1.rel);
    }
}

/// Completed per-phase results (with the constraints each relied on), kept in the context across
/// calls and dropped whenever anything that can change a result changes (the engine, host hooks,
/// assumptions).
pub struct Memo {
    /// A hash of what the results depend on.
    pub epoch: u128,
    /// The assumptions they were reached under.
    pub assumptions: Assumptions,
    /// By phase.
    pub phases: Vec<PhaseMemo>,
}

/// The results speak of nodes that are there, at their widths.
pub open spec fn memo_fits(m: Memo, terms: Seq<Term>) -> bool {
    forall|p: int|
        0 <= p < m.phases@.len() ==> fixed(#[trigger] m.phases@[p]) && phase_ok(
            m.phases@[p],
            terms,
            runner::nothing(),
            false,
        )
}

/// The results are right under the assumptions they were reached under.
pub open spec fn memo_right(m: Memo, terms: Seq<Term>) -> bool {
    &&& store::items_fit(m.assumptions.items@, terms)
    &&& forall|p: int|
        0 <= p < m.phases@.len() ==> phase_ok(
            #[trigger] m.phases@[p],
            terms,
            store::hyp_of(m.assumptions.items@, terms),
            true,
        )
}

/// Results stay where they are as the arena grows.
pub proof fn lemma_memo_fits_grow(m: Memo, terms: Seq<Term>, more: Seq<Term>)
    requires
        memo_fits(m, terms),
        terms.len() <= more.len(),
        forall|i: int| 0 <= i < terms.len() ==> #[trigger] more[i] == terms[i],
    ensures
        memo_fits(m, more),
{
    assert forall|p: int| 0 <= p < m.phases@.len() implies fixed(#[trigger] m.phases@[p])
        && phase_ok(m.phases@[p], more, runner::nothing(), false) by {
        lemma_phase_grow(m.phases@[p], terms, more, runner::nothing(), false);
    }
}

/// Results stay right under hypotheses that say the same.
pub proof fn lemma_phase_same(p: PhaseMemo, terms: Seq<Term>, h: Hyp, g: Hyp, on: bool)
    requires
        phase_ok(p, terms, h, on),
        forall|k: int, env: Env| #[trigger] g(k, env) == h(k, env),
    ensures
        phase_ok(p, terms, g, on),
{
    reveal(phase_ok);
    assert forall|n: u32|
        (#[trigger] p.at(n)) matches Some((r, rel)) ==> stands(
            terms,
            g,
            on,
            n as int,
            r as int,
            rel,
        ) by {
        if let Some((r, rel)) = p.at(n) {
            assert(stands(terms, h, on, n as int, r as int, rel));
            assert forall|env: Env| #[trigger] rel.admits(g, env) implies rel.admits(h, env) by {
                assert forall|k: int| #[trigger] rel.uses(k) implies h(k, env) by {
                    assert(g(k, env));
                }
            }
        }
    }
}

/// Results that are right are where they are.
pub proof fn lemma_phase_off(p: PhaseMemo, terms: Seq<Term>, h: Hyp, g: Hyp, on: bool)
    requires
        phase_ok(p, terms, h, on),
    ensures
        phase_ok(p, terms, g, false),
{
    reveal(phase_ok);
    assert forall|n: u32|
        (#[trigger] p.at(n)) matches Some((r, rel)) ==> stands(
            terms,
            g,
            false,
            n as int,
            r as int,
            rel,
        ) by {
        if let Some((r, rel)) = p.at(n) {
            assert(stands(terms, h, on, n as int, r as int, rel));
        }
    }
}

/// Constraints say the same as the arena grows.
pub proof fn lemma_hyp_grow(items: Seq<Constraint>, terms: Seq<Term>, more: Seq<Term>)
    requires
        store::items_fit(items, terms),
        terms.len() <= more.len(),
        forall|i: int| 0 <= i < terms.len() ==> #[trigger] more[i] == terms[i],
    ensures
        store::items_fit(items, more),
        forall|k: int, env: Env| #[trigger]
            store::hyp_of(items, more)(k, env) == store::hyp_of(items, terms)(k, env),
{
    assert forall|k: int| #![trigger items[k]] 0 <= k < items.len() implies items[k].expr
        < more.len() && items[k].known.has(term::twidth(more[items[k].expr as int])) by {
        assert(more[items[k].expr as int] == terms[items[k].expr as int]);
    }
    assert forall|k: int, env: Env| #[trigger]
        store::hyp_of(items, more)(k, env) == store::hyp_of(items, terms)(k, env) by {
        if 0 <= k < items.len() {
            let _ = items[k];
            assert(more[items[k].expr as int] == terms[items[k].expr as int]);
        }
    }
}

/// Results stay right as the arena grows.
pub proof fn lemma_memo_right_grow(m: Memo, terms: Seq<Term>, more: Seq<Term>)
    requires
        memo_right(m, terms),
        terms.len() <= more.len(),
        forall|i: int| 0 <= i < terms.len() ==> #[trigger] more[i] == terms[i],
    ensures
        memo_right(m, more),
{
    let items = m.assumptions.items@;
    lemma_hyp_grow(items, terms, more);
    assert forall|p: int| 0 <= p < m.phases@.len() implies phase_ok(
        #[trigger] m.phases@[p],
        more,
        store::hyp_of(items, more),
        true,
    ) by {
        lemma_phase_grow(m.phases@[p], terms, more, store::hyp_of(items, terms), true);
        lemma_phase_same(m.phases@[p], more, store::hyp_of(items, terms), store::hyp_of(items, more), true);
    }
}

/// No phase has a result.
pub open spec fn blank(phases: Seq<PhaseMemo>) -> bool {
    forall|p: int, n: u32|
        #![trigger phases[p].at(n)]
        0 <= p < phases.len() ==> phases[p].at(n) is None
}

/// In every phase the result of `n` is `n` itself.
pub open spec fn settled(phases: Seq<PhaseMemo>, n: u32) -> bool {
    forall|p: int|
        #![trigger phases[p]]
        0 <= p < phases.len() ==> (match phases[p].at(n) {
            Some((r, _)) => r == n,
            None => false,
        })
}

/// As many phases without results.
fn fresh_phases(phases: usize) -> (r: Vec<PhaseMemo>)
    ensures
        r@.len() == phases,
        forall|p: int, terms: Seq<Term>, h: Hyp, on: bool|
            #![trigger phase_ok(r@[p], terms, h, on)]
            0 <= p < phases ==> phase_ok(r@[p], terms, h, on),
        blank(r@),
        forall|p: int| 0 <= p < phases ==> fixed(#[trigger] r@[p]),
{
    let mut r: Vec<PhaseMemo> = Vec::with_capacity(phases);
    let mut i: usize = 0;
    proof {
        reveal(phase_ok);
    }
    while i < phases
        invariant
            i <= phases,
            r@.len() == i,
            blank(r@),
            forall|p: int| 0 <= p < i ==> fixed(#[trigger] r@[p]),
            forall|p: int, terms: Seq<Term>, h: Hyp, on: bool|
                #![trigger phase_ok(r@[p], terms, h, on)]
                0 <= p < i ==> phase_ok(r@[p], terms, h, on),
        decreases phases - i,
    {
        let m = PhaseMemo::new();
        let ghost r0 = r@;
        r.push(m);
        proof {
            reveal(phase_ok);
            assert forall|p: int, terms: Seq<Term>, h: Hyp, on: bool|
                #![trigger phase_ok(r@[p], terms, h, on)]
                0 <= p < i + 1 implies phase_ok(r@[p], terms, h, on) by {
                if p < i {
                    assert(r@[p] == r0[p]);
                    assert(phase_ok(r0[p], terms, h, on));
                } else {
                    assert(r@[p] == m);
                }
            }
        }
        i = i + 1;
    }
    r
}

impl Memo {
    /// No results.
    pub(crate) fn new() -> (r: Memo)
        ensures
            r.phases@.len() == 0,
            r.assumptions.items@.len() == 0,
    {
        Memo { epoch: 0, assumptions: Assumptions::new(), phases: Vec::new() }
    }

    /// The results to go on from: those kept when nothing that can change a result has changed,
    /// else none.
    pub(crate) fn prepare(
        self,
        epoch: u128,
        assumptions: &Assumptions,
        phases: usize,
        Ghost(terms): Ghost<Seq<Term>>,
        Ghost(h): Ghost<Hyp>,
    ) -> (r: Vec<PhaseMemo>)
        requires
            memo_fits(self, terms),
            forall|k: int, env: Env| #[trigger]
                h(k, env) == store::hyp_of(assumptions.items@, terms)(k, env),
        ensures
            r@.len() == phases,
            forall|p: int| 0 <= p < phases ==> fixed(#[trigger] r@[p]) && phase_ok(
                r@[p],
                terms,
                h,
                false,
            ),
            memo_right(self, terms) ==> forall|p: int|
                0 <= p < phases ==> phase_ok(#[trigger] r@[p], terms, h, true),
            blank(self.phases@) ==> blank(r@),
            r@ == self.phases@ || blank(r@),
            self.epoch == epoch && self.phases@.len() == phases && store::same_items(
                self.assumptions.items@,
                assumptions.items@,
            ) ==> r@ == self.phases@,
    {
        if self.epoch == epoch && self.phases.len() == phases && self.assumptions.same(assumptions) {
            proof {
                let a = self.assumptions.items@;
                let b = assumptions.items@;
                assert forall|p: int| 0 <= p < phases implies phase_ok(
                    #[trigger] self.phases@[p],
                    terms,
                    h,
                    false,
                ) by {
                    lemma_phase_off(self.phases@[p], terms, runner::nothing(), h, false);
                }
                if memo_right(self, terms) {
                    store::lemma_same_hyp(a, b, terms);
                    assert forall|p: int| 0 <= p < phases implies phase_ok(
                        #[trigger] self.phases@[p],
                        terms,
                        h,
                        true,
                    ) by {
                        assert forall|k: int, env: Env| #[trigger] h(k, env) == store::hyp_of(a, terms)(
                            k,
                            env,
                        ) by {
                            assert(store::hyp_of(a, terms)(k, env) == store::constraint_holds(a, terms, k, env));
                            assert(store::hyp_of(b, terms)(k, env) == store::constraint_holds(b, terms, k, env));
                        }
                        lemma_phase_same(self.phases@[p], terms, store::hyp_of(a, terms), h, true);
                    }
                }
            }
            self.phases
        } else {
            fresh_phases(phases)
        }
    }
}

/// The results of every phase.
pub struct Results {
    /// Final ones.
    pub memo: Vec<PhaseMemo>,
    /// Those of this call that are not final.
    pub partial: Vec<HashMap<u32, (u32, Fin)>>,
}

impl Results {
    /// Every result stands for its node.
    pub open spec fn ok(&self, phases: nat, terms: Seq<Term>, h: Hyp, on: bool) -> bool {
        &&& self.memo@.len() == phases
        &&& self.partial@.len() == phases
        &&& forall|p: int|
            0 <= p < phases ==> fixed(#[trigger] self.memo@[p]) && phase_ok(
                self.memo@[p],
                terms,
                h,
                on,
            )
        &&& forall|p: int|
            0 <= p < phases ==> partial_ok((#[trigger] self.partial@[p])@, terms, h, on)
    }

    /// The result of `n` in `phase` was kept, as `fin` says, and nothing else changed.
    #[verifier::opaque]
    pub open spec fn put(&self, o: &Results, phase: int, n: u32, r: u32, fin: Fin) -> bool {
        &&& self.memo@.len() == o.memo@.len()
        &&& self.partial@.len() == o.partial@.len()
        &&& forall|p: int, k: u32|
            #![trigger self.memo@[p].at(k)]
            0 <= p < o.memo@.len() ==> self.memo@[p].at(k) == (if fin.done && p == phase && k == n
                && o.memo@[p].at(k) is None {
                Some((r, fin.rel))
            } else {
                o.memo@[p].at(k)
            })
        &&& forall|p: int|
            #![trigger self.partial@[p]]
            0 <= p < o.partial@.len() ==> self.partial@[p]@ == (if !fin.done && p == phase {
                o.partial@[p]@.insert(n, (r, fin))
            } else {
                o.partial@[p]@
            })
    }

    /// There is no result yet.
    pub open spec fn fresh(&self) -> bool {
        &&& blank(self.memo@)
        &&& forall|p: int|
            #![trigger self.partial@[p]]
            0 <= p < self.partial@.len() ==> self.partial@[p]@ == Map::<u32, (u32, Fin)>::empty()
    }

    /// Results stay right as the arena grows.
    pub proof fn lemma_grow(
        &self,
        phases: nat,
        terms: Seq<Term>,
        more: Seq<Term>,
        h: Hyp,
        on: bool,
    )
        requires
            self.ok(phases, terms, h, on),
            terms.len() <= more.len(),
            forall|i: int| 0 <= i < terms.len() ==> #[trigger] more[i] == terms[i],
        ensures
            self.ok(phases, more, h, on),
    {
        assert forall|p: int| 0 <= p < phases implies fixed(#[trigger] self.memo@[p]) && phase_ok(
            self.memo@[p],
            more,
            h,
            on,
        ) by {
            lemma_phase_grow(self.memo@[p], terms, more, h, on);
        }
        assert forall|p: int| 0 <= p < phases implies partial_ok(
            (#[trigger] self.partial@[p])@,
            more,
            h,
            on,
        ) by {
            lemma_partial_grow(self.partial@[p]@, terms, more, h, on);
        }
    }

    /// The result for `n` in `phase`, if there is one, and whether it is final.
    pub(crate) fn lookup(
        &self,
        phase: usize,
        n: u32,
        Ghost(phases): Ghost<nat>,
        Ghost(terms): Ghost<Seq<Term>>,
        Ghost(h): Ghost<Hyp>,
        Ghost(on): Ghost<bool>,
    ) -> (r: Option<(u32, Fin)>)
        requires
            self.ok(phases, terms, h, on),
            phase < phases,
        ensures
            r matches Some((x, fin)) ==> stands(terms, h, on, n as int, x as int, fin.rel),
            r matches Some((x, fin)) ==> fin.done ==> self.memo@[phase as int].at(n) == Some(
                (x, fin.rel),
            ),
            r matches Some((x, fin)) ==> !fin.done ==> self.partial@[phase as int]@.contains_key(n)
                && self.partial@[phase as int]@[n] == (x, fin),
            r is None <==> self.memo@[phase as int].at(n) is None
                && !self.partial@[phase as int]@.contains_key(n),
    {
        proof {
            assert(phase_ok(self.memo@[phase as int], terms, h, on));
            assert(partial_ok(self.partial@[phase as int]@, terms, h, on));
            reveal(phase_ok);
            reveal(partial_ok);
        }
        if let Some((x, rel)) = self.memo[phase].get(n) {
            return Some((x, Fin::relying(rel)));
        }
        match self.partial[phase].get(&n) {
            Some(p) => Some(*p),
            None => None,
        }
    }

    /// Keeps the result for `n` in `phase`.
    pub(crate) fn set(
        &mut self,
        phase: usize,
        n: u32,
        r: u32,
        fin: Fin,
        Ghost(phases): Ghost<nat>,
        Ghost(terms): Ghost<Seq<Term>>,
        Ghost(h): Ghost<Hyp>,
        Ghost(on): Ghost<bool>,
    )
        requires
            old(self).ok(phases, terms, h, on),
            phase < phases,
            r < u32::MAX,
            stands(terms, h, on, n as int, r as int, fin.rel),
            fin.done && r != n ==> (match old(self).memo@[phase as int].at(r) {
                Some((q, _)) => q == r,
                None => false,
            }),
        ensures
            final(self).ok(phases, terms, h, on),
            // Exactly this result is kept, among the final ones or not.
            final(self).put(old(self), phase as int, n, r, fin),
            // A final result is kept; what was kept before stays.
            fin.done ==> final(self).memo@[phase as int].at(n) is Some,
            forall|p: int, k: u32|
                #![trigger final(self).memo@[p].at(k)]
                0 <= p < phases && old(self).memo@[p].at(k) is Some ==> final(self).memo@[p].at(k)
                    == old(self).memo@[p].at(k),
    {
        proof {
            reveal(Results::put);
            assert(phase_ok(self.memo@[phase as int], terms, h, on));
            assert(partial_ok(self.partial@[phase as int]@, terms, h, on));
        }
        let ghost memo0 = self.memo@;
        let ghost partial0 = self.partial@;
        proof {
            reveal(phase_ok);
        }
        if fin.done {
            if self.memo[phase].get(n).is_some() {
                return;
            }
            self.memo[phase].insert(n, r, fin.rel);
            proof {
                reveal(phase_ok);
                assert forall|p: int| 0 <= p < phases implies fixed(#[trigger] self.memo@[p])
                    && phase_ok(self.memo@[p], terms, h, on) by {
                    assert(fixed(memo0[p]));
                    if p != phase {
                        assert(self.memo@[p] == memo0[p]);
                    } else {
                        let a = memo0[p];
                        let b = self.memo@[p];
                        assert forall|k: u32|
                            (#[trigger] b.at(k)) matches Some((x, _)) ==> (match b.at(x) {
                                Some((q, _)) => q == x,
                                None => false,
                            }) by {
                            if let Some((x, _)) = b.at(k) {
                                let _ = a.at(k);
                                let _ = a.at(x);
                                let _ = b.at(x);
                            }
                        }
                    }
                }
            }
        } else {
            self.partial[phase].insert(n, (r, fin));
            proof {
                reveal(partial_ok);
                assert forall|p: int| 0 <= p < phases implies partial_ok(
                    (#[trigger] self.partial@[p])@,
                    terms,
                    h,
                    on,
                ) by {
                    if p != phase {
                        assert(self.partial@[p] == partial0[p]);
                    }
                }
            }
        }
    }

    /// Forgets the results of `phase` that are not final.
    pub(crate) fn forget_partial(
        &mut self,
        phase: usize,
        Ghost(phases): Ghost<nat>,
        Ghost(terms): Ghost<Seq<Term>>,
        Ghost(h): Ghost<Hyp>,
        Ghost(on): Ghost<bool>,
    )
        requires
            old(self).ok(phases, terms, h, on),
            phase < phases,
        ensures
            final(self).ok(phases, terms, h, on),
            final(self).partial@[phase as int]@ == Map::<u32, (u32, Fin)>::empty(),
            final(self).memo@ == old(self).memo@,
            final(self).partial@.len() == old(self).partial@.len(),
            forall|p: int|
                #![trigger final(self).partial@[p]]
                0 <= p < old(self).partial@.len() && p != phase ==> final(self).partial@[p]
                    == old(self).partial@[p],
            old(self).fresh() ==> final(self).fresh(),
    {
        let ghost partial0 = self.partial@;
        self.partial.set(phase, HashMap::new());
        proof {
            reveal(partial_ok);
            assert forall|p: int| 0 <= p < phases implies partial_ok(
                (#[trigger] self.partial@[p])@,
                terms,
                h,
                on,
            ) by {
                if p != phase {
                    assert(self.partial@[p] == partial0[p]);
                }
            }
        }
    }
}

} // verus!
