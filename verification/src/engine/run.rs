//! Calls of an engine: their options, their outcome, and how they go.

use vstd::prelude::*;
use crate::engine::pass::compares;
use crate::engine::pass::residue;
use crate::term;
use crate::reach;
use crate::facts::store;
use crate::expr;
use crate::engine::runner;
use crate::engine::results;
use crate::engine::pass::xor;
use crate::engine::pass::shuffle;
use crate::engine::pass::linear;
use crate::engine::pass::bitwise;
use crate::engine::fin;
use crate::engine::rest;
use crate::engine::strategy::Strategy;
use crate::engine::walk;
use std::collections::HashMap;
use crate::engine::budget;
use crate::engine::budget::{Admission, Allowance, Budget, Cap, Deadline, Exhausted, Meter};
use crate::engine::fin::{Fin, Stop};
use crate::engine::link::{Engine, Inner, PhaseImpl};
use crate::engine::pass::forms::FormCache;
use crate::engine::pass::scratch::{Live, Marks};
use crate::engine::results::{Memo, Results};
use crate::engine::runner::{Runner, Scratch};
use crate::engine::stats::{bump, Hooks, Observer, PassKind, RootCounts, Stats};
use crate::expr::{combine, Context, Error, Expr, Node};
use crate::facts::reliance::{Hyp, Reliance};
use crate::facts::store::{Assumptions, Constraint, FactStore};
use crate::term::{Env, Term};

verus! {

broadcast use {crate::term::lemma_value_len, vstd::std_specs::hash::group_hash_axioms};

/// Options of one call.
#[non_exhaustive]
pub struct Run<'a> {
    /// A caller-owned account shared across calls; charged with everything this call spends.
    pub allowance: Option<&'a mut Allowance>,
    /// Caps on this call (applied inside the allowance).
    pub per_call: Budget,
    /// Per-root caps, checked before any work.
    pub admission: Admission,
    /// Receives per-rule events.
    pub observer: Option<&'a mut dyn Observer>,
    /// Host policy.
    pub hooks: Option<&'a dyn Hooks>,
    /// Facts in guards are read under these assumptions (part of the memo key).
    pub assumptions: Option<&'a Assumptions>,
    /// Stop at a host-supplied time.
    pub deadline: Option<Deadline<'a>>,
}

/// The default caps of a call.
pub open spec fn default_caps() -> Budget {
    Budget {
        node_visits: 0x40_0000,
        candidates: 0x40_0000,
        match_steps: 0x400_0000,
        rewrites: 0x40_0000,
        new_nodes: 0x40_0000,
        fact_work: 0x400_0000,
        pass_work: 0x400_0000,
        mba_calls: 0x1000,
        eqsat_nodes: 0x40_0000,
        eqsat_work: 0x400_0000,
    }
}

impl<'a> Default for Run<'a> {
    /// Default caps, and nothing else.
    fn default() -> (r: Self)
        ensures
            r.allowance is None,
            r.observer is None,
            r.hooks is None,
            r.assumptions is None,
            r.deadline is None,
            r.admission.max_root_height == u32::MAX,
            r.admission.max_root_tree_size == u32::MAX,
            r.admission.max_root_dag_size is None,
            r.per_call == default_caps(),
    {
        Run {
            allowance: None,
            per_call: Budget::default(),
            admission: Admission::default(),
            observer: None,
            hooks: None,
            assumptions: None,
            deadline: None,
        }
    }
}

/// A value that is there.
fn there<T>(x: T) -> (r: Option<T>)
    ensures
        r == Some(x),
{
    Some(x)
}

impl<'a> Run<'a> {
    /// Sets [`allowance`](Self::allowance).
    pub fn with_allowance(self, allowance: &'a mut Allowance) -> (r: Self)
        ensures
            r == (Run { allowance: r.allowance, ..self }),
            r.allowance matches Some(a) && *a == *old(allowance) && *final(a) == *final(allowance),
    {
        let allowance = there(allowance);
        Run { allowance, ..self }
    }

    /// Sets [`per_call`](Self::per_call).
    pub fn with_per_call(self, per_call: Budget) -> (r: Self)
        ensures
            r == (Run { per_call, ..self }),
    {
        Run { per_call, ..self }
    }

    /// Sets [`admission`](Self::admission).
    pub fn with_admission(self, admission: Admission) -> (r: Self)
        ensures
            r == (Run { admission, ..self }),
    {
        Run { admission, ..self }
    }

    /// Sets [`observer`](Self::observer).
    pub fn with_observer(self, observer: &'a mut dyn Observer) -> (r: Self)
        ensures
            r == (Run { observer: r.observer, ..self }),
            r.observer is Some,
    {
        let observer = there(observer);
        Run { observer, ..self }
    }

    /// Sets [`hooks`](Self::hooks).
    pub fn with_hooks(self, hooks: &'a dyn Hooks) -> (r: Self)
        ensures
            r == (Run { hooks: Some(hooks), ..self }),
    {
        Run { hooks: Some(hooks), ..self }
    }

    /// Sets [`assumptions`](Self::assumptions).
    pub fn with_assumptions(self, assumptions: &'a Assumptions) -> (r: Self)
        ensures
            r == (Run { assumptions: Some(assumptions), ..self }),
    {
        Run { assumptions: Some(assumptions), ..self }
    }

    /// Sets [`deadline`](Self::deadline).
    pub fn with_deadline(self, deadline: Deadline<'a>) -> (r: Self)
        ensures
            r == (Run { deadline: Some(deadline), ..self }),
    {
        Run { deadline: Some(deadline), ..self }
    }
}

/// Options of a call that simplifies each root alone.
#[derive(Clone, Copy)]
#[non_exhaustive]
pub struct Each<'a> {
    /// Threads to use at most (0: as many as the machine runs at once).
    pub threads: usize,
    /// Caps on each root (as [`Run::per_call`] on a call with that root alone).
    pub per_root: Budget,
    /// Per-root caps, checked before any work.
    pub admission: Admission,
    /// Facts in guards are read under these assumptions.
    pub assumptions: Option<&'a Assumptions>,
    /// Host policy; it sees each root in the root's own context.
    pub hooks: Option<&'a dyn Hooks>,
}

impl<'a> Default for Each<'a> {
    /// Default caps on as many threads as the machine runs at once.
    fn default() -> (r: Self)
        ensures
            r.threads == 0,
            r.assumptions is None,
            r.hooks is None,
            r.admission.max_root_height == u32::MAX,
            r.admission.max_root_tree_size == u32::MAX,
            r.admission.max_root_dag_size is None,
            r.per_root == (Budget {
                node_visits: 0x40_0000,
                candidates: 0x40_0000,
                match_steps: 0x400_0000,
                rewrites: 0x40_0000,
                new_nodes: 0x40_0000,
                fact_work: 0x400_0000,
                pass_work: 0x400_0000,
                mba_calls: 0x1000,
                eqsat_nodes: 0x40_0000,
                eqsat_work: 0x400_0000,
            }),
    {
        Each {
            threads: 0,
            per_root: Budget::default(),
            admission: Admission::default(),
            assumptions: None,
            hooks: None,
        }
    }
}

impl<'a> Each<'a> {
    /// Sets [`threads`](Self::threads).
    pub fn with_threads(self, threads: usize) -> (r: Self)
        ensures
            r == (Each { threads, ..self }),
    {
        Each { threads, ..self }
    }

    /// Sets [`per_root`](Self::per_root).
    pub fn with_per_root(self, per_root: Budget) -> (r: Self)
        ensures
            r == (Each { per_root, ..self }),
    {
        Each { per_root, ..self }
    }

    /// Sets [`admission`](Self::admission).
    pub fn with_admission(self, admission: Admission) -> (r: Self)
        ensures
            r == (Each { admission, ..self }),
    {
        Each { admission, ..self }
    }

    /// Sets [`assumptions`](Self::assumptions).
    pub fn with_assumptions(self, assumptions: &'a Assumptions) -> (r: Self)
        ensures
            r == (Each { assumptions: Some(assumptions), ..self }),
    {
        Each { assumptions: Some(assumptions), ..self }
    }

    /// Sets [`hooks`](Self::hooks).
    pub fn with_hooks(self, hooks: &'a dyn Hooks) -> (r: Self)
        ensures
            r == (Each { hooks: Some(hooks), ..self }),
    {
        Each { hooks: Some(hooks), ..self }
    }
}

/// How a root's processing ended.
#[derive(Clone, Copy, Debug, PartialEq, Eq, Hash, Structural)]
#[non_exhaustive]
pub enum End {
    /// The strategy ran to its end.
    Completed,
    /// A budget or deadline stopped it; the result is as valid as a completed one (see
    /// [`RootOutcome::relies_on`]) but not final.
    BudgetTerminated(Exhausted),
    /// Not processed.
    Declined(Decline),
}

/// Why a root was not processed.
#[derive(Clone, Copy, Debug, PartialEq, Eq, Hash, Structural)]
#[non_exhaustive]
pub enum Decline {
    /// An admission cap.
    AdmissionCap(Cap),
}

/// The result for one root.
#[derive(Clone, Copy, Debug, PartialEq, Eq, Structural)]
#[non_exhaustive]
pub struct RootOutcome {
    /// The result: equal to the input wherever the constraints in
    /// [`relies_on`](Self::relies_on) hold (everywhere when it is empty).
    pub expr: Expr,
    /// Whether it differs from the input.
    pub changed: bool,
    /// How processing ended.
    pub end: End,
    /// The constraints of the run's [assumptions](Run::assumptions) the result relies on (none
    /// when it holds everywhere).
    pub relies_on: Reliance,
}

/// The result of a call: `roots[i]` answers input `i`.
#[derive(Debug)]
#[non_exhaustive]
pub struct Outcome {
    /// Per input root.
    pub roots: Vec<RootOutcome>,
    /// Counters.
    pub stats: Stats,
}

impl Outcome {
    /// An outcome of these parts.
    pub fn new(roots: Vec<RootOutcome>, stats: Stats) -> (r: Outcome)
        ensures
            r == (Outcome { roots, stats }),
    {
        Outcome { roots, stats }
    }
}

/// The admission cap that `root` exceeds, if any.
pub open spec fn cap_of(terms: Seq<Term>, nodes: Seq<Node>, root: int, a: Admission) -> Option<
    Cap,
> {
    if expr::sat(term::theight(terms[root])) > a.max_root_height {
        Some(Cap::Height)
    } else if expr::sat(term::tsize(terms[root])) > a.max_root_tree_size {
        Some(Cap::TreeSize)
    } else {
        match a.max_root_dag_size {
            Some(k) => if reach::reach(nodes, root).len() > k {
                Some(Cap::DagSize)
            } else {
                None
            },
            None => None,
        }
    }
}

/// What is below a node does not change as the arena grows.
proof fn lemma_reach_same(nodes: Seq<Node>, more: Seq<Node>, i: int)
    requires
        i < nodes.len() <= more.len(),
        forall|j: int| 0 <= j < nodes.len() ==> #[trigger] more[j] == nodes[j],
    ensures
        reach::reach(more, i) == reach::reach(nodes, i),
    decreases i,
{
    if i >= 0 {
        assert(more[i] == nodes[i]);
        let ks = expr::kids(nodes[i]);
        if ks.len() > 0 && ks[0] < i {
            lemma_reach_same(nodes, more, ks[0] as int);
        }
        if ks.len() > 1 && ks[1] < i {
            lemma_reach_same(nodes, more, ks[1] as int);
        }
        if ks.len() > 2 && ks[2] < i {
            lemma_reach_same(nodes, more, ks[2] as int);
        }
    }
}

/// What a run's assumptions say of an arena's nodes.
pub open spec fn run_hyp(a: Option<&Assumptions>, terms: Seq<Term>) -> Hyp {
    match a {
        Some(x) => store::hyp_of(x.items@, terms),
        None => store::hyp_of(seq![], terms),
    }
}

/// The outcome `o` answers node `root`: it is the node left as it was, or another of its width
/// that (where `on`) has its value wherever the constraints relied on hold.
pub open spec fn answers(
    o: RootOutcome,
    root: int,
    terms: Seq<Term>,
    h: Hyp,
    on: bool,
    cap: Option<Cap>,
) -> bool {
    &&& o.expr.id < terms.len()
    &&& term::twidth(terms[o.expr.id as int]) == term::twidth(terms[root])
    &&& o.changed == (o.expr.id != root)
    &&& !o.changed ==> o.relies_on.used == 0
    &&& on ==> fin::equal_under(terms, h, o.relies_on, root, o.expr.id as int)
    &&& match cap {
        Some(c) => o.end == End::Declined(Decline::AdmissionCap(c)) && !o.changed,
        None => !(o.end is Declined),
    }
}

/// What came of a root so far.
#[derive(Clone, Copy, Debug, PartialEq, Eq, Structural)]
struct Done {
    r: u32,
    end: End,
    rel: Reliance,
}

/// A root was left as it was, and processing stopped for want of visits (if it was not declined).
spec fn stopped_at_once(d: Done, root: u32, e: Exhausted) -> bool {
    &&& d.r == root
    &&& !(d.end is Declined) ==> d.end == End::BudgetTerminated(e)
}

/// A root was left as it was, and processing completed (if it was not declined).
spec fn left_at_once(d: Done, root: u32) -> bool {
    &&& d.r == root
    &&& !(d.end is Declined) ==> d.end == End::Completed
}

/// What came of a root stands for it.
spec fn done_at(
    d: Done,
    root: int,
    terms: Seq<Term>,
    nodes: Seq<Node>,
    h: Hyp,
    on: bool,
    a: Admission,
) -> bool {
    &&& results::stands(terms, h, on, root, d.r as int, d.rel)
    &&& match cap_of(terms, nodes, root, a) {
        Some(c) => d.end == End::Declined(Decline::AdmissionCap(c)) && d.r == root,
        None => !(d.end is Declined),
    }
}

/// What came of every root so far stands for it.
#[verifier::opaque]
spec fn done_ok(
    m: Map<u32, Done>,
    terms: Seq<Term>,
    nodes: Seq<Node>,
    h: Hyp,
    on: bool,
    a: Admission,
) -> bool {
    forall|root: u32| #[trigger]
        m.contains_key(root) ==> root < terms.len() && done_at(
            m[root],
            root as int,
            terms,
            nodes,
            h,
            on,
            a,
        )
}

proof fn lemma_done_grow(
    m: Map<u32, Done>,
    cx0: &Context,
    cx1: &Context,
    h: Hyp,
    on: bool,
    a: Admission,
)
    requires
        cx0.wf(),
        cx1.wf(),
        cx1.extends(cx0),
        done_ok(m, cx0.tm(), cx0.nodes@, h, on, a),
    ensures
        done_ok(m, cx1.tm(), cx1.nodes@, h, on, a),
{
    reveal(done_ok);
    assert forall|root: u32| #[trigger] m.contains_key(root) implies root < cx1.tm().len()
        && done_at(m[root], root as int, cx1.tm(), cx1.nodes@, h, on, a) by {
        let d = m[root];
        results::lemma_stands_grow(cx0.tm(), cx1.tm(), h, on, root as int, d.r as int, d.rel);
        lemma_cap_same(cx0, cx1, root as int, a);
    }
}

proof fn lemma_cap_same(cx0: &Context, cx1: &Context, root: int, a: Admission)
    requires
        cx0.wf(),
        cx1.wf(),
        cx1.extends(cx0),
        0 <= root < cx0.n(),
    ensures
        cap_of(cx1.tm(), cx1.nodes@, root, a) == cap_of(cx0.tm(), cx0.nodes@, root, a),
{
    assert(cx1.tm()[root] == cx0.tm()[root]);
    lemma_reach_same(cx0.nodes@, cx1.nodes@, root);
}

/// The admission cap `root` exceeds, if any.
fn admission_cap(cx: &Context, root: u32, a: &Admission) -> (r: Option<Cap>)
    requires
        cx.wf(),
        root < cx.n(),
    ensures
        r == cap_of(cx.tm(), cx.nodes@, root as int, *a),
{
    proof {
        assert(cx.ok_at(root as int));
    }
    let meta = cx.meta[root as usize];
    if meta.height > a.max_root_height {
        return Some(Cap::Height);
    }
    if meta.tree > a.max_root_tree_size {
        return Some(Cap::TreeSize);
    }
    if let Some(k) = a.max_root_dag_size {
        match cx.dag_size(Expr { id: root }, k) {
            Ok(Some(_)) => {},
            _ => {
                return Some(Cap::DagSize);
            },
        }
    }
    None
}

/// One root more, changed or not.
fn tally(c: RootCounts, changed: bool) -> (r: RootCounts)
    ensures
        r == (if changed {
            RootCounts { changed: crate::engine::stats::bumped(c.changed), ..c }
        } else {
            RootCounts { unchanged: crate::engine::stats::bumped(c.unchanged), ..c }
        }),
{
    if changed {
        RootCounts { changed: bump(c.changed), ..c }
    } else {
        RootCounts { unchanged: bump(c.unchanged), ..c }
    }
}

/// One root less, changed or not.
fn untally(c: RootCounts, changed: bool) -> (r: RootCounts)
    ensures
        r == (if changed {
            RootCounts { changed: budget::less(c.changed, 1), ..c }
        } else {
            RootCounts { unchanged: budget::less(c.unchanged, 1), ..c }
        }),
{
    if changed {
        RootCounts { changed: c.changed.saturating_sub(1), ..c }
    } else {
        RootCounts { unchanged: c.unchanged.saturating_sub(1), ..c }
    }
}

/// A count of roots: of those that ended this way, changed or not.
#[derive(Clone, Copy, Debug, PartialEq, Eq, Structural)]
pub enum Tally {
    /// Completed.
    Completed(bool),
    /// Stopped.
    Stopped(bool),
    /// Not processed.
    Declined,
}

impl Tally {
    /// The count that a root belongs to.
    pub open spec fn of(end: End, changed: bool) -> Tally {
        match end {
            End::Completed => Tally::Completed(changed),
            End::BudgetTerminated(_) => Tally::Stopped(changed),
            End::Declined(_) => Tally::Declined,
        }
    }

    /// What the counters of a call say.
    pub open spec fn get(self, s: Stats) -> u64 {
        match self {
            Tally::Completed(c) => if c {
                s.completed.changed
            } else {
                s.completed.unchanged
            },
            Tally::Stopped(c) => if c {
                s.budget_terminated.changed
            } else {
                s.budget_terminated.unchanged
            },
            Tally::Declined => s.declined,
        }
    }
}

/// Counts a root.
fn count(s: &mut Stats, end: End, changed: bool)
    ensures
        forall|t: Tally| #[trigger]
            t.get(*final(s)) == (if t == Tally::of(end, changed) {
                crate::engine::stats::bumped(t.get(*old(s)))
            } else {
                t.get(*old(s))
            }),
        *final(s) == (Stats {
            completed: final(s).completed,
            budget_terminated: final(s).budget_terminated,
            declined: final(s).declined,
            ..*old(s)
        }),
{
    match end {
        End::Completed => {
            s.completed = tally(s.completed, changed);
        },
        End::BudgetTerminated(_) => {
            s.budget_terminated = tally(s.budget_terminated, changed);
        },
        End::Declined(_) => {
            s.declined = bump(s.declined);
        },
    }
}

/// Takes the count of a root back.
fn uncount(s: &mut Stats, end: End, changed: bool)
    ensures
        forall|t: Tally| #[trigger]
            t.get(*final(s)) == (if t == Tally::of(end, changed) {
                budget::less(t.get(*old(s)), 1)
            } else {
                t.get(*old(s))
            }),
        *final(s) == (Stats {
            completed: final(s).completed,
            budget_terminated: final(s).budget_terminated,
            declined: final(s).declined,
            ..*old(s)
        }),
{
    match end {
        End::Completed => {
            s.completed = untally(s.completed, changed);
        },
        End::BudgetTerminated(_) => {
            s.budget_terminated = untally(s.budget_terminated, changed);
        },
        End::Declined(_) => {
            s.declined = s.declined.saturating_sub(1);
        },
    }
}

/// The roots that a count is of.
spec fn in_tally(m: Map<u32, Done>, t: Tally) -> Set<u32> {
    m.dom().filter(|k: u32| Tally::of(m[k].end, m[k].r != k) == t)
}

/// Every root that is done is counted, each once.
spec fn tallied(s: Stats, m: Map<u32, Done>) -> bool {
    &&& m.dom().finite()
    &&& forall|t: Tally| #[trigger] t.get(s) == in_tally(m, t).len()
}

proof fn lemma_tally_insert(m: Map<u32, Done>, k: u32, d: Done, t: Tally)
    requires
        m.dom().finite(),
    ensures
        in_tally(m.insert(k, d), t).len() + (if m.contains_key(k) && Tally::of(
            m[k].end,
            m[k].r != k,
        ) == t {
            1int
        } else {
            0int
        }) == in_tally(m, t).len() + (if Tally::of(d.end, d.r != k) == t {
            1int
        } else {
            0int
        }),
        in_tally(m, t).len() <= m.dom().len(),
{
    let a = in_tally(m, t);
    let b = in_tally(m.insert(k, d), t);
    vstd::set_lib::lemma_len_subset(a, m.dom());
    if Tally::of(d.end, d.r != k) == t {
        assert(b =~= a.remove(k).insert(k));
    } else {
        assert(b =~= a.remove(k));
    }
}

proof fn lemma_tallied_same(s0: Stats, s1: Stats, m: Map<u32, Done>)
    requires
        tallied(s0, m),
        runner::same_tallies(s1, s0),
    ensures
        tallied(s1, m),
{
    assert forall|t: Tally| #[trigger] t.get(s1) == in_tally(m, t).len() by {
        assert(t.get(s0) == in_tally(m, t).len());
    }
}

proof fn lemma_counted(s0: Stats, s1: Stats, m: Map<u32, Done>, k: u32, d: Done)
    requires
        tallied(s0, m),
        !m.contains_key(k),
        m.insert(k, d).dom().len() <= usize::MAX,
        forall|t: Tally| #[trigger]
            t.get(s1) == (if t == Tally::of(d.end, d.r != k) {
                crate::engine::stats::bumped(t.get(s0))
            } else {
                t.get(s0)
            }),
    ensures
        tallied(s1, m.insert(k, d)),
{
    assert(m.insert(k, d).dom() =~= m.dom().insert(k));
    assert forall|t: Tally| #[trigger] t.get(s1) == in_tally(m.insert(k, d), t).len() by {
        lemma_tally_insert(m, k, d, t);
        assert(t.get(s0) == in_tally(m, t).len());
    }
}

proof fn lemma_recounted(s0: Stats, s1: Stats, s2: Stats, m: Map<u32, Done>, k: u32, d: Done)
    requires
        tallied(s0, m),
        m.contains_key(k),
        m.dom().len() <= usize::MAX,
        forall|t: Tally| #[trigger]
            t.get(s1) == (if t == Tally::of(m[k].end, m[k].r != k) {
                budget::less(t.get(s0), 1)
            } else {
                t.get(s0)
            }),
        forall|t: Tally| #[trigger]
            t.get(s2) == (if t == Tally::of(d.end, d.r != k) {
                crate::engine::stats::bumped(t.get(s1))
            } else {
                t.get(s1)
            }),
    ensures
        tallied(s2, m.insert(k, d)),
{
    assert(m.insert(k, d).dom() =~= m.dom());
    assert forall|t: Tally| #[trigger] t.get(s2) == in_tally(m.insert(k, d), t).len() by {
        lemma_tally_insert(m, k, d, t);
        assert(t.get(s0) == in_tally(m, t).len());
        assert(t.get(s1) <= t.get(s0));
        assert(t.get(s2) <= u64::MAX);
        if t != Tally::of(m[k].end, m[k].r != k) {
            vstd::set_lib::lemma_len_subset(in_tally(m, t), m.dom().remove(k));
        }
        if t == Tally::of(m[k].end, m[k].r != k) {
            assert(in_tally(m, t).contains(k));
            assert(in_tally(m, t).len() > 0) by {
                if in_tally(m, t).len() == 0 {
                    assert(in_tally(m, t) =~= Set::<u32>::empty());
                }
            }
        }
    }
}

/// The distinct roots.
pub open(crate) spec fn root_ids(roots: Seq<Expr>) -> Set<u32> {
    roots.map_values(|e: Expr| e.id).to_set()
}

/// The distinct roots whose outcomes a count is of.
pub open(crate) spec fn counted_roots(
    roots: Seq<Expr>,
    outs: Seq<RootOutcome>,
    t: Tally,
) -> Set<u32> {
    root_ids(roots).filter(
        |k: u32|
            exists|i: int|
                #![trigger outs[i]]
                0 <= i < outs.len() && roots[i].id == k && Tally::of(outs[i].end, outs[i].changed)
                    == t,
    )
}

/// The counters say how many distinct roots ended in which way, changed or not.
pub open(crate) spec fn roots_counted(
    s: Stats,
    roots: Seq<Expr>,
    outs: Seq<RootOutcome>,
) -> bool {
    forall|t: Tally| #[trigger] t.get(s) == counted_roots(roots, outs, t).len()
}

/// Whether every root is a node of the context.
fn all_there(cx: &Context, roots: &[Expr]) -> (r: bool)
    requires
        cx.wf(),
    ensures
        r == (forall|i: int| 0 <= i < roots@.len() ==> (#[trigger] roots@[i]).id < cx.n()),
{
    let mut i: usize = 0;
    while i < roots.len()
        invariant
            cx.wf(),
            i <= roots@.len(),
            forall|j: int| 0 <= j < i ==> (#[trigger] roots@[j]).id < cx.n(),
        decreases roots@.len() - i,
    {
        if roots[i].id as usize >= cx.len() {
            assert(!(roots@[i as int].id < cx.n()));
            return false;
        }
        i = i + 1;
    }
    true
}

/// The distinct roots, in order.
fn distinct(cx: &Context, roots: &[Expr]) -> (r: Vec<u32>)
    requires
        cx.wf(),
        forall|i: int| 0 <= i < roots@.len() ==> (#[trigger] roots@[i]).id < cx.n(),
    ensures
        runner::listed(r@, cx.n()),
{
    let mut seen: HashMap<u32, bool> = HashMap::new();
    let mut out: Vec<u32> = Vec::new();
    let mut i: usize = 0;
    while i < roots.len()
        invariant
            cx.wf(),
            i <= roots@.len(),
            forall|j: int| 0 <= j < roots@.len() ==> (#[trigger] roots@[j]).id < cx.n(),
            runner::listed(out@, cx.n()),
        decreases roots@.len() - i,
    {
        let id = roots[i].id;
        assert(roots@[i as int].id < cx.n());
        if !seen.contains_key(&id) {
            seen.insert(id, true);
            out.push(id);
        }
        i = i + 1;
    }
    out
}

impl<'a> Runner<'a> {
    /// The state for work outside any call: no limits, no assumptions.
    pub(crate) fn alone(cx: &Context, inner: &'a Inner) -> (r: Runner<'a>)
        requires
            cx.wf(),
            inner.wf(),
        ensures
            r.wf(cx),
            forall|k: int, env: Env| #[trigger] (r.hyp@)(k, env),
            r.hooks is None,
            r.meter.limit.new_nodes == u64::MAX,
            r.meter.spent == Budget::all(0),
            r.meter.deadline is None,
            !r.meter.expired,
    {
        let ghost h: Hyp = |k: int, env: Env| true;
        Runner::start(
            cx,
            inner,
            Budget::unlimited(),
            None,
            None,
            None,
            Vec::new(),
            Vec::new(),
            Ghost(h),
        )
    }

    /// The state at the beginning of a call.
    fn start(
        cx: &Context,
        inner: &'a Inner,
        limit: Budget,
        deadline: Option<Deadline<'a>>,
        observer: Option<&'a mut dyn Observer>,
        hooks: Option<&'a dyn Hooks>,
        items: Vec<Constraint>,
        live_roots: Vec<u32>,
        Ghost(h): Ghost<Hyp>,
    ) -> (r: Runner<'a>)
        requires
            cx.wf(),
            inner.wf(),
            store::items_fit(items@, cx.tm()),
            runner::listed(live_roots@, cx.n()),
            forall|k: int, env: Env| #[trigger] h(k, env) == store::hyp_of(items@, cx.tm())(k, env),
        ensures
            r.wf(cx),
            r.hyp@ == h,
            r.meter.limit == limit,
            r.meter.spent == Budget::all(0),
            r.meter.deadline == deadline,
            !r.meter.expired,
            r.stats == Stats::none(),
            r.active == 0,
            r.meter.until_check == 0,
            r.hooks == hooks,
            r.verify == inner.verify,
    {
        let r = Runner {
            meter: Meter::new(limit, deadline),
            stats: Stats::zero(),
            observer,
            hooks,
            items,
            verify: inner.verify,
            sharing: inner.strategy.sharing,
            max_region: inner.strategy.max_region,
            facts: FactStore::new(),
            plain: FactStore::new(),
            samples: HashMap::new(),
            lins: FormCache::new(),
            xors: FormCache::new(),
            infos: HashMap::new(),
            traces: HashMap::new(),
            compares: HashMap::new(),
            residues: HashMap::new(),
            forms: &inner.forms,
            quarantined: Vec::new(),
            quarantined_passes: Vec::new(),
            quarantined_hosts: Vec::new(),
            scratch: Scratch::new(),
            live: Live::new(),
            uses_on: false,
            uses_upto: 0,
            phase_start: 0,
            dead: Marks::new(),
            dead_log: Vec::new(),
            live_roots,
            active: 0,
            rewritten: HashMap::new(),
            hyp: Ghost(h),
        };
        proof {
            reveal(runner::items_ok);
            reveal(runner::samples_ok);
            reveal(linear::lins_ok);
            reveal(xor::xors_ok);
            reveal(bitwise::infos_ok);
            reveal(shuffle::traces_ok);
            reveal(compares::compares_ok);
            reveal(compares::compares_full);
            reveal(residue::tables_ok);
            assert forall|k: int, env: Env|
                #![trigger h(k, env)]
                #![trigger store::constraint_holds(r.items@, cx.tm(), k, env)]
                h(k, env) <==> store::constraint_holds(r.items@, cx.tm(), k, env) by {
                assert(store::hyp_of(r.items@, cx.tm())(k, env) == store::constraint_holds(
                    r.items@,
                    cx.tm(),
                    k,
                    env,
                ));
            }
        }
        r
    }
}

/// No results yet in any phase of the call.
fn no_partial(phases: usize) -> (r: Vec<HashMap<u32, (u32, Fin)>>)
    ensures
        r@.len() == phases,
        forall|p: int| 0 <= p < phases ==> (#[trigger] r@[p])@ == Map::<u32, (u32, Fin)>::empty(),
{
    let mut r: Vec<HashMap<u32, (u32, Fin)>> = Vec::with_capacity(phases);
    let mut i: usize = 0;
    while i < phases
        invariant
            i <= phases,
            r@.len() == i,
            forall|p: int| 0 <= p < i ==> (#[trigger] r@[p])@ == Map::<u32, (u32, Fin)>::empty(),
        decreases phases - i,
    {
        r.push(HashMap::new());
        i = i + 1;
    }
    r
}

/// A root whose result is not final only because of what other roots share: the root, its entry
/// of the live roots and the version of the live roots its result was reached at.
#[derive(Clone, Copy, Debug, PartialEq, Eq, Structural)]
struct Provisional {
    root: u32,
    slot: usize,
    version: u64,
}

/// What a call does with its roots.
struct Call {
    done: HashMap<u32, Done>,
    provisional: Vec<Provisional>,
    /// How many times a root was rewritten.
    version: u64,
}

/// How a strategy's end on a root is reported, and whether the result is provisional.
fn ended(fin: Fin, stop: Option<Stop>) -> (r: (End, bool))
    ensures
        !(r.0 is Declined),
        stop matches Some(Stop::Exhausted(e)) ==> r.0 == End::BudgetTerminated(e) && !r.1,
        stop is None && fin.why is None ==> r.0 == End::Completed && r.1 == !fin.done,
        stop is None && fin.why is Some ==> !r.1 && (r.0 == End::BudgetTerminated(
            Exhausted::FactWork,
        ) || r.0 == End::BudgetTerminated(Exhausted::MatchSteps)),
{
    match stop {
        Some(Stop::Exhausted(e)) => (End::BudgetTerminated(e), false),
        None => {
            match fin.why {
                Some(Exhausted::MatchSteps) => (End::BudgetTerminated(Exhausted::MatchSteps), false),
                Some(_) => (End::BudgetTerminated(Exhausted::FactWork), false),
                None => (End::Completed, !fin.done),
            }
        },
    }
}

/// Every provisional root is done.
spec fn known_roots(v: Seq<Provisional>, m: Map<u32, Done>) -> bool {
    forall|i: int| 0 <= i < v.len() ==> m.contains_key((#[trigger] v[i]).root)
}

/// A provisional root was admitted.
spec fn admitted(
    v: Seq<Provisional>,
    terms: Seq<Term>,
    nodes: Seq<Node>,
    a: Admission,
) -> bool {
    forall|i: int|
        0 <= i < v.len() ==> cap_of(terms, nodes, (#[trigger] v[i]).root as int, a) is None
}

proof fn lemma_admitted_grow(
    v: Seq<Provisional>,
    m: Map<u32, Done>,
    cx0: &Context,
    cx1: &Context,
    h: Hyp,
    on: bool,
    a: Admission,
)
    requires
        cx0.wf(),
        cx1.wf(),
        cx1.extends(cx0),
        known_roots(v, m),
        done_ok(m, cx0.tm(), cx0.nodes@, h, on, a),
        admitted(v, cx0.tm(), cx0.nodes@, a),
    ensures
        admitted(v, cx1.tm(), cx1.nodes@, a),
{
    reveal(done_ok);
    assert forall|i: int| 0 <= i < v.len() implies cap_of(
        cx1.tm(),
        cx1.nodes@,
        (#[trigger] v[i]).root as int,
        a,
    ) is None by {
        assert(m.contains_key(v[i].root));
        lemma_cap_same(cx0, cx1, v[i].root as int, a);
    }
}

/// The reason that stopped a root is there: its limit leaves no room (or a cap on one query of
/// facts or one match was reached, or there is a deadline).
pub open(crate) spec fn stop_is_there(e: Exhausted, r: &Runner<'_>, cx: &Context) -> bool {
    match e {
        Exhausted::FactWork | Exhausted::MatchSteps => true,
        Exhausted::Deadline => !r.meter.timeless(),
        _ => r.refuses(cx, Stop::Exhausted(e)),
    }
}

/// What the roots of a call came to: what stopped one is there; where nothing holds a rewrite
/// back, every phase leaves what completed; and where every rewrite is refused, nothing changed.
#[verifier::opaque]
spec fn call_ok(
    m: Map<u32, Done>,
    r: &Runner<'_>,
    cx: &Context,
    inner: &Inner,
    res: Results,
    calm: bool,
    still: bool,
) -> bool {
    &&& r.meter.timeless() ==> !r.meter.expired
    &&& forall|k: u32| #[trigger]
        m.contains_key(k) ==> (m[k].end matches End::BudgetTerminated(e) ==> stop_is_there(e, r, cx))
    &&& calm && r.quiet() ==> rest::rested(res, inner.phases@, inner.rules@, cx.nodes@, cx.tm())
    &&& calm && r.quiet() && r.stats.rounds < walk::rounds_of(inner.strategy) ==> forall|k: u32|
        #[trigger]
        m.contains_key(k) && m[k].end is Completed ==> m[k].r < cx.n() && walk::all_rest(
            inner.phases@,
            inner.rules@,
            cx,
            m[k].r,
        )
    &&& still ==> r.refuses_all() && rest::untouched(res) && forall|k: u32| #[trigger]
        m.contains_key(k) ==> m[k].r == k
}

proof fn lemma_call_ok<'b>(
    m: Map<u32, Done>,
    r0: &Runner<'b>,
    r1: &Runner<'b>,
    cx0: &Context,
    cx1: &Context,
    inner: &Inner,
    res0: Results,
    res1: Results,
    calm: bool,
    still: bool,
    root: u32,
    d: Done,
)
    requires
        call_ok(m, r0, cx0, inner, res0, calm, still),
        runner::moved(r1, cx1, r0, cx0),
        cx0.wf(),
        d.r < cx1.n(),
        d.end matches End::BudgetTerminated(e) ==> stop_is_there(e, r1, cx1),
        rest::rested(res0, inner.phases@, inner.rules@, cx0.nodes@, cx0.tm()) && r1.quiet()
            ==> rest::rested(res1, inner.phases@, inner.rules@, cx1.nodes@, cx1.tm()) && (
        d.end is Completed && r1.stats.rounds < walk::rounds_of(inner.strategy) ==> walk::all_rest(
            inner.phases@,
            inner.rules@,
            cx1,
            d.r,
        )),
        r0.refuses_all() && rest::untouched(res0) ==> rest::untouched(res1) && (still ==> d.r == root),
    ensures
        call_ok(m.insert(root, d), r1, cx1, inner, res1, calm, still),
{
    reveal(call_ok);
    let m1 = m.insert(root, d);
    assert forall|k: u32| #[trigger] m1.contains_key(k) implies (m1[k].end matches End::BudgetTerminated(
        e,
    ) ==> stop_is_there(e, r1, cx1)) by {
        if k != root {
            assert(m.contains_key(k));
            if let End::BudgetTerminated(e) = m[k].end {
                assert(stop_is_there(e, r0, cx0));
            }
        }
    }
    if calm && r1.quiet() && r1.stats.rounds < walk::rounds_of(inner.strategy) {
        assert forall|k: u32| #[trigger]
            m1.contains_key(k) && m1[k].end is Completed implies m1[k].r < cx1.n()
            && walk::all_rest(inner.phases@, inner.rules@, cx1, m1[k].r) by {
            if k != root {
                assert(m.contains_key(k));
                assert forall|p: int|
                    #![trigger inner.phases@[p]]
                    0 <= p < inner.phases@.len() implies rest::rests(
                    inner.phases@[p],
                    inner.rules@,
                    cx1.nodes@,
                    cx1.tm(),
                    m[k].r,
                ) by {
                    rest::lemma_rests_grow(inner.phases@[p], inner.rules@, cx0, cx1, m[k].r);
                }
            }
        }
    }
    assert forall|k: u32| still && #[trigger] m1.contains_key(k) implies m1[k].r == k by {
        if k != root {
            assert(m.contains_key(k));
        }
    }
}

impl<'a> Runner<'a> {
    /// Processes one root for the first time.
    fn first(
        &mut self,
        cx: &mut Context,
        inner: &Inner,
        res: &mut Results,
        call: &mut Call,
        root: u32,
        admission: &Admission,
        Ghost(on): Ghost<bool>,
        Ghost(calm): Ghost<bool>,
        Ghost(still): Ghost<bool>,
    )
        requires
            call_ok(old(call).done@, old(self), old(cx), inner, *old(res), calm, still),
            old(self).wf(old(cx)),
            inner.wf(),
            on ==> inner.sound(),
            old(res).ok(inner.phases@.len(), old(cx).tm(), old(self).hyp@, on),
            root < old(cx).n(),
            done_ok(
                old(call).done@,
                old(cx).tm(),
                old(cx).nodes@,
                old(self).hyp@,
                on,
                *admission,
            ),
            known_roots(old(call).provisional@, old(call).done@),
            admitted(old(call).provisional@, old(cx).tm(), old(cx).nodes@, *admission),
            tallied(old(self).stats, old(call).done@),
            !old(call).done@.contains_key(root),
        ensures
            call_ok(final(call).done@, final(self), final(cx), inner, *final(res), calm, still),
            tallied(final(self).stats, final(call).done@),
            final(call).done@.dom() == old(call).done@.dom().insert(root),
            forall|k: u32|
                k != root && old(call).done@.contains_key(k) ==> #[trigger] final(call).done@[k]
                    == old(call).done@[k],
            inner.phases@.len() > 0 && old(self).meter.stuck() is Some && old(res).fresh() ==> {
                &&& stopped_at_once(
                    final(call).done@[root],
                    root,
                    old(self).meter.stuck()->Some_0,
                )
                &&& final(call).provisional@ == old(call).provisional@
                &&& final(res).fresh()
                &&& walk::idle(final(self), final(cx), old(self), old(cx))
            },
            results::settled(old(res).memo@, root) ==> {
                &&& left_at_once(final(call).done@[root], root)
                &&& final(call).provisional@ == old(call).provisional@
                &&& *final(res) == *old(res)
                &&& walk::idle(final(self), final(cx), old(self), old(cx))
            },
            runner::moved(final(self), final(cx), old(self), old(cx)),
            final(res).ok(inner.phases@.len(), final(cx).tm(), final(self).hyp@, on),
            done_ok(
                final(call).done@,
                final(cx).tm(),
                final(cx).nodes@,
                final(self).hyp@,
                on,
                *admission,
            ),
            known_roots(final(call).provisional@, final(call).done@),
            admitted(final(call).provisional@, final(cx).tm(), final(cx).nodes@, *admission),
            final(call).done@.contains_key(root),
            forall|k: u32|
                old(call).done@.contains_key(k) ==> #[trigger] final(call).done@.contains_key(k),
    {
        let ghost cx0 = *cx;
        let ghost h = self.hyp@;
        let cap = admission_cap(cx, root, admission);
        let out = match cap {
            Some(c) => {
                proof {
                    results::lemma_stands_self(cx.tm(), h, on, root as int, Reliance { used: 0 });
                }
                Done {
                    r: root,
                    end: End::Declined(Decline::AdmissionCap(c)),
                    rel: Reliance { used: 0 },
                }
            },
            None => {
                let (r, fin, stop) = self.strategy(cx, inner, res, root, Ghost(on));
                let (end, provisional) = ended(fin, stop);
                if provisional {
                    let mut version: u64 = call.version;
                    if r != root {
                        version = bump(version);
                    }
                    call.provisional.push(Provisional { root, slot: self.active, version });
                }
                Done { r, end, rel: fin.rel }
            },
        };
        proof {
            lemma_done_grow(call.done@, &cx0, cx, h, on, *admission);
            lemma_cap_same(&cx0, cx, root as int, *admission);
            lemma_admitted_grow(
                old(call).provisional@,
                old(call).done@,
                &cx0,
                cx,
                h,
                on,
                *admission,
            );
        }
        self.set_live_root(cx, out.r);
        if out.r != root {
            call.version = bump(call.version);
        }
        if self.active < usize::MAX {
            self.active = self.active + 1;
        }
        let ghost stats0 = self.stats;
        count(&mut self.stats, out.end, out.r != root);
        call.done.insert(root, out);
        let _ = call.done.len();
        proof {
            reveal(call_ok);
            lemma_call_ok(
                old(call).done@,
                old(self),
                self,
                &cx0,
                cx,
                inner,
                *old(res),
                *res,
                calm,
                still,
                root,
                out,
            );
            lemma_tallied_same(old(self).stats, stats0, old(call).done@);
            lemma_counted(stats0, self.stats, old(call).done@, root, out);
            reveal(done_ok);
            assert forall|i: int| 0 <= i < call.provisional@.len() implies
            call.done@.contains_key((#[trigger] call.provisional@[i]).root) by {
                if i < old(call).provisional@.len() {
                    assert(call.provisional@[i] == old(call).provisional@[i]);
                }
            }
            assert forall|i: int| 0 <= i < call.provisional@.len() implies cap_of(
                cx.tm(),
                cx.nodes@,
                (#[trigger] call.provisional@[i]).root as int,
                *admission,
            ) is None by {
                if i < old(call).provisional@.len() {
                    assert(call.provisional@[i] == old(call).provisional@[i]);
                }
            }
        }
    }

    /// Processes a root again, whose result sharing may have kept back: whether it changed.
    fn again(
        &mut self,
        cx: &mut Context,
        inner: &Inner,
        res: &mut Results,
        call: &mut Call,
        p: Provisional,
        Ghost(admission): Ghost<Admission>,
        Ghost(on): Ghost<bool>,
        Ghost(calm): Ghost<bool>,
        Ghost(still): Ghost<bool>,
    ) -> (changed: bool)
        requires
            call_ok(old(call).done@, old(self), old(cx), inner, *old(res), calm, still),
            old(self).wf(old(cx)),
            inner.wf(),
            on ==> inner.sound(),
            old(res).ok(inner.phases@.len(), old(cx).tm(), old(self).hyp@, on),
            done_ok(
                old(call).done@,
                old(cx).tm(),
                old(cx).nodes@,
                old(self).hyp@,
                on,
                admission,
            ),
            known_roots(old(call).provisional@, old(call).done@),
            admitted(old(call).provisional@, old(cx).tm(), old(cx).nodes@, admission),
            old(call).done@.contains_key(p.root),
            cap_of(old(cx).tm(), old(cx).nodes@, p.root as int, admission) is None,
            tallied(old(self).stats, old(call).done@),
        ensures
            call_ok(final(call).done@, final(self), final(cx), inner, *final(res), calm, still),
            tallied(final(self).stats, final(call).done@),
            final(call).done@.dom() == old(call).done@.dom(),
            runner::moved(final(self), final(cx), old(self), old(cx)),
            final(res).ok(inner.phases@.len(), final(cx).tm(), final(self).hyp@, on),
            done_ok(
                final(call).done@,
                final(cx).tm(),
                final(cx).nodes@,
                final(self).hyp@,
                on,
                admission,
            ),
            known_roots(final(call).provisional@, final(call).done@),
            admitted(final(call).provisional@, final(cx).tm(), final(cx).nodes@, admission),
            forall|k: u32|
                old(call).done@.contains_key(k) ==> #[trigger] final(call).done@.contains_key(k),
    {
        let ghost cx0 = *cx;
        let ghost h = self.hyp@;
        let root = p.root;
        let d0: Done = match call.done.get(&root) {
            Some(d) => *d,
            None => {
                return false;
            },
        };
        proof {
            reveal(done_ok);
        }
        self.active = p.slot;
        let (r, fin, stop) = self.strategy(cx, inner, res, d0.r, Ghost(on));
        let (end, more) = ended(fin, stop);
        let changed = r != d0.r;
        if changed {
            call.version = bump(call.version);
            self.set_live_root(cx, r);
        }
        let ghost stats0 = self.stats;
        uncount(&mut self.stats, d0.end, d0.r != root);
        let ghost stats1 = self.stats;
        count(&mut self.stats, end, r != root);
        let rel = d0.rel.or(fin.rel);
        proof {
            lemma_done_grow(call.done@, &cx0, cx, h, on, admission);
            lemma_cap_same(&cx0, cx, root as int, admission);
            lemma_admitted_grow(
                old(call).provisional@,
                old(call).done@,
                &cx0,
                cx,
                h,
                on,
                admission,
            );
            results::lemma_stands_grow(cx0.tm(), cx.tm(), h, on, root as int, d0.r as int, d0.rel);
            results::lemma_stands_trans(
                cx.tm(),
                h,
                on,
                root as int,
                d0.r as int,
                r as int,
                d0.rel,
                fin.rel,
                rel,
            );
        }
        let now = Done { r, end, rel };
        call.done.insert(root, now);
        let _ = call.done.len();
        proof {
            reveal(call_ok);
            lemma_call_ok(
                old(call).done@,
                old(self),
                self,
                &cx0,
                cx,
                inner,
                *old(res),
                *res,
                calm,
                still,
                root,
                now,
            );
            lemma_tallied_same(old(self).stats, stats0, old(call).done@);
            lemma_recounted(stats0, stats1, self.stats, old(call).done@, root, now);
            assert(call.done@.dom() =~= old(call).done@.dom());
        }
        if more {
            call.provisional.push(Provisional { root, slot: p.slot, version: call.version });
        }
        proof {
            reveal(done_ok);
            assert forall|i: int| 0 <= i < call.provisional@.len() implies
            call.done@.contains_key((#[trigger] call.provisional@[i]).root) by {
                if i < old(call).provisional@.len() {
                    assert(call.provisional@[i] == old(call).provisional@[i]);
                }
            }
            assert forall|i: int| 0 <= i < call.provisional@.len() implies cap_of(
                cx.tm(),
                cx.nodes@,
                (#[trigger] call.provisional@[i]).root as int,
                admission,
            ) is None by {
                if i < old(call).provisional@.len() {
                    assert(call.provisional@[i] == old(call).provisional@[i]);
                }
            }
        }
        changed
    }

    /// Once every root is done, sharing that kept a rewrite back may be gone (a subterm only
    /// other roots' parts used, simplified away since): those roots again, while that changes
    /// something.
    fn retry(
        &mut self,
        cx: &mut Context,
        inner: &Inner,
        res: &mut Results,
        call: &mut Call,
        Ghost(admission): Ghost<Admission>,
        Ghost(on): Ghost<bool>,
        Ghost(calm): Ghost<bool>,
        Ghost(still): Ghost<bool>,
    )
        requires
            call_ok(old(call).done@, old(self), old(cx), inner, *old(res), calm, still),
            old(self).wf(old(cx)),
            inner.wf(),
            on ==> inner.sound(),
            old(res).ok(inner.phases@.len(), old(cx).tm(), old(self).hyp@, on),
            done_ok(
                old(call).done@,
                old(cx).tm(),
                old(cx).nodes@,
                old(self).hyp@,
                on,
                admission,
            ),
            known_roots(old(call).provisional@, old(call).done@),
            admitted(old(call).provisional@, old(cx).tm(), old(cx).nodes@, admission),
            tallied(old(self).stats, old(call).done@),
        ensures
            call_ok(final(call).done@, final(self), final(cx), inner, *final(res), calm, still),
            tallied(final(self).stats, final(call).done@),
            final(call).done@.dom() == old(call).done@.dom(),
            old(call).provisional@.len() == 0 ==> *final(self) == *old(self) && *final(cx)
                == *old(cx) && final(call).done@ == old(call).done@,
            runner::moved(final(self), final(cx), old(self), old(cx)),
            final(res).ok(inner.phases@.len(), final(cx).tm(), final(self).hyp@, on),
            done_ok(
                final(call).done@,
                final(cx).tm(),
                final(cx).nodes@,
                final(self).hyp@,
                on,
                admission,
            ),
            forall|k: u32|
                old(call).done@.contains_key(k) ==> #[trigger] final(call).done@.contains_key(k),
    {
        let ghost h = self.hyp@;
        let ghost phases = inner.phases@.len();
        let mut round: u32 = 0;
        while round < 3
            invariant
                runner::moved(self, cx, old(self), old(cx)),
                inner.wf(),
                phases == inner.phases@.len(),
                on ==> inner.sound(),
                h == self.hyp@,
                round <= 3,
                res.ok(phases, cx.tm(), h, on),
                done_ok(call.done@, cx.tm(), cx.nodes@, h, on, admission),
                known_roots(call.provisional@, call.done@),
                admitted(call.provisional@, cx.tm(), cx.nodes@, admission),
                call_ok(call.done@, self, cx, inner, *res, calm, still),
                tallied(self.stats, call.done@),
                call.done@.dom() == old(call).done@.dom(),
                old(call).provisional@.len() == 0 ==> *self == *old(self) && *cx == *old(cx)
                    && *call == *old(call),
                forall|k: u32|
                    old(call).done@.contains_key(k) ==> #[trigger] call.done@.contains_key(k),
            decreases 3 - round,
        {
            if call.provisional.len() == 0 {
                return;
            }
            let ghost before = *self;
            self.live.forget_others();
            proof {
                reveal(call_ok);
            }
            let mut changed = false;
            let mut taken: Vec<Provisional> = Vec::new();
            std::mem::swap(&mut taken, &mut call.provisional);
            let mut i: usize = 0;
            while i < taken.len()
                invariant
                    runner::moved(self, cx, old(self), old(cx)),
                    inner.wf(),
                    phases == inner.phases@.len(),
                    on ==> inner.sound(),
                    h == self.hyp@,
                    res.ok(phases, cx.tm(), h, on),
                    done_ok(call.done@, cx.tm(), cx.nodes@, h, on, admission),
                    known_roots(call.provisional@, call.done@),
                    admitted(call.provisional@, cx.tm(), cx.nodes@, admission),
                    known_roots(taken@, call.done@),
                    admitted(taken@, cx.tm(), cx.nodes@, admission),
                    call_ok(call.done@, self, cx, inner, *res, calm, still),
                    tallied(self.stats, call.done@),
                    call.done@.dom() == old(call).done@.dom(),
                    old(call).provisional@.len() > 0,
                    i <= taken@.len(),
                    forall|k: u32|
                        old(call).done@.contains_key(k) ==> #[trigger] call.done@.contains_key(k),
                decreases taken@.len() - i,
            {
                let p = taken[i];
                assert(taken@[i as int] == p);
                i = i + 1;
                // Nothing rewritten since this root's result was reached: the live roots are
                // as they were then, and the result a fixed point of them.
                if p.version == call.version {
                    let ghost v0 = call.provisional@;
                    call.provisional.push(p);
                    proof {
                        assert forall|j: int| 0 <= j < call.provisional@.len() implies
                        call.done@.contains_key((#[trigger] call.provisional@[j]).root) by {
                            if j < v0.len() {
                                assert(call.provisional@[j] == v0[j]);
                            }
                        }
                        assert forall|j: int| 0 <= j < call.provisional@.len() implies cap_of(
                            cx.tm(),
                            cx.nodes@,
                            (#[trigger] call.provisional@[j]).root as int,
                            admission,
                        ) is None by {
                            if j < v0.len() {
                                assert(call.provisional@[j] == v0[j]);
                            }
                        }
                    }
                    continue;
                }
                let ghost cx0 = *cx;
                let ghost done0 = call.done@;
                if self.again(
                    cx,
                    inner,
                    res,
                    call,
                    p,
                    Ghost(admission),
                    Ghost(on),
                    Ghost(calm),
                    Ghost(still),
                ) {
                    changed = true;
                }
                proof {
                    lemma_admitted_grow(taken@, done0, &cx0, cx, h, on, admission);
                    assert forall|j: int| 0 <= j < taken@.len() implies call.done@.contains_key(
                        (#[trigger] taken@[j]).root,
                    ) by {
                        assert(done0.contains_key(taken@[j].root));
                    }
                }
            }
            if !changed {
                return;
            }
            round = round + 1;
        }
    }
}

/// What a call spent is what its statistics say.
pub open spec fn spent_as(stats: Stats, b: Budget) -> bool {
    &&& stats.node_visits == b.node_visits
    &&& stats.candidates == b.candidates
    &&& stats.match_steps == b.match_steps
    &&& stats.rewrites == b.rewrites
    &&& stats.new_nodes == b.new_nodes
    &&& stats.fact_work == b.fact_work
    &&& stats.pass_work == b.pass_work
    &&& stats.mba.calls == b.mba_calls
}

/// A run has nothing to rely on: it has no assumptions, or they contradict each other.
pub open spec fn nothing_assumed(a: Option<&Assumptions>) -> bool {
    match a {
        Some(x) => x.infeasible(),
        None => true,
    }
}

/// The constraints a run uses: none when they contradict each other (they would justify any
/// rewrite; none is made from them).
fn feasible(a: Option<&Assumptions>) -> (r: Assumptions)
    ensures
        match a {
            Some(x) => store::same_items(r.items@, x.items@) || r.items@.len() == 0,
            None => r.items@.len() == 0,
        },
        a matches Some(x) ==> !x.infeasible() ==> store::same_items(r.items@, x.items@),
        a matches Some(x) ==> x.infeasible() ==> r.items@.len() == 0,
{
    match a {
        Some(x) => {
            if x.is_infeasible() {
                Assumptions::new()
            } else {
                x.dup()
            }
        },
        None => Assumptions::new(),
    }
}

/// Every root was left as it was for want of visits (if it was not declined).
pub open spec fn all_stopped(outs: Seq<RootOutcome>, roots: Seq<Expr>, e: Exhausted) -> bool {
    forall|i: int|
        #![trigger outs[i]]
        0 <= i < outs.len() ==> outs[i].expr == roots[i] && (!(outs[i].end is Declined) ==> outs[i].end
            == End::BudgetTerminated(e))
}

/// Every root was left as it was, and completed (if it was not declined).
pub open spec fn all_left(outs: Seq<RootOutcome>, roots: Seq<Expr>) -> bool {
    forall|i: int|
        #![trigger outs[i]]
        0 <= i < outs.len() ==> outs[i].expr == roots[i] && (!(outs[i].end is Declined) ==> outs[i].end
            == End::Completed)
}

/// The key under which the results of an engine's runs are kept, from the key of its hooks.
pub open spec fn epoch_of(id: u128, hook: u64) -> u128 {
    id ^ (hook as u128)
}

/// Nothing is done yet.
proof fn lemma_call_new(
    m: Map<u32, Done>,
    r: &Runner<'_>,
    engine: &Engine,
    cx0: &Context,
    cx: &Context,
    res: Results,
    calm: bool,
    still: bool,
)
    requires
        m == Map::<u32, Done>::empty(),
        r.meter.timeless() ==> !r.meter.expired,
        calm ==> cx0.rested_under(engine),
        still ==> r.refuses_all() && cx0.nothing_kept(),
        res.memo@.len() == engine.inner.phases@.len(),
        res.partial@.len() == engine.inner.phases@.len(),
        res.memo@ == cx0.memo.phases@ || results::blank(res.memo@),
        forall|p: int|
            #![trigger res.partial@[p]]
            0 <= p < res.partial@.len() ==> res.partial@[p]@ == Map::<u32, (u32, Fin)>::empty(),
        cx.nodes@ == cx0.nodes@,
        cx.tm() == cx0.tm(),
    ensures
        call_ok(m, r, cx, &*engine.inner, res, calm, still),
{
    reveal(call_ok);
    let inner = &*engine.inner;
    if calm {
        assert(rest::memo_rests(res.memo@, inner.phases@, inner.rules@, cx.nodes@, cx.tm()));
        rest::lemma_fresh_rests(res, inner.phases@, inner.rules@, cx.nodes@, cx.tm());
    }
    if still {
        assert(results::blank(res.memo@));
        reveal(rest::untouched);
    }
}

/// What the roots of a finished call came to, over what is returned.
proof fn lemma_call_ends(
    m: Map<u32, Done>,
    r: &Runner<'_>,
    engine: &Engine,
    cx2: &Context,
    cx: &Context,
    res: Results,
    calm: bool,
    still: bool,
    roots: Seq<Expr>,
    outs: Seq<RootOutcome>,
    free: bool,
    stats: Stats,
)
    requires
        call_ok(m, r, cx2, &*engine.inner, res, calm, still),
        r.wf(cx2),
        r.verify == engine.inner.verify,
        res.memo@.len() == engine.inner.phases@.len(),
        cx.memo.phases@ == res.memo@,
        cx.nodes@ == cx2.nodes@,
        cx.tm() == cx2.tm(),
        cx.max_nodes == cx2.max_nodes,
        stats.quarantined == r.stats.quarantined,
        stats.cycles_cut == r.stats.cycles_cut,
        stats.rounds == r.stats.rounds,
        spent_as(stats, r.meter.spent),
        outs.len() == roots.len(),
        forall|i: int| 0 <= i < roots.len() ==> m.contains_key((#[trigger] roots[i]).id),
        forall|i: int|
            #![trigger outs[i]]
            0 <= i < roots.len() ==> outs[i] == made_of(m[roots[i].id], roots[i].id, free),
    ensures
        forall|i: int|
            0 <= i < roots.len() ==> ((#[trigger] outs[i]).end matches End::BudgetTerminated(e)
                ==> cut_short(e, r.meter.limit, stats, r.meter.deadline, cx)),
        r.hooks is None && calm && engine.nothing_held_back(stats) ==> cx.rested_under(engine) && (
        stats.rounds < walk::rounds_of(engine.plan_of()) ==> forall|i: int|
            0 <= i < roots.len() && (#[trigger] outs[i]).end is Completed ==> engine.at_rest(
                cx,
                outs[i].expr,
            )),
        still ==> r.refuses_all() && forall|i: int|
            0 <= i < roots.len() ==> (#[trigger] outs[i]).expr == roots[i],
{
    reveal(call_ok);
    reveal(budget::unhurried);
    assert forall|i: int| 0 <= i < roots.len() implies ((#[trigger] outs[i]).end matches End::BudgetTerminated(
        e,
    ) ==> cut_short(e, r.meter.limit, stats, r.meter.deadline, cx)) by {
        assert(m.contains_key(roots[i].id));
        if let End::BudgetTerminated(e) = outs[i].end {
            assert(stop_is_there(e, r, cx2));
        }
    }
    if r.hooks is None && calm && engine.nothing_held_back(stats) {
        assert(r.quiet());
        reveal(rest::rested);
        if stats.rounds < walk::rounds_of(engine.plan_of()) {
            assert forall|i: int|
                0 <= i < roots.len() && (#[trigger] outs[i]).end is Completed implies engine.at_rest(
                cx,
                outs[i].expr,
            ) by {
                assert(m.contains_key(roots[i].id));
            }
        }
    }
    assert forall|i: int| still && 0 <= i < roots.len() implies (#[trigger] outs[i]).expr
        == roots[i] by {
        assert(m.contains_key(roots[i].id));
    }
}

/// Why a call within these limits can do nothing, if that is known: its deadline has passed, or it
/// has no visits (and no deadline).
pub open spec fn shut(limit: Budget, deadline: Option<Deadline<'_>>) -> Option<Exhausted> {
    match deadline {
        Some(d) => if d.passed() {
            Some(Exhausted::Deadline)
        } else {
            None
        },
        None => if limit.node_visits == 0 {
            Some(Exhausted::NodeVisits)
        } else {
            None
        },
    }
}

/// The limit of a run: its caps, within what is left of its account.
pub open spec fn run_limit(run: Run<'_>) -> Budget {
    match run.allowance {
        None => run.per_call,
        Some(a) => run.per_call.zipped((*a).left(), |x: u64, y: u64| budget::min_u64(x, y)),
    }
}

/// The limit that stopped a root was reached: no more of it can be charged (or, of pass work and
/// nodes, no more than one step may take). A cap on one query of facts or on one match may stop a
/// root as well, and so may a deadline that the clock can show to have passed.
pub open(crate) spec fn cut_short(
    e: Exhausted,
    limit: Budget,
    s: Stats,
    deadline: Option<Deadline<'_>>,
    cx: &Context,
) -> bool {
    match e {
        Exhausted::FactWork | Exhausted::MatchSteps => true,
        Exhausted::Deadline => deadline matches Some(d) && !d.ahead(),
        Exhausted::NodeVisits => s.node_visits >= limit.node_visits,
        Exhausted::Candidates => s.candidates >= limit.candidates,
        Exhausted::Rewrites => s.rewrites >= limit.rewrites,
        Exhausted::PassWork => s.pass_work + runner::PASS_STEP + cx.count() > limit.pass_work,
        Exhausted::NewNodes | Exhausted::ArenaCapacity => s.new_nodes + 3 > limit.new_nodes
            || cx.count() + 3 > cx.limit(),
        _ => false,
    }
}

impl Engine {
    /// The strategy that is run.
    pub open(crate) spec fn plan_of(&self) -> Strategy {
        self.inner.strategy
    }

    /// In a call with these counters nothing held a rewrite back but the commit rule: no check of
    /// terms or facts is on, nothing was quarantined, and no cycle was cut.
    pub open(crate) spec fn nothing_held_back(&self, s: Stats) -> bool {
        &&& !self.inner.verify.tripwire
        &&& !self.inner.verify.termination
        &&& s.quarantined == 0
        &&& s.cycles_cut == 0
    }

    /// Every phase leaves the expression: no certain rule of a rule phase matches it, fact folding
    /// finds a bit of it open, and it does not extract an operand of what it reads.
    pub open(crate) spec fn at_rest(&self, cx: &Context, e: Expr) -> bool {
        walk::all_rest(self.inner.phases@, self.inner.rules@, cx, e.id)
    }

    /// A call on one root, with default caps and nothing else, came to `o` with counters `s`.
    pub open(crate) spec fn simplified(
        &self,
        before: &Context,
        after: &Context,
        e: Expr,
        o: RootOutcome,
        s: Stats,
    ) -> bool {
        &&& after.count() - before.count() == s.new_nodes
        &&& roots_counted(s, seq![e], seq![o])
        &&& o.end matches End::BudgetTerminated(x) ==> cut_short(
            x,
            default_caps(),
            s,
            None,
            after,
        )
        &&& before.rested_under(self) && self.nothing_held_back(s) && s.rounds < walk::rounds_of(
            self.plan_of(),
        ) && o.end is Completed ==> self.at_rest(after, o.expr)
    }

    /// Phase `p` is this pass.
    pub open(crate) spec fn runs_pass(&self, p: int, kind: PassKind) -> bool {
        0 <= p < self.inner.phases@.len() && self.inner.phases@[p] == PhaseImpl::Pass(kind)
    }

    /// How many phases the engine runs.
    pub open(crate) spec fn phase_count(&self) -> nat {
        self.inner.phases@.len()
    }

    /// [`run`](Self::run) within `limit`, with what it spent.
    #[verifier::rlimit(60)]
    #[verifier::spinoff_prover]
    fn run_within<'a>(
        &'a self,
        cx: &mut Context,
        roots: &[Expr],
        limit: Budget,
        admission: Admission,
        observer: Option<&'a mut dyn Observer>,
        hooks: Option<&'a dyn Hooks>,
        assumptions: Option<&'a Assumptions>,
        deadline: Option<Deadline<'a>>,
    ) -> (out: Result<(Outcome, Budget), Error>)
        requires
            self.wf(),
            old(cx).wf(),
        ensures
            final(cx).wf(),
            final(cx).extends(old(cx)),
            out is Ok <==> (forall|i: int|
                0 <= i < roots@.len() ==> old(cx).has(#[trigger] roots@[i])) && (
            assumptions matches Some(a) ==> old(cx).speaks_of(a)),
            out matches Err(e) ==> e == Error::BadHandle && final(cx).count() == old(cx).count(),
            out matches Ok(o) ==> o.0.roots@.len() == roots@.len(),
            out matches Ok(o) ==> forall|i: int|
                0 <= i < roots@.len() ==> final(cx).answered(
                    old(cx),
                    #[trigger] o.0.roots@[i],
                    roots@[i],
                    assumptions,
                    self.sound() && old(cx).memo_ok(),
                    admission,
                ),
            out matches Ok(o) ==> forall|i: int, j: int|
                0 <= i < roots@.len() && 0 <= j < roots@.len() && roots@[i] == roots@[j]
                    ==> #[trigger] o.0.roots@[i] == #[trigger] o.0.roots@[j],
            self.sound() && old(cx).memo_ok() ==> final(cx).memo_ok(),
            out matches Ok(o) ==> final(cx).count() - old(cx).count() == o.0.stats.new_nodes,
            out matches Ok(o) ==> spent_as(o.0.stats, o.1) && o.1.within(limit),
            out matches Ok(o) ==> roots_counted(o.0.stats, roots@, o.0.roots@),
            shut(limit, deadline) is Some && self.inner.phases@.len() > 0 && results::blank(
                old(cx).memo.phases@,
            ) ==> (out matches Ok(o) ==> all_stopped(
                o.0.roots@,
                roots@,
                shut(limit, deadline)->Some_0,
            ) && o.1 == Budget::all(0)),
            hooks is None && assumptions is None && old(cx).settled_under(self, roots@) ==> (
            out matches Ok(o) ==> all_left(o.0.roots@, roots@) && o.1 == Budget::all(0)),
            out matches Ok(o) ==> nothing_assumed(assumptions) ==> forall|i: int|
                0 <= i < roots@.len() ==> (#[trigger] o.0.roots@[i]).relies_on.used == 0,
            out matches Ok(o) ==> forall|i: int|
                0 <= i < roots@.len() ==> ((#[trigger] o.0.roots@[i]).end matches End::BudgetTerminated(
                    e,
                ) ==> cut_short(e, limit, o.0.stats, deadline, final(cx))),
            out matches Ok(o) ==> hooks is None && old(cx).rested_under(self)
                && self.nothing_held_back(o.0.stats) ==> final(cx).rested_under(self) && (
            o.0.stats.rounds < walk::rounds_of(self.plan_of()) ==> forall|i: int|
                0 <= i < roots@.len() && (#[trigger] o.0.roots@[i]).end is Completed
                    ==> self.at_rest(final(cx), o.0.roots@[i].expr)),
            out matches Ok(o) ==> runner::refuses_every(hooks) && old(cx).nothing_kept()
                ==> o.1.rewrites == 0 && forall|i: int|
                0 <= i < roots@.len() ==> (#[trigger] o.0.roots@[i]).expr == roots@[i],
    {
        if !all_there(cx, roots) {
            proof {
                lemma_memo_stays(old(cx), cx);
            }
            return Err(Error::BadHandle);
        }
        if let Some(a) = assumptions {
            if !a.fits(cx) {
                proof {
                    lemma_memo_stays(old(cx), cx);
                }
                return Err(Error::BadHandle);
            }
        }
        let inner: &'a Inner = &*self.inner;
        let used = feasible(assumptions);
        let ghost cx0 = *cx;
        let ghost tm0 = cx.tm();
        let ghost items = used.items@;
        let ghost h = store::hyp_of(items, tm0);
        let ghost on = self.sound() && cx.memo_ok();
        proof {
            lemma_used_fit(assumptions, items, tm0);
        }
        // Hooks enter the epoch by presence and revision: a host veto must never be bypassed
        // by a memo filled without it, nor leak into runs without it.
        let hook: u64 = match hooks {
            Some(k) => combine(0x686f_6f6b_7321, k.revision()),
            None => 0,
        };
        let epoch: u128 = inner.id ^ (hook as u128);
        let ghost dry = shut(limit, deadline) is Some && inner.phases@.len() > 0 && results::blank(
            cx.memo.phases@,
        );
        let ghost reason = shut(limit, deadline)->Some_0;
        let ghost set = hooks is None && assumptions is None && cx.settled_under(self, roots@);
        let mut memo = Memo::new();
        std::mem::swap(&mut memo, &mut cx.memo);
        proof {
            assert forall|i: int| 0 <= i < cx.n() implies #[trigger] cx.ok_at(i) by {
                assert(cx0.ok_at(i));
            }
        }
        let kept = memo.prepare(epoch, &used, inner.phases.len(), Ghost(tm0), Ghost(h));
        let mut res = Results { memo: kept, partial: no_partial(inner.phases.len()) };
        proof {
            reveal(results::partial_ok);
            assert forall|p: int| 0 <= p < inner.phases@.len() implies results::phase_ok(
                #[trigger] res.memo@[p],
                tm0,
                h,
                on,
            ) by {
                if !on {
                    assert(results::phase_ok(res.memo@[p], tm0, h, false));
                }
            }
        }
        let kept_for = used.dup();
        let free = used.items.len() == 0;
        let ghost calm = cx0.rested_under(self);
        let ghost still = runner::refuses_every(hooks) && cx0.nothing_kept();
        let live_roots = distinct(cx, roots);
        let many = live_roots.len() > 1;
        let ghost cx1 = *cx;
        let mut runner = Runner::start(
            cx,
            inner,
            limit,
            deadline,
            observer,
            hooks,
            used.items,
            live_roots,
            Ghost(h),
        );
        let ghost runner0 = runner;
        let mut call = Call { done: HashMap::new(), provisional: Vec::new(), version: 0 };
        proof {
            reveal(done_ok);
            lemma_none_done(runner.stats, call.done@);
            lemma_call_new(call.done@, &runner, self, &cx0, cx, res, calm, still);
            reveal(Meter::stuck);
            reveal(Meter::late);
        }
        let mut i: usize = 0;
        while i < roots.len()
            invariant
                runner::moved(&runner, cx, &runner0, &cx1),
                call_ok(call.done@, &runner, cx, inner, res, calm, still),
                tallied(runner.stats, call.done@),
                forall|k: u32| #[trigger]
                    call.done@.contains_key(k) ==> root_ids(roots@).contains(k),
                dry ==> runner.meter.stuck() == Some(reason) && res.fresh() && runner.meter.spent == Budget::all(0)
                    && call.provisional@.len() == 0 && forall|k: u32| #[trigger]
                    call.done@.contains_key(k) ==> stopped_at_once(call.done@[k], k, reason),
                dry ==> inner.phases@.len() > 0,
                set ==> res.memo@ == cx0.memo.phases@ && runner.meter.spent == Budget::all(0)
                    && call.provisional@.len() == 0 && forall|k: u32| #[trigger]
                    call.done@.contains_key(k) ==> left_at_once(call.done@[k], k),
                set ==> forall|j: int|
                    0 <= j < roots@.len() ==> results::settled(
                        cx0.memo.phases@,
                        (#[trigger] roots@[j]).id,
                    ),
                inner.wf(),
                *inner == *self.inner,
                on ==> inner.sound(),
                h == runner.hyp@,
                res.ok(inner.phases@.len(), cx.tm(), h, on),
                i <= roots@.len(),
                forall|j: int| 0 <= j < roots@.len() ==> (#[trigger] roots@[j]).id < cx1.n(),
                done_ok(call.done@, cx.tm(), cx.nodes@, h, on, admission),
                known_roots(call.provisional@, call.done@),
                admitted(call.provisional@, cx.tm(), cx.nodes@, admission),
                forall|j: int| 0 <= j < i ==> call.done@.contains_key((#[trigger] roots@[j]).id),
            decreases roots@.len() - i,
        {
            let root = roots[i].id;
            assert(roots@[i as int].id < cx1.n());
            if !call.done.contains_key(&root) {
                let ghost done0 = call.done@;
                runner.first(
                    cx,
                    inner,
                    &mut res,
                    &mut call,
                    root,
                    &admission,
                    Ghost(on),
                    Ghost(calm),
                    Ghost(still),
                );
                assert forall|j: int| 0 <= j < i implies call.done@.contains_key(
                    (#[trigger] roots@[j]).id,
                ) by {
                    assert(done0.contains_key(roots@[j].id));
                }
                proof {
                    if dry {
                        assert forall|k: u32| #[trigger] call.done@.contains_key(k) implies stopped_at_once(
                            call.done@[k],
                            k,
                            reason,
                        ) by {
                            if k != root {
                                assert(done0.contains_key(k));
                            }
                        }
                    }
                    if set {
                        assert forall|k: u32| #[trigger] call.done@.contains_key(k) implies left_at_once(
                            call.done@[k],
                            k,
                        ) by {
                            if k != root {
                                assert(done0.contains_key(k));
                            }
                        }
                    }
                    let ids = roots@.map_values(|e: Expr| e.id);
                    assert(ids[i as int] == root);
                    assert forall|k: u32| #[trigger] call.done@.contains_key(k) implies root_ids(
                        roots@,
                    ).contains(k) by {
                        if k != root {
                            assert(done0.contains_key(k));
                        }
                    }
                }
            }
            i = i + 1;
        }
        if many {
            let ghost done0 = call.done@;
            runner.retry(
                cx,
                inner,
                &mut res,
                &mut call,
                Ghost(admission),
                Ghost(on),
                Ghost(calm),
                Ghost(still),
            );
            assert forall|j: int| 0 <= j < roots@.len() implies call.done@.contains_key(
                (#[trigger] roots@[j]).id,
            ) by {
                assert(done0.contains_key(roots@[j].id));
            }
        }
        let spent = runner.meter.spent;
        let mut stats = runner.stats;
        stats.node_visits = spent.node_visits;
        stats.candidates = spent.candidates;
        stats.match_steps = spent.match_steps;
        stats.rewrites = spent.rewrites;
        stats.new_nodes = spent.new_nodes;
        stats.fact_work = spent.fact_work;
        stats.pass_work = spent.pass_work;
        stats.mba.calls = spent.mba_calls;
        let ghost cx2 = *cx;
        let ghost tm = cx.tm();
        let ghost res2 = res;
        cx.quota = u64::MAX;
        let Results { memo: phases, partial: _ } = res;
        cx.memo = Memo { epoch, assumptions: kept_for, phases };
        proof {
            results::lemma_hyp_grow(items, tm0, tm);
            let kitems = kept_for.items@;
            lemma_same_fit(kitems, items, tm);
            assert forall|p: int| 0 <= p < phases@.len() implies results::phase_ok(
                #[trigger] phases@[p],
                tm,
                runner::nothing(),
                false,
            ) by {
                results::lemma_phase_off(phases@[p], tm, h, runner::nothing(), on);
            }
            assert forall|i: int| 0 <= i < cx.n() implies #[trigger] cx.ok_at(i) by {
                assert(cx2.ok_at(i));
            }
            if on {
                store::lemma_same_hyp(kitems, items, tm);
                assert forall|p: int| 0 <= p < phases@.len() implies results::phase_ok(
                    #[trigger] phases@[p],
                    tm,
                    store::hyp_of(kitems, tm),
                    true,
                ) by {
                    assert forall|k: int, env: Env| #[trigger] store::hyp_of(kitems, tm)(k, env) == h(
                        k,
                        env,
                    ) by {
                        assert(store::hyp_of(items, tm)(k, env) == h(k, env));
                        assert(store::constraint_holds(items, tm, k, env) == store::hyp_of(items, tm)(k, env));
                    }
                    results::lemma_phase_same(phases@[p], tm, h, store::hyp_of(kitems, tm), true);
                }
            }
        }
        let mut outs: Vec<RootOutcome> = Vec::with_capacity(roots.len());
        let ghost rh = run_hyp(assumptions, tm);
        proof {
            assert forall|k: int, env: Env| #[trigger] rh(k, env) implies h(k, env) by {
                lemma_run_hyp(assumptions, items, tm, k, env);
                assert(store::hyp_of(items, tm)(k, env) == h(k, env));
            }
        }
        proof {
            if free {
                assert forall|k: int, env: Env| #[trigger] h(k, env) by {
                    assert(h(k, env) == store::constraint_holds(items, tm0, k, env));
                }
            }
        }
        i = 0;
        while i < roots.len()
            invariant
                i <= roots@.len(),
                outs@.len() == i,
                cx1.wf(),
                cx2.wf(),
                cx2.extends(&cx1),
                cx1.tm() == tm0,
                cx1.nodes@ == cx0.nodes@,
                tm == cx2.tm(),
                forall|j: int| 0 <= j < roots@.len() ==> (#[trigger] roots@[j]).id < cx1.n(),
                forall|j: int|
                    0 <= j < roots@.len() ==> call.done@.contains_key((#[trigger] roots@[j]).id),
                done_ok(call.done@, tm, cx2.nodes@, h, on, admission),
                forall|k: int, env: Env| #[trigger] rh(k, env) ==> h(k, env),
                free ==> forall|k: int, env: Env| #[trigger] h(k, env),
                forall|j: int|
                    0 <= j < i ==> answers(
                        #[trigger] outs@[j],
                        roots@[j].id as int,
                        tm,
                        rh,
                        on,
                        cap_of(tm0, cx0.nodes@, roots@[j].id as int, admission),
                    ),
                forall|j: int|
                    #![trigger outs@[j]]
                    0 <= j < i ==> outs@[j] == made_of(
                        call.done@[roots@[j].id],
                        roots@[j].id,
                        free,
                    ),
            decreases roots@.len() - i,
        {
            let root = roots[i].id;
            assert(call.done@.contains_key(roots@[i as int].id));
            let d: Done = match call.done.get(&root) {
                Some(d) => *d,
                None => Done { r: root, end: End::Completed, rel: Reliance { used: 0 } },
            };
            let o = RootOutcome {
                expr: Expr { id: d.r },
                changed: d.r != root,
                end: d.end,
                relies_on: if d.r == root || free {
                    Reliance { used: 0 }
                } else {
                    d.rel
                },
            };
            proof {
                reveal(done_ok);
                lemma_cap_same(&cx1, &cx2, root as int, admission);
                assert(results::stands(tm, h, on, root as int, d.r as int, d.rel));
                if on {
                    assert forall|env: Env|
                        #![trigger term::value(tm[root as int], env)]
                        #![trigger term::value(tm[d.r as int], env)]
                        o.relies_on.admits(rh, env) implies term::value(tm[root as int], env) == term::value(
                        tm[d.r as int],
                        env,
                    ) by {
                        if d.r != root {
                            assert forall|k: int| #[trigger] d.rel.uses(k) implies h(k, env) by {
                                if !free {
                                    assert(rh(k, env));
                                }
                            }
                            assert(d.rel.admits(h, env));
                        }
                    }
                }
            }
            outs.push(o);
            i = i + 1;
        }
        proof {
            assert(spent_as(stats, spent));
            assert(spent.within(limit));
            assert(cx.extends(old(cx)));
            lemma_tallied_same(runner.stats, stats, call.done@);
            lemma_roots_counted(stats, roots@, outs@, call.done@, free);
            lemma_call_ends(
                call.done@,
                &runner,
                self,
                &cx2,
                cx,
                res2,
                calm,
                still,
                roots@,
                outs@,
                free,
                stats,
            );
        }
        Ok((Outcome { roots: outs, stats }, spent))
    }

    /// Simplifies `roots` under `run`. Each distinct root is processed once; `roots[i]` of the
    /// outcome answers `roots[i]` of the input.
    pub fn run<'a>(&'a self, cx: &mut Context, roots: &[Expr], run: Run<'a>) -> (out: Result<
        Outcome,
        Error,
    >)
        requires
            self.wf(),
            old(cx).wf(),
        ensures
            final(cx).wf(),
            final(cx).extends(old(cx)),
            out is Ok <==> (forall|i: int|
                0 <= i < roots@.len() ==> old(cx).has(#[trigger] roots@[i])) && (
            run.assumptions matches Some(a) ==> old(cx).speaks_of(a)),
            out matches Err(e) ==> e == Error::BadHandle && final(cx).count() == old(cx).count(),
            out matches Ok(o) ==> o.roots@.len() == roots@.len(),
            out matches Ok(o) ==> forall|i: int|
                0 <= i < roots@.len() ==> final(cx).answered(
                    old(cx),
                    #[trigger] o.roots@[i],
                    roots@[i],
                    run.assumptions,
                    self.sound() && old(cx).memo_ok(),
                    run.admission,
                ),
            out matches Ok(o) ==> forall|i: int, j: int|
                0 <= i < roots@.len() && 0 <= j < roots@.len() && roots@[i] == roots@[j]
                    ==> #[trigger] o.roots@[i] == #[trigger] o.roots@[j],
            self.sound() && old(cx).memo_ok() ==> final(cx).memo_ok(),
            out matches Ok(o) ==> final(cx).count() - old(cx).count() == o.stats.new_nodes,
            out matches Ok(o) ==> exists|b: Budget| #[trigger]
                spent_as(o.stats, b) && b.within(run.per_call),
            run.allowance matches Some(a) ==> (out matches Ok(o) ==> exists|b: Budget| #[trigger]
                spent_as(o.stats, b) && b.within(run.per_call) && b.within((*a).left())
                    && final(a).left() == (*a).left().minus(b) && final(a).used()
                    == (*a).used().plus(b)),
            out matches Ok(o) ==> roots_counted(o.stats, roots@, o.roots@),
            // What stopped a root is there.
            out matches Ok(o) ==> forall|i: int|
                0 <= i < roots@.len() ==> ((#[trigger] o.roots@[i]).end matches End::BudgetTerminated(
                    e,
                ) ==> cut_short(e, run_limit(run), o.stats, run.deadline, final(cx))),
            // What completed is at rest, where nothing held a rewrite back and the rounds sufficed.
            out matches Ok(o) ==> run.hooks is None && old(cx).rested_under(self)
                && self.nothing_held_back(o.stats) ==> final(cx).rested_under(self) && (
            o.stats.rounds < walk::rounds_of(self.plan_of()) ==> forall|i: int|
                0 <= i < roots@.len() && (#[trigger] o.roots@[i]).end is Completed ==> self.at_rest(
                    final(cx),
                    o.roots@[i].expr,
                )),
            // A host that refuses every rewrite is obeyed.
            out matches Ok(o) ==> runner::refuses_every(run.hooks) && old(cx).nothing_kept()
                ==> o.stats.rewrites == 0 && forall|i: int|
                0 <= i < roots@.len() ==> (#[trigger] o.roots@[i]).expr == roots@[i]
                    && !o.roots@[i].changed,
            // Without visits nothing is done.
            run.per_call.node_visits == 0 && run.deadline is None && self.phase_count() > 0
                && old(cx).nothing_kept() ==> (out matches Ok(o) ==> all_stopped(
                o.roots@,
                roots@,
                Exhausted::NodeVisits,
            ) && spent_as(o.stats, Budget::all(0))),
            // Past the deadline nothing is done, however seldom the clock is read.
            run.deadline is Some && run.deadline->Some_0.passed() && self.phase_count() > 0
                && old(cx).nothing_kept() ==> (out matches Ok(o) ==> all_stopped(
                o.roots@,
                roots@,
                Exhausted::Deadline,
            ) && spent_as(o.stats, Budget::all(0))),
            // What is settled is answered from what is kept, without work.
            run.hooks is None && run.assumptions is None && old(cx).settled_under(self, roots@) ==> (
            out matches Ok(o) ==> all_left(o.roots@, roots@) && spent_as(o.stats, Budget::all(0))),
            out matches Ok(o) ==> nothing_assumed(run.assumptions) ==> forall|i: int|
                0 <= i < roots@.len() ==> (#[trigger] o.roots@[i]).relies_on.used == 0,
            run.allowance matches Some(a) ==> (out is Err ==> *final(a) == *a),
    {
        let Run { allowance, per_call, admission, observer, hooks, assumptions, deadline } = run;
        match allowance {
            None => {
                match self.run_within(
                    cx,
                    roots,
                    per_call,
                    admission,
                    observer,
                    hooks,
                    assumptions,
                    deadline,
                ) {
                    Ok((o, spent)) => {
                        assert(spent_as(o.stats, spent));
                        Ok(o)
                    },
                    Err(e) => Err(e),
                }
            },
            Some(a) => {
                let limit = per_call.min(&a.remaining());
                match self.run_within(
                    cx,
                    roots,
                    limit,
                    admission,
                    observer,
                    hooks,
                    assumptions,
                    deadline,
                ) {
                    Ok((o, spent)) => {
                        assert(spent_as(o.stats, spent));
                        a.spend(&spent);
                        Ok(o)
                    },
                    Err(e) => Err(e),
                }
            },
        }
    }

    /// Simplifies one expression with default options.
    pub fn simplify(&self, cx: &mut Context, e: Expr) -> (out: Result<RootOutcome, Error>)
        requires
            self.wf(),
            old(cx).wf(),
        ensures
            final(cx).wf(),
            final(cx).extends(old(cx)),
            out is Ok <==> old(cx).has(e),
            out matches Err(x) ==> x == Error::BadHandle && final(cx).count() == old(cx).count(),
            out matches Ok(o) ==> final(cx).made(o.expr, old(cx).width_of(e)) && o.changed == (
            o.expr != e) && !(o.end is Declined) && o.relies_on.used == 0,
            out matches Ok(o) ==> self.sound() && old(cx).memo_ok() ==> forall|env: Env| #[trigger]
                final(cx).value(o.expr, env) == old(cx).value(e, env),
            self.sound() && old(cx).memo_ok() ==> final(cx).memo_ok(),
            // As [`run`](Self::run) with these counters.
            out matches Ok(o) ==> exists|s: Stats| #[trigger]
                self.simplified(old(cx), final(cx), e, o, s),
            old(cx).settled_under(self, seq![e]) ==> (out matches Ok(o) ==> o.expr == e
                && o.end is Completed),
    {
        let roots: [Expr; 1] = [e];
        let out = self.run(cx, &roots, Run::default())?;
        let o = out.roots[0];
        proof {
            assert(roots@[0] == e);
            assert(roots@ =~= seq![e]);
            assert(out.roots@ =~= seq![o]);
            assert(self.simplified(old(cx), cx, e, o, out.stats));
            assert(out.roots@[0] == o);
            assert(cx.tm()[e.id as int] == old(cx).tm()[e.id as int]);
            if self.sound() && old(cx).memo_ok() {
                assert forall|env: Env| #[trigger] cx.value(o.expr, env) == old(cx).value(
                    e,
                    env,
                ) by {
                    let h = run_hyp(None, cx.tm());
                    assert forall|k: int| #[trigger] o.relies_on.uses(k) implies h(k, env) by {}
                    assert(o.relies_on.admits(h, env));
                    assert(term::value(cx.tm()[e.id as int], env) == term::value(
                        cx.tm()[o.expr.id as int],
                        env,
                    ));
                }
            }
        }
        Ok(o)
    }
}

/// The outcome that what came of a root is.
spec fn made_of(d: Done, root: u32, free: bool) -> RootOutcome {
    RootOutcome {
        expr: Expr { id: d.r },
        changed: d.r != root,
        end: d.end,
        relies_on: if d.r == root || free {
            Reliance { used: 0 }
        } else {
            d.rel
        },
    }
}

/// Nothing is counted before anything is done.
proof fn lemma_none_done(s: Stats, m: Map<u32, Done>)
    requires
        s == Stats::none(),
        m == Map::<u32, Done>::empty(),
    ensures
        tallied(s, m),
{
    assert forall|t: Tally| #[trigger] t.get(s) == in_tally(m, t).len() by {
        assert(in_tally(m, t) =~= Set::<u32>::empty());
    }
}

/// The roots done are the roots.
proof fn lemma_roots_counted(
    s: Stats,
    roots: Seq<Expr>,
    outs: Seq<RootOutcome>,
    m: Map<u32, Done>,
    free: bool,
)
    requires
        tallied(s, m),
        outs.len() == roots.len(),
        forall|k: u32| #[trigger] m.contains_key(k) ==> root_ids(roots).contains(k),
        forall|j: int| 0 <= j < roots.len() ==> m.contains_key((#[trigger] roots[j]).id),
        forall|j: int|
            #![trigger outs[j]]
            0 <= j < roots.len() ==> outs[j] == made_of(m[roots[j].id], roots[j].id, free),
    ensures
        roots_counted(s, roots, outs),
{
    let ids = roots.map_values(|e: Expr| e.id);
    assert forall|t: Tally| #[trigger] t.get(s) == counted_roots(roots, outs, t).len() by {
        let a = counted_roots(roots, outs, t);
        let b = in_tally(m, t);
        assert forall|k: u32| a.contains(k) == b.contains(k) by {
            if m.contains_key(k) {
                assert(ids.to_set().contains(k));
                let i = choose|i: int| 0 <= i < ids.len() && ids[i] == k;
                assert(roots[i].id == k);
                assert(outs[i] == made_of(m[k], k, free));
            } else if root_ids(roots).contains(k) {
                let i = choose|i: int| 0 <= i < ids.len() && ids[i] == k;
                assert(roots[i].id == k);
            }
        }
        assert(a =~= b);
    }
}

/// The constraints used speak of nodes that are there.
proof fn lemma_used_fit(a: Option<&Assumptions>, items: Seq<Constraint>, terms: Seq<Term>)
    requires
        match a {
            Some(x) => store::same_items(items, x.items@) || items.len() == 0,
            None => items.len() == 0,
        },
        a matches Some(x) ==> store::items_fit(x.items@, terms),
    ensures
        store::items_fit(items, terms),
{
    if let Some(x) = a {
        assert forall|k: int| #![trigger items[k]] 0 <= k < items.len() implies items[k].expr
            < terms.len() && items[k].known.has(term::twidth(terms[items[k].expr as int])) by {
            assert(store::same_item(items[k], x.items@[k]));
        }
    }
}

/// Lists that say the same speak of the same nodes.
proof fn lemma_same_fit(a: Seq<Constraint>, b: Seq<Constraint>, terms: Seq<Term>)
    requires
        store::same_items(a, b),
        store::items_fit(b, terms),
    ensures
        store::items_fit(a, terms),
{
    assert forall|k: int| #![trigger a[k]] 0 <= k < a.len() implies a[k].expr < terms.len()
        && a[k].known.has(term::twidth(terms[a[k].expr as int])) by {
        assert(store::same_item(a[k], b[k]));
    }
}

/// The constraints used say no more than the run's assumptions.
proof fn lemma_run_hyp(
    a: Option<&Assumptions>,
    items: Seq<Constraint>,
    terms: Seq<Term>,
    k: int,
    env: Env,
)
    requires
        match a {
            Some(x) => store::same_items(items, x.items@) || items.len() == 0,
            None => items.len() == 0,
        },
        run_hyp(a, terms)(k, env),
    ensures
        store::hyp_of(items, terms)(k, env),
{
    if let Some(x) = a {
        if store::same_items(items, x.items@) {
            store::lemma_same_hyp(items, x.items@, terms);
            assert(store::constraint_holds(x.items@, terms, k, env));
        }
    }
}

/// What is kept stays right when nothing happens.
proof fn lemma_memo_stays(cx0: &Context, cx1: &Context)
    requires
        *cx0 == *cx1,
    ensures
        cx0.memo_ok() ==> cx1.memo_ok(),
{
}

impl Context {
    /// The final results of earlier runs, by phase.
    pub open(crate) spec fn kept_phases(&self) -> Seq<results::PhaseMemo> {
        self.memo.phases@
    }

    /// Every final result that is kept is one that its phase of the engine leaves.
    pub open(crate) spec fn rested_under(&self, engine: &Engine) -> bool {
        results::blank(self.memo.phases@) || (self.memo.phases@.len() == engine.inner.phases@.len()
            && rest::memo_rests(
            self.memo.phases@,
            engine.inner.phases@,
            engine.inner.rules@,
            self.nodes@,
            self.tm(),
        ))
    }

    /// No results of earlier runs are kept.
    pub open(crate) spec fn nothing_kept(&self) -> bool {
        results::blank(self.memo.phases@)
    }

    /// The assumptions speak of nodes of the context, at their widths.
    pub open(crate) spec fn speaks_of(&self, a: &Assumptions) -> bool {
        store::items_fit(a.items@, self.tm())
    }

    /// The results kept are those of runs of `engine` without hooks and assumptions, and in every
    /// phase the result of each of `roots` is the root itself.
    pub open(crate) spec fn settled_under(&self, engine: &Engine, roots: Seq<Expr>) -> bool {
        &&& self.memo.epoch == epoch_of(engine.inner.id, 0)
        &&& self.memo.assumptions.items@.len() == 0
        &&& self.memo.phases@.len() == engine.inner.phases@.len()
        &&& forall|i: int|
            0 <= i < roots.len() ==> results::settled(self.memo.phases@, (#[trigger] roots[i]).id)
    }

    /// The outcome `o` answers `root`, a node of the context before the call: it is the root
    /// left as it was (if an admission cap declined it, with the cap it exceeds), or another
    /// expression of its width that, where `on`, has its value at every assignment at which the
    /// constraints it relies on hold.
    pub open(crate) spec fn answered(
        &self,
        old: &Context,
        o: RootOutcome,
        root: Expr,
        a: Option<&Assumptions>,
        on: bool,
        admission: Admission,
    ) -> bool {
        answers(
            o,
            root.id as int,
            self.tm(),
            run_hyp(a, self.tm()),
            on,
            cap_of(old.tm(), old.nodes@, root.id as int, admission),
        )
    }
}

} // verus!
