//! Budgets, allowances, admission caps and deadlines.

use vstd::prelude::*;

verus! {

/// Caps on the work of one call, or what remains of an [`Allowance`]. Every field counts a unit
/// of the fixed charging schedule (see each field); `u64::MAX` is unlimited.
#[derive(Clone, Copy, Debug, PartialEq, Eq, Hash, Structural)]
pub struct Budget {
    /// Nodes visited by a phase (one per node per visit; a node answered from the memo is
    /// free), and nodes evaluated by sampled verification.
    pub node_visits: u64,
    /// Candidate rules tried (one per candidate after the dispatch prefilter).
    pub candidates: u64,
    /// Matcher steps (one per pattern/node pair).
    pub match_steps: u64,
    /// Rewrites committed.
    pub rewrites: u64,
    /// Nodes created.
    pub new_nodes: u64,
    /// Fact transfer functions run for guards and passes.
    pub fact_work: u64,
    /// Normal-form pass work (one per node a pass reads or emits).
    pub pass_work: u64,
    /// Calls to the MBA solver.
    pub mba_calls: u64,
    /// E-nodes inserted by the equality-saturation search.
    pub eqsat_nodes: u64,
    /// Equality-saturation work (matching, unions, repairs, extraction).
    pub eqsat_work: u64,
}

/// The smaller of two counts.
pub open spec fn min_u64(a: u64, b: u64) -> u64 {
    if a <= b {
        a
    } else {
        b
    }
}

/// The difference, not below zero.
pub open spec fn less(a: u64, b: u64) -> u64 {
    if a >= b {
        (a - b) as u64
    } else {
        0
    }
}

/// The sum, not above the largest count.
pub open spec fn more(a: u64, b: u64) -> u64 {
    if a + b <= u64::MAX {
        (a + b) as u64
    } else {
        u64::MAX
    }
}

impl Budget {
    /// Each limit less the other's, down to none.
    pub open spec fn minus(self, o: Budget) -> Budget {
        self.zipped(o, |x: u64, y: u64| less(x, y))
    }

    /// Each limit and the other's together, up to the largest there is.
    pub open spec fn plus(self, o: Budget) -> Budget {
        self.zipped(o, |x: u64, y: u64| more(x, y))
    }

    /// A budget whose fields are `f` of the fields of two.
    pub open spec fn zipped(self, o: Budget, f: spec_fn(u64, u64) -> u64) -> Budget {
        Budget {
            node_visits: f(self.node_visits, o.node_visits),
            candidates: f(self.candidates, o.candidates),
            match_steps: f(self.match_steps, o.match_steps),
            rewrites: f(self.rewrites, o.rewrites),
            new_nodes: f(self.new_nodes, o.new_nodes),
            fact_work: f(self.fact_work, o.fact_work),
            pass_work: f(self.pass_work, o.pass_work),
            mba_calls: f(self.mba_calls, o.mba_calls),
            eqsat_nodes: f(self.eqsat_nodes, o.eqsat_nodes),
            eqsat_work: f(self.eqsat_work, o.eqsat_work),
        }
    }

    /// Every field at most the other's.
    pub open spec fn within(self, o: Budget) -> bool {
        &&& self.node_visits <= o.node_visits
        &&& self.candidates <= o.candidates
        &&& self.match_steps <= o.match_steps
        &&& self.rewrites <= o.rewrites
        &&& self.new_nodes <= o.new_nodes
        &&& self.fact_work <= o.fact_work
        &&& self.pass_work <= o.pass_work
        &&& self.mba_calls <= o.mba_calls
        &&& self.eqsat_nodes <= o.eqsat_nodes
        &&& self.eqsat_work <= o.eqsat_work
    }

    /// Every field `n`.
    pub open spec fn all(n: u64) -> Budget {
        Budget {
            node_visits: n,
            candidates: n,
            match_steps: n,
            rewrites: n,
            new_nodes: n,
            fact_work: n,
            pass_work: n,
            mba_calls: n,
            eqsat_nodes: n,
            eqsat_work: n,
        }
    }

    /// No limits.
    pub fn unlimited() -> (r: Budget)
        ensures
            r == Budget::all(u64::MAX),
    {
        Budget {
            node_visits: u64::MAX,
            candidates: u64::MAX,
            match_steps: u64::MAX,
            rewrites: u64::MAX,
            new_nodes: u64::MAX,
            fact_work: u64::MAX,
            pass_work: u64::MAX,
            mba_calls: u64::MAX,
            eqsat_nodes: u64::MAX,
            eqsat_work: u64::MAX,
        }
    }

    /// Nothing spent.
    pub fn zero() -> (r: Budget)
        ensures
            r == Budget::all(0),
    {
        Budget {
            node_visits: 0,
            candidates: 0,
            match_steps: 0,
            rewrites: 0,
            new_nodes: 0,
            fact_work: 0,
            pass_work: 0,
            mba_calls: 0,
            eqsat_nodes: 0,
            eqsat_work: 0,
        }
    }

    /// Field-wise minimum.
    pub fn min(&self, o: &Budget) -> (r: Budget)
        ensures
            r == self.zipped(*o, |a: u64, b: u64| min_u64(a, b)),
            r.within(*self),
            r.within(*o),
    {
        self.zip(o, |a: u64, b: u64| -> (c: u64)
            ensures
                c == min_u64(a, b),
            {
                if a <= b {
                    a
                } else {
                    b
                }
            })
    }

    fn zip<F: Fn(u64, u64) -> u64>(&self, o: &Budget, f: F) -> (r: Budget)
        requires
            forall|a: u64, b: u64| #[trigger] f.requires((a, b)),
        ensures
            f.ensures((self.node_visits, o.node_visits), r.node_visits),
            f.ensures((self.candidates, o.candidates), r.candidates),
            f.ensures((self.match_steps, o.match_steps), r.match_steps),
            f.ensures((self.rewrites, o.rewrites), r.rewrites),
            f.ensures((self.new_nodes, o.new_nodes), r.new_nodes),
            f.ensures((self.fact_work, o.fact_work), r.fact_work),
            f.ensures((self.pass_work, o.pass_work), r.pass_work),
            f.ensures((self.mba_calls, o.mba_calls), r.mba_calls),
            f.ensures((self.eqsat_nodes, o.eqsat_nodes), r.eqsat_nodes),
            f.ensures((self.eqsat_work, o.eqsat_work), r.eqsat_work),
    {
        Budget {
            node_visits: f(self.node_visits, o.node_visits),
            candidates: f(self.candidates, o.candidates),
            match_steps: f(self.match_steps, o.match_steps),
            rewrites: f(self.rewrites, o.rewrites),
            new_nodes: f(self.new_nodes, o.new_nodes),
            fact_work: f(self.fact_work, o.fact_work),
            pass_work: f(self.pass_work, o.pass_work),
            mba_calls: f(self.mba_calls, o.mba_calls),
            eqsat_nodes: f(self.eqsat_nodes, o.eqsat_nodes),
            eqsat_work: f(self.eqsat_work, o.eqsat_work),
        }
    }

    /// Field-wise difference, not below zero.
    pub(crate) fn saturating_sub(&self, o: &Budget) -> (r: Budget)
        ensures
            r == self.zipped(*o, |a: u64, b: u64| less(a, b)),
    {
        self.zip(o, |a: u64, b: u64| -> (c: u64)
            ensures
                c == less(a, b),
            { a.saturating_sub(b) })
    }

    /// Field-wise sum, not above the largest count.
    pub(crate) fn saturating_add(&self, o: &Budget) -> (r: Budget)
        ensures
            r == self.zipped(*o, |a: u64, b: u64| more(a, b)),
    {
        self.zip(o, |a: u64, b: u64| -> (c: u64)
            ensures
                c == more(a, b),
            { a.saturating_add(b) })
    }

    /// Sets [`node_visits`](Self::node_visits).
    pub fn with_node_visits(self, node_visits: u64) -> (r: Budget)
        ensures
            r == (Budget { node_visits, ..self }),
    {
        Budget { node_visits, ..self }
    }

    /// Sets [`candidates`](Self::candidates).
    pub fn with_candidates(self, candidates: u64) -> (r: Budget)
        ensures
            r == (Budget { candidates, ..self }),
    {
        Budget { candidates, ..self }
    }

    /// Sets [`match_steps`](Self::match_steps).
    pub fn with_match_steps(self, match_steps: u64) -> (r: Budget)
        ensures
            r == (Budget { match_steps, ..self }),
    {
        Budget { match_steps, ..self }
    }

    /// Sets [`rewrites`](Self::rewrites).
    pub fn with_rewrites(self, rewrites: u64) -> (r: Budget)
        ensures
            r == (Budget { rewrites, ..self }),
    {
        Budget { rewrites, ..self }
    }

    /// Sets [`new_nodes`](Self::new_nodes).
    pub fn with_new_nodes(self, new_nodes: u64) -> (r: Budget)
        ensures
            r == (Budget { new_nodes, ..self }),
    {
        Budget { new_nodes, ..self }
    }

    /// Sets [`fact_work`](Self::fact_work).
    pub fn with_fact_work(self, fact_work: u64) -> (r: Budget)
        ensures
            r == (Budget { fact_work, ..self }),
    {
        Budget { fact_work, ..self }
    }

    /// Sets [`pass_work`](Self::pass_work).
    pub fn with_pass_work(self, pass_work: u64) -> (r: Budget)
        ensures
            r == (Budget { pass_work, ..self }),
    {
        Budget { pass_work, ..self }
    }

    /// Sets [`mba_calls`](Self::mba_calls).
    pub fn with_mba_calls(self, mba_calls: u64) -> (r: Budget)
        ensures
            r == (Budget { mba_calls, ..self }),
    {
        Budget { mba_calls, ..self }
    }

    /// Sets [`eqsat_nodes`](Self::eqsat_nodes).
    pub fn with_eqsat_nodes(self, eqsat_nodes: u64) -> (r: Budget)
        ensures
            r == (Budget { eqsat_nodes, ..self }),
    {
        Budget { eqsat_nodes, ..self }
    }

    /// Sets [`eqsat_work`](Self::eqsat_work).
    pub fn with_eqsat_work(self, eqsat_work: u64) -> (r: Budget)
        ensures
            r == (Budget { eqsat_work, ..self }),
    {
        Budget { eqsat_work, ..self }
    }
}

impl Default for Budget {
    /// Generous caps for one call: 2^22 visits, candidates, rewrites and new nodes, 2^26
    /// matcher steps, fact transfers and pass work, 4096 MBA solver calls.
    fn default() -> (r: Self)
        ensures
            r.node_visits == 0x40_0000,
            r.candidates == 0x40_0000,
            r.match_steps == 0x400_0000,
            r.rewrites == 0x40_0000,
            r.new_nodes == 0x40_0000,
            r.fact_work == 0x400_0000,
            r.pass_work == 0x400_0000,
            r.mba_calls == 0x1000,
            r.eqsat_nodes == 0x40_0000,
            r.eqsat_work == 0x400_0000,
    {
        Budget {
            node_visits: 0x40_0000,
            candidates: 0x40_0000,
            match_steps: 0x400_0000,
            rewrites: 0x40_0000,
            new_nodes: 0x40_0000,
            fact_work: 0x400_0000,
            pass_work: 0x400_0000,
            mba_calls: 0x1000,
            eqsat_nodes: 0x40_0000,
            eqsat_work: 0x400_0000,
        }
    }
}

/// Which limit stopped a run.
#[derive(Clone, Copy, Debug, PartialEq, Eq, Hash, Structural)]
pub enum Exhausted {
    /// [`Budget::node_visits`].
    NodeVisits,
    /// [`Budget::candidates`].
    Candidates,
    /// [`Budget::match_steps`].
    MatchSteps,
    /// [`Budget::rewrites`].
    Rewrites,
    /// [`Budget::new_nodes`].
    NewNodes,
    /// [`Budget::fact_work`].
    FactWork,
    /// [`Budget::pass_work`].
    PassWork,
    /// [`Budget::mba_calls`].
    MbaCalls,
    /// [`Budget::eqsat_nodes`].
    EqsatNodes,
    /// [`Budget::eqsat_work`].
    EqsatWork,
    /// The [`Deadline`] passed.
    Deadline,
    /// The context's node capacity.
    ArenaCapacity,
}

/// The words for a limit.
pub open spec fn exhausted_text(e: Exhausted) -> Seq<char> {
    match e {
        Exhausted::NodeVisits => "node visits"@,
        Exhausted::Candidates => "candidates"@,
        Exhausted::MatchSteps => "matcher steps"@,
        Exhausted::Rewrites => "rewrites"@,
        Exhausted::NewNodes => "new nodes"@,
        Exhausted::FactWork => "fact work"@,
        Exhausted::PassWork => "pass work"@,
        Exhausted::MbaCalls => "MBA solver calls"@,
        Exhausted::EqsatNodes => "e-nodes"@,
        Exhausted::EqsatWork => "equality-saturation work"@,
        Exhausted::Deadline => "deadline"@,
        Exhausted::ArenaCapacity => "arena capacity"@,
    }
}

impl Exhausted {
    /// The words for the limit.
    pub fn text(&self) -> (r: &'static str)
        ensures
            r@ == exhausted_text(*self),
    {
        match self {
            Exhausted::NodeVisits => "node visits",
            Exhausted::Candidates => "candidates",
            Exhausted::MatchSteps => "matcher steps",
            Exhausted::Rewrites => "rewrites",
            Exhausted::NewNodes => "new nodes",
            Exhausted::FactWork => "fact work",
            Exhausted::PassWork => "pass work",
            Exhausted::MbaCalls => "MBA solver calls",
            Exhausted::EqsatNodes => "e-nodes",
            Exhausted::EqsatWork => "equality-saturation work",
            Exhausted::Deadline => "deadline",
            Exhausted::ArenaCapacity => "arena capacity",
        }
    }
}

/// A spendable account shared by any number of calls (for example every block of one pass).
/// Spent work is never refunded.
#[derive(Clone, Copy, Debug, PartialEq, Eq, Structural)]
pub struct Allowance {
    remaining: Budget,
    spent: Budget,
}

impl Allowance {
    /// What is left.
    pub closed spec fn left(self) -> Budget {
        self.remaining
    }

    /// What has been spent.
    pub closed spec fn used(self) -> Budget {
        self.spent
    }

    /// An account holding `budget`.
    pub fn new(budget: Budget) -> (r: Self)
        ensures
            r.left() == budget,
            r.used() == Budget::all(0),
    {
        Allowance { remaining: budget, spent: Budget::zero() }
    }

    /// What is left.
    pub fn remaining(&self) -> (r: Budget)
        ensures
            r == self.left(),
    {
        self.remaining
    }

    /// What has been spent.
    pub fn spent(&self) -> (r: Budget)
        ensures
            r == self.used(),
    {
        self.spent
    }

    /// Takes `b` out of the account.
    pub(crate) fn spend(&mut self, b: &Budget)
        ensures
            final(self).left() == old(self).left().minus(*b),
            final(self).used() == old(self).used().plus(*b),
    {
        self.remaining = self.remaining.saturating_sub(b);
        self.spent = self.spent.saturating_add(b);
    }
}

/// Spending never gives anything back: what is left only falls, what has been spent only grows.
pub proof fn law_spent_work_is_never_refunded(before: Allowance, after: Allowance, b: Budget)
    requires
        after.left() == before.left().zipped(b, |x: u64, y: u64| less(x, y)),
        after.used() == before.used().zipped(b, |x: u64, y: u64| more(x, y)),
    ensures
        after.left().within(before.left()),
        before.used().within(after.used()),
{
}

/// Per-root caps checked before any work, from O(1) node metadata (and, if set, a bounded DAG
/// size). A root over a cap is declined unchanged.
#[derive(Clone, Copy, Debug, PartialEq, Eq, Hash, Structural)]
pub struct Admission {
    /// Maximum height of a root.
    pub max_root_height: u32,
    /// Maximum size of a root unfolded as a tree (saturating).
    pub max_root_tree_size: u32,
    /// Maximum number of distinct nodes under a root, if checked (a walk of up to that many
    /// nodes, not charged to the budget).
    pub max_root_dag_size: Option<u32>,
}

impl Default for Admission {
    /// No caps.
    fn default() -> (r: Self)
        ensures
            r.max_root_height == u32::MAX,
            r.max_root_tree_size == u32::MAX,
            r.max_root_dag_size is None,
    {
        Admission {
            max_root_height: u32::MAX,
            max_root_tree_size: u32::MAX,
            max_root_dag_size: None,
        }
    }
}

/// Which admission cap declined a root.
#[derive(Clone, Copy, Debug, PartialEq, Eq, Hash, Structural)]
pub enum Cap {
    /// [`Admission::max_root_height`].
    Height,
    /// [`Admission::max_root_tree_size`].
    TreeSize,
    /// [`Admission::max_root_dag_size`].
    DagSize,
}

/// A monotone tick source supplied by the host (the library never reads a clock itself).
pub trait Clock {
    /// What the clock may show when it is read.
    open spec fn shows(&self, t: u64) -> bool {
        true
    }

    /// The current time, in any unit.
    fn now_ticks(&self) -> (t: u64)
        ensures
            self.shows(t),
    ;
}

/// Stop once `clock` reaches `at`, checking every `check_every` node visits. Deadlines make
/// results depend on timing; budgets are the deterministic alternative.
#[derive(Clone, Copy)]
pub struct Deadline<'a> {
    /// The clock.
    pub clock: &'a dyn Clock,
    /// The tick at which to stop.
    pub at: u64,
    /// Visits between clock reads (at least 1).
    pub check_every: u32,
}

impl<'a> Deadline<'a> {
    /// The clock shows no time at which to stop.
    #[verifier::opaque]
    pub open spec fn ahead(self) -> bool {
        forall|t: u64| #[trigger] self.clock.shows(t) ==> t < self.at
    }

    /// The clock shows only times at which to stop.
    #[verifier::opaque]
    pub open spec fn passed(self) -> bool {
        forall|t: u64| #[trigger] self.clock.shows(t) ==> t >= self.at
    }

    /// Stop once `clock` reaches `at`, reading it every 64 charges.
    pub fn new(clock: &'a dyn Clock, at: u64) -> (r: Self)
        ensures
            r == (Deadline { clock, at, check_every: 64 }),
    {
        Deadline { clock, at, check_every: 64 }
    }

    /// Sets [`check_every`](Self::check_every).
    pub fn with_check_every(self, check_every: u32) -> (r: Self)
        ensures
            r == (Deadline { check_every, ..self }),
    {
        Deadline { check_every, ..self }
    }
}

/// There is no deadline, or one that the clock never shows to have passed.
#[verifier::opaque]
pub open spec fn unhurried(d: Option<Deadline<'_>>) -> bool {
    d matches Some(d) ==> d.ahead()
}

/// What a reading of a deadline's clock decides: the call stops once the time has come.
pub fn after_reading(now: u64, at: u64) -> (r: Result<(), Exhausted>)
    ensures
        r is Err <==> now >= at,
        r matches Err(e) ==> e == Exhausted::Deadline,
{
    if now >= at {
        Err(Exhausted::Deadline)
    } else {
        Ok(())
    }
}

/// A field of [`Budget`] charged before its work, for [`Meter::charge`]. (Matcher steps, fact
/// work and new nodes are capped beforehand and recorded when done; see [`Meter`].)
#[derive(Clone, Copy, Debug, PartialEq, Eq, Structural)]
pub enum Counter {
    /// [`Budget::node_visits`].
    NodeVisits,
    /// [`Budget::candidates`].
    Candidates,
    /// [`Budget::rewrites`].
    Rewrites,
    /// [`Budget::pass_work`].
    PassWork,
    /// [`Budget::mba_calls`].
    MbaCalls,
    /// [`Budget::eqsat_nodes`].
    EqsatNodes,
    /// [`Budget::eqsat_work`].
    EqsatWork,
}

impl Counter {
    /// The counter's field.
    pub open spec fn get(self, b: Budget) -> u64 {
        match self {
            Counter::NodeVisits => b.node_visits,
            Counter::Candidates => b.candidates,
            Counter::Rewrites => b.rewrites,
            Counter::PassWork => b.pass_work,
            Counter::MbaCalls => b.mba_calls,
            Counter::EqsatNodes => b.eqsat_nodes,
            Counter::EqsatWork => b.eqsat_work,
        }
    }

    /// The budget with the counter's field set.
    pub open spec fn put(self, b: Budget, v: u64) -> Budget {
        match self {
            Counter::NodeVisits => Budget { node_visits: v, ..b },
            Counter::Candidates => Budget { candidates: v, ..b },
            Counter::Rewrites => Budget { rewrites: v, ..b },
            Counter::PassWork => Budget { pass_work: v, ..b },
            Counter::MbaCalls => Budget { mba_calls: v, ..b },
            Counter::EqsatNodes => Budget { eqsat_nodes: v, ..b },
            Counter::EqsatWork => Budget { eqsat_work: v, ..b },
        }
    }

    /// The limit it is.
    pub open spec fn limit(self) -> Exhausted {
        match self {
            Counter::NodeVisits => Exhausted::NodeVisits,
            Counter::Candidates => Exhausted::Candidates,
            Counter::Rewrites => Exhausted::Rewrites,
            Counter::PassWork => Exhausted::PassWork,
            Counter::MbaCalls => Exhausted::MbaCalls,
            Counter::EqsatNodes => Exhausted::EqsatNodes,
            Counter::EqsatWork => Exhausted::EqsatWork,
        }
    }

    /// The counter's field.
    fn of(self, b: &Budget) -> (r: u64)
        ensures
            r == self.get(*b),
    {
        match self {
            Counter::NodeVisits => b.node_visits,
            Counter::Candidates => b.candidates,
            Counter::Rewrites => b.rewrites,
            Counter::PassWork => b.pass_work,
            Counter::MbaCalls => b.mba_calls,
            Counter::EqsatNodes => b.eqsat_nodes,
            Counter::EqsatWork => b.eqsat_work,
        }
    }

    /// The counter's field, to change.
    fn slot(self, b: &mut Budget) -> (r: &mut u64)
        ensures
            *r == self.get(*old(b)),
            *final(b) == self.put(*old(b), *final(r)),
    {
        match self {
            Counter::NodeVisits => &mut b.node_visits,
            Counter::Candidates => &mut b.candidates,
            Counter::Rewrites => &mut b.rewrites,
            Counter::PassWork => &mut b.pass_work,
            Counter::MbaCalls => &mut b.mba_calls,
            Counter::EqsatNodes => &mut b.eqsat_nodes,
            Counter::EqsatWork => &mut b.eqsat_work,
        }
    }

    /// The limit it is.
    fn exhausted(self) -> (r: Exhausted)
        ensures
            r == self.limit(),
    {
        match self {
            Counter::NodeVisits => Exhausted::NodeVisits,
            Counter::Candidates => Exhausted::Candidates,
            Counter::Rewrites => Exhausted::Rewrites,
            Counter::PassWork => Exhausted::PassWork,
            Counter::MbaCalls => Exhausted::MbaCalls,
            Counter::EqsatNodes => Exhausted::EqsatNodes,
            Counter::EqsatWork => Exhausted::EqsatWork,
        }
    }
}

/// The first limit, in a fixed order, that is exceeded.
pub open spec fn over_limit(s: Budget, l: Budget) -> Option<Exhausted> {
    if s.node_visits > l.node_visits {
        Some(Exhausted::NodeVisits)
    } else if s.candidates > l.candidates {
        Some(Exhausted::Candidates)
    } else if s.match_steps > l.match_steps {
        Some(Exhausted::MatchSteps)
    } else if s.rewrites > l.rewrites {
        Some(Exhausted::Rewrites)
    } else if s.new_nodes > l.new_nodes {
        Some(Exhausted::NewNodes)
    } else if s.fact_work > l.fact_work {
        Some(Exhausted::FactWork)
    } else if s.pass_work > l.pass_work {
        Some(Exhausted::PassWork)
    } else if s.mba_calls > l.mba_calls {
        Some(Exhausted::MbaCalls)
    } else if s.eqsat_nodes > l.eqsat_nodes {
        Some(Exhausted::EqsatNodes)
    } else if s.eqsat_work > l.eqsat_work {
        Some(Exhausted::EqsatWork)
    } else {
        None
    }
}

/// Charges work against the effective limits of one call.
///
/// Work about to be done is charged with [`charge`](Meter::charge), which refuses it (charging
/// nothing) when the limit cannot cover it, and a call against an exhausted allowance does no
/// such work at all. Work whose amount is known only afterwards is bounded beforehand and
/// recorded when done: a fact query runs under a cap of what remains of `fact_work` (a rule
/// application's queries share one), the matcher under what remains of `match_steps`, and
/// building under an arena allowance of what remains of `new_nodes`. So a call never spends past
/// its limit. Every charge also counts toward the deadline's clock reads.
pub struct Meter<'a> {
    /// The limits.
    pub limit: Budget,
    /// What has been spent.
    pub spent: Budget,
    /// When to stop.
    pub deadline: Option<Deadline<'a>>,
    /// Charges until the clock is read again.
    pub until_check: u32,
    /// Latched once the deadline has passed: every later visit fails at once.
    pub expired: bool,
}

impl<'a> Meter<'a> {
    /// The first limit, in a fixed order, that is exceeded.
    pub open spec fn first_over(&self) -> Option<Exhausted> {
        over_limit(self.spent, self.limit)
    }

    /// The clock is read at the next charge.
    pub open spec fn due(&self) -> bool {
        !self.expired && self.deadline is Some && self.until_check == 0
    }

    /// A reading of the clock decided whether the deadline has passed: it has exactly if the time
    /// shown is not before it.
    pub open spec fn heeded(&self, o: &Meter<'a>) -> bool {
        o.deadline matches Some(d) ==> exists|t: u64| #[trigger]
            d.clock.shows(t) && (self.expired <==> t >= d.at)
    }

    /// No deadline can stop the call.
    pub open spec fn timeless(&self) -> bool {
        unhurried(self.deadline)
    }

    /// The deadline has passed: the first charge finds it, or one has.
    #[verifier::opaque]
    pub open spec fn late(&self) -> bool {
        &&& self.deadline matches Some(d) && (self.expired || (self.until_check == 0 && d.passed()))
        &&& self.spent.node_visits < u64::MAX
    }

    /// Why no visit can be charged from here on, if that is known.
    #[verifier::opaque]
    pub open spec fn stuck(&self) -> Option<Exhausted> {
        if self.late() {
            Some(Exhausted::Deadline)
        } else if self.dry() {
            Some(Exhausted::NodeVisits)
        } else {
            None
        }
    }

    /// One charge nearer to the next reading of the clock, or the clock was read: it is read
    /// exactly when the count has run out, and then counts anew.
    #[verifier::opaque]
    pub open spec fn counted_down(&self, o: &Meter<'a>) -> bool {
        &&& o.due() ==> self.heeded(o)
        &&& !o.due() ==> self.expired == o.expired
        &&& o.timeless() && !o.expired ==> !self.expired
        &&& o.late() ==> self.expired
        &&& o.expired || o.deadline is None ==> self.until_check == o.until_check
        &&& o.deadline matches Some(d) ==> !self.expired ==> self.until_check + 1 == (
        if o.until_check != 0 {
            o.until_check
        } else if d.check_every >= 1 {
            d.check_every
        } else {
            1
        })
    }

    /// No visit can be charged any more, and no deadline is set.
    pub open spec fn dry(&self) -> bool {
        &&& self.deadline is None
        &&& !self.expired
        &&& self.limit.node_visits <= self.spent.node_visits
    }

    /// What [`check`](Self::check) says.
    pub open spec fn checked(&self) -> Result<(), Exhausted> {
        if self.expired {
            Err(Exhausted::Deadline)
        } else {
            match self.first_over() {
                Some(e) => Err(e),
                None => Ok(()),
            }
        }
    }

    /// The limits and the deadline are as they were.
    pub open spec fn same_limits(&self, o: &Meter<'a>) -> bool {
        self.limit == o.limit && self.deadline == o.deadline
    }

    /// Nothing spent yet.
    pub fn new(limit: Budget, deadline: Option<Deadline<'a>>) -> (r: Self)
        ensures
            r.limit == limit,
            r.spent == Budget::all(0),
            r.deadline == deadline,
            r.until_check == 0,
            !r.expired,
            r.checked() is Ok,
    {
        Meter { limit, spent: Budget::zero(), deadline, until_check: 0, expired: false }
    }

    fn over(&self) -> (r: Option<Exhausted>)
        ensures
            r == self.first_over(),
    {
        let s = &self.spent;
        let l = &self.limit;
        if s.node_visits > l.node_visits {
            Some(Exhausted::NodeVisits)
        } else if s.candidates > l.candidates {
            Some(Exhausted::Candidates)
        } else if s.match_steps > l.match_steps {
            Some(Exhausted::MatchSteps)
        } else if s.rewrites > l.rewrites {
            Some(Exhausted::Rewrites)
        } else if s.new_nodes > l.new_nodes {
            Some(Exhausted::NewNodes)
        } else if s.fact_work > l.fact_work {
            Some(Exhausted::FactWork)
        } else if s.pass_work > l.pass_work {
            Some(Exhausted::PassWork)
        } else if s.mba_calls > l.mba_calls {
            Some(Exhausted::MbaCalls)
        } else if s.eqsat_nodes > l.eqsat_nodes {
            Some(Exhausted::EqsatNodes)
        } else if s.eqsat_work > l.eqsat_work {
            Some(Exhausted::EqsatWork)
        } else {
            None
        }
    }

    /// Reads the deadline's clock when due; latched once it has passed.
    fn tick(&mut self) -> (r: Result<(), Exhausted>)
        ensures
            final(self).same_limits(old(self)),
            final(self).spent == old(self).spent,
            r matches Err(e) ==> e == Exhausted::Deadline && final(self).expired,
            r is Ok ==> !old(self).expired && !final(self).expired,
            old(self).expired ==> r is Err && final(self).until_check == old(self).until_check,
            old(self).deadline is None && !old(self).expired ==> r is Ok
                && final(self).until_check == old(self).until_check,
            // The clock is read exactly when the count has run out.
            old(self).until_check != 0 && !old(self).expired ==> r is Ok,
            // What it shows decides.
            r is Err <==> final(self).expired,
            old(self).due() ==> final(self).heeded(old(self)),
            !old(self).due() ==> final(self).expired == old(self).expired,
            old(self).timeless() && !old(self).expired ==> !final(self).expired,
            old(self).late() ==> final(self).expired,
            old(self).deadline matches Some(d) ==> r is Ok ==> final(self).until_check + 1 == (
            if old(self).until_check != 0 {
                old(self).until_check
            } else if d.check_every >= 1 {
                d.check_every
            } else {
                1
            }),
    {
        proof {
            if let Some(d) = self.deadline {
                reveal(Deadline::ahead);
                reveal(Deadline::passed);
            }
            reveal(unhurried);
            reveal(Meter::late);
        }
        if self.expired {
            return Err(Exhausted::Deadline);
        }
        if let Some(d) = self.deadline {
            if self.until_check == 0 {
                self.until_check = if d.check_every >= 1 {
                    d.check_every
                } else {
                    1
                };
                let now = d.clock.now_ticks();
                assert(d.clock.shows(now));
                if let Err(e) = after_reading(now, d.at) {
                    self.expired = true;
                    return Err(e);
                }
            }
            self.until_check = self.until_check - 1;
        }
        Ok(())
    }

    /// Reads the deadline's clock now (not when due); latched once it has passed.
    pub fn deadline_now(&mut self) -> (r: Result<(), Exhausted>)
        ensures
            final(self).same_limits(old(self)),
            final(self).spent == old(self).spent,
            final(self).until_check == old(self).until_check,
            final(self).expired == (r is Err),
            r matches Err(e) ==> e == Exhausted::Deadline,
            old(self).expired ==> r is Err,
            old(self).deadline is None && !old(self).expired ==> r is Ok,
            !old(self).expired && old(self).deadline is Some ==> final(self).heeded(old(self)),
            old(self).timeless() && !old(self).expired ==> r is Ok,
            old(self).late() ==> r is Err,
    {
        proof {
            if let Some(d) = self.deadline {
                reveal(Deadline::ahead);
                reveal(Deadline::passed);
            }
            reveal(unhurried);
            reveal(Meter::late);
        }
        if self.expired {
            return Err(Exhausted::Deadline);
        }
        if let Some(d) = self.deadline {
            let now = d.clock.now_ticks();
            assert(d.clock.shows(now));
            if let Err(e) = after_reading(now, d.at) {
                self.expired = true;
                return Err(e);
            }
        }
        Ok(())
    }

    /// Charges `n` units of `c` for work about to be done, or refuses (charging nothing) when
    /// the limit cannot cover them. Reads the deadline when due.
    pub fn charge(&mut self, c: Counter, n: u64) -> (r: Result<(), Exhausted>)
        ensures
            final(self).same_limits(old(self)),
            r is Ok ==> final(self).spent == c.put(
                old(self).spent,
                more(c.get(old(self).spent), n),
            ) && final(self).checked() is Ok && !old(self).expired,
            r is Err ==> final(self).spent == old(self).spent,
            r == Err::<(), Exhausted>(Exhausted::Deadline) <==> final(self).expired,
            // When the deadline does not stop it, the limits alone decide.
            !final(self).expired ==> r == (match old(self).first_over() {
                Some(e) => Err(e),
                None => if more(c.get(old(self).spent), n) > c.get(old(self).limit) {
                    Err(c.limit())
                } else {
                    Ok(())
                },
            }),
            old(self).expired ==> final(self).expired,
            old(self).until_check != 0 && !old(self).expired ==> !final(self).expired,
            old(self).deadline is None && !old(self).expired ==> !final(self).expired,
            final(self).counted_down(old(self)),
    {
        proof {
            reveal(Meter::counted_down);
        }
        self.tick()?;
        // A counter recorded after the fact may already be over: then nothing is charged.
        self.check()?;
        let lim = c.of(&self.limit);
        let spent = c.of(&self.spent);
        let after = spent.saturating_add(n);
        if after > lim {
            return Err(c.exhausted());
        }
        let slot = c.slot(&mut self.spent);
        *slot = after;
        self.check()
    }

    /// Charges one node visit.
    pub fn visit(&mut self) -> (r: Result<(), Exhausted>)
        ensures
            final(self).same_limits(old(self)),
            r is Ok ==> final(self).spent == (Budget {
                node_visits: more(old(self).spent.node_visits, 1),
                ..old(self).spent
            }) && final(self).checked() is Ok,
            r is Err ==> final(self).spent == old(self).spent,
            !final(self).expired ==> r == (match old(self).first_over() {
                Some(e) => Err(e),
                None => if more(old(self).spent.node_visits, 1) > old(self).limit.node_visits {
                    Err(Exhausted::NodeVisits)
                } else {
                    Ok(())
                },
            }),
            r == Err::<(), Exhausted>(Exhausted::Deadline) <==> final(self).expired,
            old(self).expired ==> final(self).expired,
            final(self).counted_down(old(self)),
    {
        self.charge(Counter::NodeVisits, 1)
    }

    /// Whether every limit still holds (and the deadline has not been seen to pass).
    pub fn check(&self) -> (r: Result<(), Exhausted>)
        ensures
            r == self.checked(),
    {
        if self.expired {
            return Err(Exhausted::Deadline);
        }
        match self.over() {
            Some(e) => Err(e),
            None => Ok(()),
        }
    }

    /// What is left of the limits.
    pub fn left(&self) -> (r: Budget)
        ensures
            r == self.limit.zipped(self.spent, |a: u64, b: u64| less(a, b)),
    {
        self.limit.saturating_sub(&self.spent)
    }
}

/// A call never spends past its limit: a charge that goes through leaves what was spent within
/// the limits.
pub proof fn law_never_past_the_limit(s: Budget, l: Budget)
    requires
        over_limit(s, l) is None,
    ensures
        s.within(l),
{
}

/// Once a deadline has been seen to pass, everything the meter is asked is refused.
pub proof fn law_an_expired_meter_refuses(m: Meter<'_>)
    requires
        m.expired,
    ensures
        m.checked() == Err::<(), Exhausted>(Exhausted::Deadline),
{
}

/// A deadline is kept, whatever the number of charges between two readings: a charge that reads the
/// clock and goes on was shown a time before the deadline, and one that is stopped was shown the
/// deadline or a later time. Between readings nothing is stopped, and nothing goes on once stopped.
pub proof fn law_a_deadline_is_kept(before: Meter<'_>, after: Meter<'_>)
    requires
        after.counted_down(&before),
    ensures
        before.deadline matches Some(d) ==> before.due() && !after.expired ==> exists|t: u64|
            #[trigger]
            d.clock.shows(t) && t < d.at,
        before.deadline matches Some(d) ==> before.due() && after.expired ==> exists|t: u64|
            #[trigger]
            d.clock.shows(t) && t >= d.at,
        !before.due() ==> after.expired == before.expired,
{
    reveal(Meter::counted_down);
}

/// Where a clock shows only times past the deadline, no charge goes through; where it shows only
/// times before it, the deadline stops nothing.
pub proof fn law_only_the_clock_decides(before: Meter<'_>, after: Meter<'_>)
    requires
        after.counted_down(&before),
        !before.expired,
    ensures
        before.deadline matches Some(d) ==> before.until_check == 0 && before.spent.node_visits
            < u64::MAX && (forall|t: u64| #[trigger] d.clock.shows(t) ==> t >= d.at)
            ==> after.expired,
        before.deadline matches Some(d) ==> (forall|t: u64| #[trigger]
            d.clock.shows(t) ==> t < d.at) ==> !after.expired,
        before.deadline is None ==> !after.expired,
{
    if let Some(d) = before.deadline {
        reveal(Deadline::ahead);
        reveal(Deadline::passed);
    }
    reveal(unhurried);
    reveal(Meter::late);
    reveal(Meter::counted_down);
}

} // verus!
