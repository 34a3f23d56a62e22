//! The state of one call: what it spends, what it knows, and how it makes nodes.

use vstd::prelude::*;
use crate::eval;
use std::collections::HashMap;
use crate::term;
use crate::facts::floor;
use crate::facts::store;
use crate::engine::budget;
use crate::ops;
use crate::bitvec::{BitVec, MAX_WIDTH};
use crate::engine::budget::{Counter, Exhausted, Meter};
use crate::engine::fin::{Fin, Stop};
use crate::engine::pass::linear;
use crate::engine::pass::xor;
use crate::engine::pass::bitwise;
use crate::engine::pass::bitwise::Info;
use crate::engine::pass::compares;
use crate::engine::pass::residue;
use crate::engine::pass::residue::Residues;
use crate::engine::pass::shuffle;
use crate::engine::pass::shuffle::Prov;
use crate::engine::pass::tables::MinForms;
use crate::engine::pass::forms::FormCache;
use crate::engine::pass::scratch::{Counts, Live, Marks, MaxQueue};
use crate::rules::matcher::MATCH_STEPS;
use crate::engine::stats::{bump, By, Event, Hooks, Observer, PassKind, Stats};
use crate::engine::strategy::{Sharing, Verify};
use crate::expr::{Context, Expr, Fail};
use crate::facts::known::KnownBits;
use crate::facts::reliance::Hyp;
use crate::facts::store::{Constraint, FactStore};
use crate::ops::{BinOp, CmpOp, UnOp};
use crate::term::{Env, Term};

verus! {

broadcast use crate::term::lemma_value_len;

/// No pass charges more than this at once for what it does at one node, but for reading the nodes
/// of the arena.
pub const PASS_STEP: u64 = 0x10_0000;

/// The most transfer functions one fact query runs.
pub const QUERY_WORK: u64 = 100_000;

/// The commit rule's scratch.
pub struct Scratch {
    /// The region of the node being replaced.
    pub region: Marks,
    /// Nodes a candidate needs, visited.
    pub seen: Marks,
    /// Region nodes the candidate reuses.
    pub kept: Marks,
    /// Uses from nodes that stop being used.
    pub dying: Counts,
    /// Uses from inside the region.
    pub local: Counts,
    /// The atoms of the region.
    pub atoms: Marks,
    /// Region nodes nothing live uses.
    pub zeros: Vec<u32>,
    /// Nodes that may stop being used.
    pub heap: MaxQueue,
}

impl Scratch {
    /// Its parts are consistent.
    pub open spec fn wf(self) -> bool {
        &&& self.region.wf()
        &&& self.seen.wf()
        &&& self.kept.wf()
        &&& self.dying.wf()
        &&& self.local.wf()
        &&& self.atoms.wf()
        &&& self.heap.wf()
    }

    /// Empty.
    pub(crate) fn new() -> (r: Scratch)
        ensures
            r.wf(),
    {
        Scratch {
            region: Marks::new(),
            seen: Marks::new(),
            kept: Marks::new(),
            dying: Counts::new(),
            local: Counts::new(),
            atoms: Marks::new(),
            zeros: Vec::new(),
            heap: MaxQueue::new(),
        }
    }
}

/// The constraints speak of nodes that are there, at their widths, and the hypotheses are
/// exactly the constraints.
#[verifier::opaque]
pub open spec fn items_ok(items: Seq<Constraint>, terms: Seq<Term>, h: Hyp) -> bool {
    &&& store::items_fit(items, terms)
    &&& forall|k: int, env: Env|
        #![trigger h(k, env)]
        #![trigger store::constraint_holds(items, terms, k, env)]
        h(k, env) <==> store::constraint_holds(items, terms, k, env)
}

/// Constraints keep their meaning as the arena grows.
pub proof fn lemma_items_grow(
    items: Seq<Constraint>,
    terms: Seq<Term>,
    more: Seq<Term>,
    h: Hyp,
)
    requires
        items_ok(items, terms, h),
        terms.len() <= more.len(),
        forall|i: int| 0 <= i < terms.len() ==> #[trigger] more[i] == terms[i],
    ensures
        items_ok(items, more, h),
{
    reveal(items_ok);
    assert forall|k: int, env: Env|
        #![trigger h(k, env)]
        #![trigger store::constraint_holds(items, more, k, env)]
        h(k, env) <==> store::constraint_holds(items, more, k, env) by {
        assert(h(k, env) <==> store::constraint_holds(items, terms, k, env));
        if 0 <= k < items.len() {
            let _ = items[k];
            assert(more[items[k].expr as int] == terms[items[k].expr as int]);
        }
    }
    assert forall|k: int| #![trigger items[k]] 0 <= k < items.len() implies items[k].expr
        < more.len() && items[k].known.has(term::twidth(more[items[k].expr as int])) by {
        assert(more[items[k].expr as int] == terms[items[k].expr as int]);
    }
}

/// No constraint says anything.
pub open spec fn nothing() -> Hyp {
    |k: int, env: Env| true
}

/// How many points are sampled: at least 16.
pub open spec fn points_of(v: Verify) -> nat {
    let a = if v.sampled_points >= v.unproven_points {
        v.sampled_points
    } else {
        v.unproven_points
    };
    if a >= 16 {
        a as nat
    } else {
        16
    }
}

/// The values sampled are those of the nodes at the points.
#[verifier::opaque]
pub open spec fn samples_ok(
    samples: Map<u32, Vec<BitVec>>,
    points: nat,
    terms: Seq<Term>,
) -> bool {
    forall|i: u32| #[trigger]
        samples.contains_key(i) ==> i < terms.len() && samples[i]@.len() == points && forall|
            k: int,
        |
            0 <= k < points ==> (#[trigger] samples[i]@[k])@ == term::value(
                terms[i as int],
                eval::point_env(k as u64),
            )
}

/// Values sampled stay right as the arena grows.
pub proof fn lemma_samples_grow(
    samples: Map<u32, Vec<BitVec>>,
    points: nat,
    terms: Seq<Term>,
    more: Seq<Term>,
)
    requires
        samples_ok(samples, points, terms),
        terms.len() <= more.len(),
        forall|i: int| 0 <= i < terms.len() ==> #[trigger] more[i] == terms[i],
    ensures
        samples_ok(samples, points, more),
{
    reveal(samples_ok);
    assert forall|i: u32| #[trigger] samples.contains_key(i) implies i < more.len()
        && samples[i]@.len() == points && forall|k: int|
        0 <= k < points ==> (#[trigger] samples[i]@[k])@ == term::value(
            more[i as int],
            eval::point_env(k as u64),
        ) by {
        assert(more[i as int] == terms[i as int]);
    }
}

/// Every listed node is there.
pub open spec fn listed(v: Seq<u32>, n: int) -> bool {
    forall|k: int| 0 <= k < v.len() ==> #[trigger] v[k] < n
}

/// Whether `x` is in `v`.
pub(crate) fn lists(v: &Vec<u32>, x: u32) -> (r: bool)
    ensures
        r == v@.contains(x),
{
    let mut i: usize = 0;
    while i < v.len()
        invariant
            i <= v.len(),
            forall|j: int| 0 <= j < i ==> v@[j] != x,
        decreases v.len() - i,
    {
        if v[i] == x {
            return true;
        }
        i = i + 1;
    }
    false
}

/// The state of one call.
pub struct Runner<'a> {
    /// What it spends.
    pub meter: Meter<'a>,
    /// What it counts.
    pub stats: Stats,
    /// Who is told.
    pub observer: Option<&'a mut dyn Observer>,
    /// The host's policy.
    pub hooks: Option<&'a dyn Hooks>,
    /// The constraints assumed.
    pub items: Vec<Constraint>,
    /// How applications are checked.
    pub verify: Verify,
    /// How the passes weigh sharing.
    pub sharing: Sharing,
    /// The most nodes the commit rule examines.
    pub max_region: u32,
    /// The facts of nodes under the constraints.
    pub facts: FactStore,
    /// The facts of nodes under no constraints, for the tripwire.
    pub plain: FactStore,
    /// Sampled verification: the values of every node evaluated so far at each point.
    pub samples: HashMap<u32, Vec<BitVec>>,
    /// The linear pass's forms, per node.
    pub lins: FormCache,
    /// The xor pass's forms, per node.
    pub xors: FormCache,
    /// The bitwise pass's descriptions, per node.
    pub infos: HashMap<u32, Info>,
    /// The shuffle pass's traced bits, per node.
    pub traces: HashMap<u32, Option<Vec<Prov>>>,
    /// The compares pass's descriptions, per node.
    pub compares: HashMap<u32, crate::engine::pass::compares::Info>,
    /// Tables of low bits, per node and number of bits.
    pub residues: HashMap<u64, Option<Residues>>,
    /// The bitwise pass's minimum forms.
    pub forms: &'a MinForms,
    /// Rules quarantined for the call, by index (sized on the first quarantine).
    pub quarantined: Vec<bool>,
    /// Passes quarantined for the call after a postcondition failure.
    pub quarantined_passes: Vec<PassKind>,
    /// Host rewrites quarantined for the call, by index.
    pub quarantined_hosts: Vec<u32>,
    /// The passes' commit rule's scratch.
    pub scratch: Scratch,
    /// Use counts (parent edges of live nodes) for the passes' commit rule, and the nodes whose
    /// edges they count, per phase run, computed on first need (`uses_on`).
    pub live: Live,
    /// Whether they have been computed.
    pub uses_on: bool,
    /// Arena nodes whose edges `live` already counts.
    pub uses_upto: u32,
    /// The arena length when the current phase run began.
    pub phase_start: u32,
    /// Nodes replaced (or built and discarded) in the current phase run: not parents.
    pub dead: Marks,
    /// The nodes `dead` took in the current phase run, in order.
    pub dead_log: Vec<u32>,
    /// The current version of every distinct root of the call (for use counts).
    pub live_roots: Vec<u32>,
    /// Which entry of `live_roots` is being processed.
    pub active: usize,
    /// The rewrites passes made in this call, from and to: in a pass's phase a node is not
    /// rebuilt, over its operands' results, into one a pass rewrote it from.
    pub rewritten: HashMap<u64, bool>,
    /// What the constraints say.
    pub hyp: Ghost<Hyp>,
}

/// A step was taken: the state is consistent with the grown arena, every node made was charged,
/// and no root was counted.
pub open(crate) spec fn went<'a>(
    r1: &Runner<'a>,
    cx1: &Context,
    r0: &Runner<'a>,
    cx0: &Context,
) -> bool {
    moved(r1, cx1, r0, cx0) && same_tallies(r1.stats, r0.stats)
}

/// No root was counted in between.
pub open spec fn same_tallies(a: Stats, b: Stats) -> bool {
    &&& a.completed == b.completed
    &&& a.budget_terminated == b.budget_terminated
    &&& a.declined == b.declined
}

/// Some rule is quarantined.
pub open spec fn flagged(q: Seq<bool>) -> bool {
    exists|i: int| 0 <= i < q.len() && #[trigger] q[i]
}

/// A host policy is set, and refuses every rewrite.
#[verifier::opaque]
pub open spec fn refuses_every(hooks: Option<&dyn Hooks>) -> bool {
    hooks matches Some(h) && forall|cx: Context, a: Expr, b: Expr, by: By<'_>|
        !#[trigger] h.allows(&cx, a, b, by)
}

/// What stopped the making of a node: no room for it, or the deadline.
pub open spec fn no_room(s: Stop) -> bool {
    match s {
        Stop::Exhausted(e) => e == Exhausted::NewNodes || e == Exhausted::ArenaCapacity || e
            == Exhausted::Deadline,
    }
}

/// Steps were taken and roots may have been counted: the state is consistent with the grown arena, and every node made was
/// charged.
pub open(crate) spec fn moved<'a>(
    r1: &Runner<'a>,
    cx1: &Context,
    r0: &Runner<'a>,
    cx0: &Context,
) -> bool {
    &&& r1.wf(cx1)
    &&& r1.held(r0)
    &&& cx1.grew(cx0)
    &&& cx1.n() - cx0.n() == r1.meter.spent.new_nodes - r0.meter.spent.new_nodes
}

impl<'a> Runner<'a> {
    /// The state is consistent with the arena.
    pub open(crate) spec fn wf(&self, cx: &Context) -> bool {
        &&& cx.wf()
        &&& self.meter.spent.within(self.meter.limit)
        &&& self.facts.work + self.plain.work <= self.meter.spent.fact_work
        &&& items_ok(self.items@, cx.tm(), self.hyp@)
        &&& store::facts_ok(self.facts.known@, cx.tm(), self.hyp@)
        &&& store::facts_ok(self.plain.known@, cx.tm(), nothing())
        &&& samples_ok(self.samples@, points_of(self.verify), cx.tm())
        &&& linear::lins_ok(self.lins, cx.tm(), self.hyp@)
        &&& xor::xors_ok(self.xors, cx.tm(), self.hyp@)
        &&& bitwise::infos_ok(self.infos@, cx.tm())
        &&& shuffle::traces_ok(self.traces@, cx.tm())
        &&& compares::compares_ok(self.compares@, cx.tm())
        &&& compares::compares_full(self.compares@, cx.nodes@, cx.tm())
        &&& residue::tables_ok(self.residues@, cx.tm())
        &&& self.forms.wf()
        &&& self.scratch.wf()
        &&& self.live.wf()
        &&& self.dead.wf()
        &&& listed(self.live_roots@, cx.n())
        &&& flagged(self.quarantined@) ==> self.stats.quarantined > 0
    }

    /// What a call is given stays, nothing spent is given back, and no root is counted.
    pub open spec fn kept(&self, o: &Runner<'a>) -> bool {
        self.held(o) && same_tallies(self.stats, o.stats)
    }

    /// What a call is given stays, and nothing spent is given back.
    pub open spec fn held(&self, o: &Runner<'a>) -> bool {
        &&& self.meter.same_limits(&o.meter)
        &&& o.meter.spent.within(self.meter.spent)
        &&& o.meter.timeless() && !o.meter.expired ==> !self.meter.expired
        &&& o.stats.quarantined <= self.stats.quarantined
        &&& o.stats.cycles_cut <= self.stats.cycles_cut
        &&& o.stats.rounds <= self.stats.rounds
        &&& o.refuses_all() ==> self.meter.spent.rewrites == o.meter.spent.rewrites
        &&& self.hyp == o.hyp
        &&& self.items == o.items
        &&& self.hooks == o.hooks
        &&& self.verify == o.verify
        &&& self.sharing == o.sharing
        &&& self.max_region == o.max_region
        &&& self.forms == o.forms
    }

    /// Only what was spent changed.
    pub open spec fn metered(&self, o: &Runner<'a>) -> bool {
        &&& *self == (Runner { meter: self.meter, ..*o })
        &&& self.meter.same_limits(&o.meter)
        &&& o.meter.spent.within(self.meter.spent)
        &&& o.meter.timeless() && !o.meter.expired ==> !self.meter.expired
        &&& self.meter.spent.new_nodes == o.meter.spent.new_nodes
    }

    /// Only what was spent, counted and known changed.
    pub open spec fn asked(&self, o: &Runner<'a>) -> bool {
        *self == (Runner { meter: self.meter, stats: self.stats, facts: self.facts, ..*o })
    }

    /// A consistent state stays consistent as the arena grows.
    pub(crate) proof fn lemma_grew(&self, cx0: &Context, cx1: &Context)
        requires
            self.wf(cx0),
            cx1.wf(),
            cx1.grew(cx0),
        ensures
            self.wf(cx1),
    {
        lemma_items_grow(self.items@, cx0.tm(), cx1.tm(), self.hyp@);
        store::lemma_facts_grow(self.facts.known@, cx0.tm(), cx1.tm(), self.hyp@);
        store::lemma_facts_grow(self.plain.known@, cx0.tm(), cx1.tm(), nothing());
        linear::lemma_lins_grow(self.lins, cx0.tm(), cx1.tm(), self.hyp@);
        xor::lemma_xors_grow(self.xors, cx0.tm(), cx1.tm(), self.hyp@);
        bitwise::lemma_infos_grow(self.infos@, cx0.tm(), cx1.tm());
        shuffle::lemma_traces_grow(self.traces@, cx0.tm(), cx1.tm());
        compares::lemma_full_grow(self.compares@, cx0, cx1);
        compares::lemma_compares_grow(self.compares@, cx0.tm(), cx1.tm());
        residue::lemma_tables_grow(self.residues@, cx0.tm(), cx1.tm());
        lemma_samples_grow(self.samples@, points_of(self.verify), cx0.tm(), cx1.tm());
    }

    /// Tells the observer.
    pub(crate) fn emit(&mut self, e: Event<'_>)
        ensures
            *final(self) == (Runner { observer: final(self).observer, ..*old(self) }),
    {
        if let Some(o) = &mut self.observer {
            o.event(e);
        }
    }

    /// The host's policy refuses every rewrite.
    pub open(crate) spec fn refuses_all(&self) -> bool {
        refuses_every(self.hooks)
    }

    /// The reason to stop is there: the limit it names leaves no room, or a deadline has passed.
    pub open(crate) spec fn refuses(&self, cx: &Context, s: Stop) -> bool {
        let left = self.meter.limit.minus(self.meter.spent);
        match s {
            Stop::Exhausted(e) => match e {
                Exhausted::Deadline => self.meter.expired,
                Exhausted::NodeVisits => left.node_visits == 0,
                Exhausted::Candidates => left.candidates == 0,
                Exhausted::Rewrites => left.rewrites == 0,
                Exhausted::PassWork => left.pass_work < PASS_STEP + cx.n(),
                Exhausted::MatchSteps => left.match_steps < MATCH_STEPS,
                Exhausted::FactWork => left.fact_work < QUERY_WORK,
                Exhausted::NewNodes | Exhausted::ArenaCapacity => left.new_nodes < 3 || cx.n() + 3
                    > cx.limit(),
                _ => false,
            },
        }
    }

    /// Charges `n` units of `c`.
    pub(crate) fn charge(&mut self, c: Counter, n: u64) -> (r: Result<(), Stop>)
        requires
            old(self).meter.spent.within(old(self).meter.limit),
        ensures
            final(self).metered(old(self)),
            final(self).meter.spent.within(final(self).meter.limit),
            r is Ok ==> final(self).meter.spent == c.put(
                old(self).meter.spent,
                budget::more(c.get(old(self).meter.spent), n),
            ),
            r is Err ==> final(self).meter.spent == old(self).meter.spent,
            r matches Err(Stop::Exhausted(e)) ==> (e == Exhausted::Deadline && final(self).meter.expired) || (e == c.limit() && budget::more(c.get(old(self).meter.spent), n)
                > c.get(old(self).meter.limit)),
            final(self).meter.counted_down(&old(self).meter),
            old(self).meter.late() ==> r == Err::<(), Stop>(Stop::Exhausted(Exhausted::Deadline))
                && final(self).meter.late(),
            old(self).meter.timeless() && !old(self).meter.expired ==> r == (if budget::more(
                c.get(old(self).meter.spent),
                n,
            ) > c.get(old(self).meter.limit) {
                Err(Stop::Exhausted(c.limit()))
            } else {
                Ok(())
            }),
    {
        proof {
            reveal(Meter::counted_down);
            reveal(Meter::late);
        }
        match self.meter.charge(c, n) {
            Ok(_) => Ok(()),
            Err(e) => Err(Stop::Exhausted(e)),
        }
    }

    /// Whether every limit still holds.
    pub(crate) fn checked(&self) -> (r: Result<(), Stop>)
        ensures
            r is Ok <==> self.meter.checked() is Ok,
            r matches Err(Stop::Exhausted(e)) ==> self.meter.checked() == Err::<(), Exhausted>(e),
    {
        match self.meter.check() {
            Ok(_) => Ok(()),
            Err(e) => Err(Stop::Exhausted(e)),
        }
    }

    /// Lets the arena make as many nodes as are left. Nodes are refused before they would
    /// exceed the budget, so it is never overspent.
    fn open(&self, cx: &mut Context) -> (before: usize)
        requires
            old(cx).wf(),
        ensures
            *final(cx) == (Context { quota: final(cx).quota, ..*old(cx) }),
            final(cx).quota == budget::less(self.meter.limit.new_nodes, self.meter.spent.new_nodes),
            before == old(cx).n(),
            final(cx).wf(),
            final(cx).grew(old(cx)),
    {
        cx.quota = self.meter.left().new_nodes;
        proof {
            assert forall|i: int| 0 <= i < cx.n() implies #[trigger] cx.ok_at(i) by {
                assert(old(cx).ok_at(i));
            }
        }
        cx.len()
    }

    /// Charges the nodes made since the arena had `before`.
    fn close(&mut self, cx: &Context, before: usize, x: Result<u32, Fail>) -> (r: Result<u32, Stop>)
        requires
            cx.wf(),
            before <= cx.n(),
            old(self).wf(cx),
            cx.n() - before <= budget::less(
                old(self).meter.limit.new_nodes,
                old(self).meter.spent.new_nodes,
            ),
        ensures
            final(self).wf(cx),
            final(self).kept(old(self)),
            final(self).meter.spent.new_nodes == old(self).meter.spent.new_nodes + (cx.n()
                - before),
            r matches Ok(y) ==> x == Ok::<u32, Fail>(y),
            r matches Err(Stop::Exhausted(e)) ==> (e == Exhausted::Deadline && final(self).meter.expired) || (x is Err && (e == Exhausted::NewNodes || e
                == Exhausted::ArenaCapacity)),
    {
        let made: u64 = (cx.len() - before) as u64;
        self.meter.spent.new_nodes = self.meter.spent.new_nodes + made;
        match x {
            Ok(v) => {
                match self.checked() {
                    Ok(_) => Ok(v),
                    Err(e) => Err(e),
                }
            },
            Err(Fail::Quota) => Err(Stop::Exhausted(Exhausted::NewNodes)),
            Err(Fail::Full) => Err(Stop::Exhausted(Exhausted::ArenaCapacity)),
        }
    }

    /// [`mk_const`](Context::mk_const) as engine work, charging the nodes it makes.
    pub(crate) fn mk_const(&mut self, cx: &mut Context, v: &BitVec) -> (r: Result<u32, Stop>)
        requires
            old(self).wf(old(cx)),
            1 <= v@.len() <= MAX_WIDTH,
        ensures
            went(final(self), final(cx), old(self), old(cx)),
            r matches Err(e) ==> final(self).refuses(final(cx), e) && no_room(e),
            r matches Ok(x) ==> x < final(cx).n() && final(cx).w(x as int) == v@.len() && (
            forall|env: Env| #[trigger] final(cx).val(x as int, env) == v@),
            r matches Ok(x) ==> final(cx).tm()[x as int] == Term::Const(v@) && final(cx).nodes@[x as int] is Const,
    {
        let ghost cx0 = *cx;
        let before = self.open(cx);
        let x = cx.mk_const(v);
        proof {
            self.lemma_grew(&cx0, cx);
        }
        self.close(cx, before, x)
    }

    /// [`c_un`](Context::c_un) as engine work, charging the nodes it makes.
    pub(crate) fn c_un(&mut self, cx: &mut Context, op: UnOp, a: u32) -> (r: Result<u32, Stop>)
        requires
            old(self).wf(old(cx)),
            a < old(cx).n(),
            op == UnOp::Bswap ==> old(cx).w(a as int) % 8 == 0,
        ensures
            went(final(self), final(cx), old(self), old(cx)),
            r matches Err(e) ==> final(self).refuses(final(cx), e) && no_room(e),
            r matches Ok(x) ==> x < final(cx).n() && final(cx).w(x as int) == old(cx).w(a as int) && (
            forall|env: Env| #[trigger] final(cx).val(x as int, env) == ops::un_value(op, old(cx).val(a as int, env))),
    {
        let ghost cx0 = *cx;
        let before = self.open(cx);
        let x = cx.c_un(op, a);
        proof {
            self.lemma_grew(&cx0, cx);
        }
        self.close(cx, before, x)
    }

    /// [`c_bin`](Context::c_bin) as engine work, charging the nodes it makes.
    pub(crate) fn c_bin(&mut self, cx: &mut Context, op: BinOp, a: u32, b: u32) -> (r: Result<u32, Stop>)
        requires
            old(self).wf(old(cx)),
            a < old(cx).n(),
            b < old(cx).n(),
            old(cx).w(a as int) == old(cx).w(b as int),
        ensures
            went(final(self), final(cx), old(self), old(cx)),
            r matches Err(e) ==> final(self).refuses(final(cx), e) && no_room(e),
            r matches Ok(x) ==> x < final(cx).n() && final(cx).w(x as int) == old(cx).w(a as int) && (
            forall|env: Env| #[trigger] final(cx).val(x as int, env) == ops::bin_value(op, old(cx).val(a as int, env), old(cx).val(b as int, env))),
    {
        let ghost cx0 = *cx;
        let before = self.open(cx);
        let x = cx.c_bin(op, a, b);
        proof {
            self.lemma_grew(&cx0, cx);
        }
        self.close(cx, before, x)
    }

    /// [`c_rel`](Context::c_rel) as engine work, charging the nodes it makes.
    pub(crate) fn c_rel(&mut self, cx: &mut Context, op: CmpOp, a: u32, b: u32) -> (r: Result<u32, Stop>)
        requires
            old(self).wf(old(cx)),
            a < old(cx).n(),
            b < old(cx).n(),
            old(cx).w(a as int) == old(cx).w(b as int),
        ensures
            went(final(self), final(cx), old(self), old(cx)),
            r matches Err(e) ==> final(self).refuses(final(cx), e) && no_room(e),
            r matches Ok(x) ==> x < final(cx).n() && final(cx).w(x as int) == 1 && (
            forall|env: Env| #[trigger] final(cx).val(x as int, env) == ops::bool_bits(ops::holds(op, old(cx).val(a as int, env), old(cx).val(b as int, env)))),
            r matches Ok(x) ==> final(cx).tm()[x as int] is Cmp || final(cx).tm()[x as int] is Const,
    {
        let ghost cx0 = *cx;
        let before = self.open(cx);
        let x = cx.c_rel(op, a, b);
        proof {
            self.lemma_grew(&cx0, cx);
        }
        self.close(cx, before, x)
    }

    /// [`c_zext`](Context::c_zext) as engine work, charging the nodes it makes.
    pub(crate) fn c_zext(&mut self, cx: &mut Context, a: u32, w: u16) -> (r: Result<u32, Stop>)
        requires
            old(self).wf(old(cx)),
            a < old(cx).n(),
            old(cx).w(a as int) <= w <= MAX_WIDTH,
        ensures
            went(final(self), final(cx), old(self), old(cx)),
            r matches Err(e) ==> final(self).refuses(final(cx), e) && no_room(e),
            r matches Ok(x) ==> x < final(cx).n() && final(cx).w(x as int) == w && (
            forall|env: Env| #[trigger] final(cx).val(x as int, env) == ops::zext_bits(old(cx).val(a as int, env), w as nat)),
    {
        let ghost cx0 = *cx;
        let before = self.open(cx);
        let x = cx.c_zext(a, w);
        proof {
            self.lemma_grew(&cx0, cx);
        }
        self.close(cx, before, x)
    }

    /// [`c_sext`](Context::c_sext) as engine work, charging the nodes it makes.
    pub(crate) fn c_sext(&mut self, cx: &mut Context, a: u32, w: u16) -> (r: Result<u32, Stop>)
        requires
            old(self).wf(old(cx)),
            a < old(cx).n(),
            old(cx).w(a as int) <= w <= MAX_WIDTH,
        ensures
            went(final(self), final(cx), old(self), old(cx)),
            r matches Err(e) ==> final(self).refuses(final(cx), e) && no_room(e),
            r matches Ok(x) ==> x < final(cx).n() && final(cx).w(x as int) == w && (
            forall|env: Env| #[trigger] final(cx).val(x as int, env) == ops::sext_bits(old(cx).val(a as int, env), w as nat)),
    {
        let ghost cx0 = *cx;
        let before = self.open(cx);
        let x = cx.c_sext(a, w);
        proof {
            self.lemma_grew(&cx0, cx);
        }
        self.close(cx, before, x)
    }

    /// [`c_extract`](Context::c_extract) as engine work, charging the nodes it makes.
    pub(crate) fn c_extract(&mut self, cx: &mut Context, a: u32, lo: u16, n: u16) -> (r: Result<u32, Stop>)
        requires
            old(self).wf(old(cx)),
            a < old(cx).n(),
            n >= 1,
            lo + n <= old(cx).w(a as int),
        ensures
            went(final(self), final(cx), old(self), old(cx)),
            r matches Err(e) ==> final(self).refuses(final(cx), e) && no_room(e),
            r matches Ok(x) ==> x < final(cx).n() && final(cx).w(x as int) == n && (
            forall|env: Env| #[trigger] final(cx).val(x as int, env) == old(cx).val(a as int, env).subrange(lo as int, lo + n)),
    {
        let ghost cx0 = *cx;
        let before = self.open(cx);
        let x = cx.c_extract(a, lo, n);
        proof {
            self.lemma_grew(&cx0, cx);
        }
        self.close(cx, before, x)
    }

    /// [`c_concat`](Context::c_concat) as engine work, charging the nodes it makes.
    pub(crate) fn c_concat(&mut self, cx: &mut Context, h: u32, l: u32) -> (r: Result<u32, Stop>)
        requires
            old(self).wf(old(cx)),
            h < old(cx).n(),
            l < old(cx).n(),
            old(cx).w(h as int) + old(cx).w(l as int) <= MAX_WIDTH,
        ensures
            went(final(self), final(cx), old(self), old(cx)),
            r matches Err(e) ==> final(self).refuses(final(cx), e) && no_room(e),
            r matches Ok(x) ==> x < final(cx).n() && final(cx).w(x as int) == old(cx).w(h as int) + old(cx).w(l as int) && (
            forall|env: Env| #[trigger] final(cx).val(x as int, env) == old(cx).val(l as int, env) + old(cx).val(h as int, env)),
    {
        let ghost cx0 = *cx;
        let before = self.open(cx);
        let x = cx.c_concat(h, l);
        proof {
            self.lemma_grew(&cx0, cx);
        }
        self.close(cx, before, x)
    }

    /// [`c_select`](Context::c_select) as engine work, charging the nodes it makes.
    pub(crate) fn c_select(&mut self, cx: &mut Context, c: u32, t: u32, f: u32) -> (r: Result<u32, Stop>)
        requires
            old(self).wf(old(cx)),
            c < old(cx).n(),
            t < old(cx).n(),
            f < old(cx).n(),
            old(cx).w(c as int) == 1,
            old(cx).w(t as int) == old(cx).w(f as int),
        ensures
            went(final(self), final(cx), old(self), old(cx)),
            r matches Err(e) ==> final(self).refuses(final(cx), e) && no_room(e),
            r matches Ok(x) ==> x < final(cx).n() && final(cx).w(x as int) == old(cx).w(t as int) && (
            forall|env: Env| #[trigger] final(cx).val(x as int, env) == (if old(cx).val(c as int, env)[0] { old(cx).val(t as int, env) } else { old(cx).val(f as int, env) })),
    {
        let ghost cx0 = *cx;
        let before = self.open(cx);
        let x = cx.c_select(c, t, f);
        proof {
            self.lemma_grew(&cx0, cx);
        }
        self.close(cx, before, x)
    }

    /// The known bits of `n` under the run's constraints and the call's fact budget, with what
    /// they rely on: none when a cap declined the query.
    pub(crate) fn known(&mut self, cx: &Context, n: u32) -> (r: Result<
        (Option<KnownBits>, Fin),
        Stop,
    >)
        requires
            old(self).wf(cx),
            n < cx.n(),
        ensures
            went(final(self), cx, old(self), cx),
            r matches Err(e) ==> final(self).refuses(cx, e),
            final(self).asked(old(self)),
            r matches Ok((Some(k), fin)) ==> k.has(cx.w(n as int)) && forall|env: Env|
                fin.rel.admits(final(self).hyp@, env) ==> k.admits(
                    #[trigger] cx.val(n as int, env),
                ),
            r matches Ok((Some(k), fin)) ==> cx.nodes@[n as int] is Const || final(self).facts.holds(
                n,
                k,
                fin.rel,
            ),
            r matches Ok((None, fin)) ==> fin.why is Some && !fin.done,
            r matches Ok((Some(k), fin)) ==> fin.why is None && floor::floored(
                k,
                cx.tm()[n as int],
            ),
    {
        if let Some(v) = cx.const_val(n) {
            proof {
                assert forall|b: int| 0 <= b < v@.len() implies #[trigger] ops::not_bits(v@)[b]
                    == !v@[b] by {}
            }
            return Ok((Some(KnownBits::constant(&v)), Fin::full()));
        }
        let left = self.meter.left().fact_work;
        if left == 0 {
            return Err(Stop::Exhausted(Exhausted::FactWork));
        }
        let cap: u64 = if left < QUERY_WORK {
            left
        } else {
            QUERY_WORK
        };
        let work0 = self.facts.work;
        let capped0 = self.facts.capped;
        proof {
            reveal(items_ok);
        }
        let f = self.facts.query(cx, &self.items, n, cap, Ghost(self.hyp@));
        self.meter.spent.fact_work = self.meter.spent.fact_work + (self.facts.work - work0);
        match f {
            Some((k, rel)) => {
                match self.checked() {
                    Ok(_) => Ok((Some(k), Fin::relying(rel))),
                    Err(e) => Err(e),
                }
            },
            None => {
                if left < QUERY_WORK {
                    return Err(Stop::Exhausted(Exhausted::FactWork));
                }
                self.stats.degraded = bump(self.stats.degraded);
                Ok((None, Fin::capped(Exhausted::FactWork)))
            },
        }
    }

    /// Whether the facts prove that `a` and `b` (of one width) never have a bit set in both,
    /// with what the facts of each relied on.
    pub(crate) fn disjoint(&mut self, cx: &Context, a: u32, b: u32) -> (r: Result<
        (bool, Fin, Fin),
        Stop,
    >)
        requires
            old(self).wf(cx),
            a < cx.n(),
            b < cx.n(),
            cx.w(a as int) == cx.w(b as int),
        ensures
            went(final(self), cx, old(self), cx),
            r matches Err(e) ==> final(self).refuses(cx, e),
            final(self).asked(old(self)),
            r matches Ok((d, fa, fb)) ==> d ==> forall|env: Env, i: int|
                #![trigger cx.val(a as int, env)[i]]
                #![trigger cx.val(b as int, env)[i]]
                fa.rel.admits(final(self).hyp@, env) && fb.rel.admits(final(self).hyp@, env) && 0
                    <= i < cx.w(a as int) ==> !(cx.val(a as int, env)[i] && cx.val(b as int, env)[i]),
    {
        let (ka, fa) = self.known(cx, a)?;
        let (kb, fb) = self.known(cx, b)?;
        if let (Some(x), Some(y)) = (ka, kb) {
            let mut i: usize = 0;
            let w: usize = cx.wid(a) as usize;
            let ghost h = self.hyp@;
            while i < w
                invariant
                    i <= w,
                    w == cx.w(a as int),
                    x.has(w as nat),
                    y.has(w as nat),
                    went(self, cx, old(self), cx),
                    self.asked(old(self)),
                    forall|j: int|
                        0 <= j < i ==> (#[trigger] x.zero@[j]) || y.zero@[j],
                decreases w - i,
            {
                if !x.zero.at(i) && !y.zero.at(i) {
                    return Ok((false, fa, fb));
                }
                i = i + 1;
            }
            proof {
                assert forall|env: Env, i: int|
                    #![trigger cx.val(a as int, env)[i]]
                    #![trigger cx.val(b as int, env)[i]]
                    fa.rel.admits(h, env) && fb.rel.admits(h, env) && 0 <= i < cx.w(
                        a as int,
                    ) implies !(cx.val(a as int, env)[i] && cx.val(b as int, env)[i]) by {
                    assert(x.admits(cx.val(a as int, env)));
                    assert(y.admits(cx.val(b as int, env)));
                    let _ = x.zero@[i];
                }
            }
            return Ok((true, fa, fb));
        }
        Ok((false, fa, fb))
    }
}

} // verus!
