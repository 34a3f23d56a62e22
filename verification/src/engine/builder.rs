//! Linking rule programs, a strategy and verification settings into an engine.

use vstd::prelude::*;
use crate::engine::link;
use crate::engine::strategy;
use crate::engine::host::HostLink;
use crate::rules::corpus;
use crate::rules::corpus::{builtin_program, CORE_RULES};
use crate::rules::meaning;
use std::sync::Arc;
use crate::engine::dispatch;
use crate::engine::dispatch::DispatchNet;
use crate::engine::link::{Engine, Inner, PhaseImpl};
use crate::engine::pass::tables::search;
use crate::engine::stats::PassKind;
use crate::engine::strategy::{Phase, Sharing, Strategy, Verify, REGION_CAP};
use crate::expr::combine;
use crate::rules::rule::{Group, Ledger, Rule, RuleProgram};

verus! {

/// Why an engine could not be built.
#[derive(Debug)]
#[non_exhaustive]
pub enum BuildError {
    /// A rule is not vouched for by its program's ledger, and unproven rules are not allowed.
    Unproven {
        /// `group::rule`.
        rule: String,
    },
    /// Two linked programs define the same group.
    DuplicateGroup(String),
    /// The strategy names a group no linked program defines.
    UnknownGroup(String),
}

/// A linked program and the rules its ledger vouches for (none: linked without a ledger).
#[derive(Debug)]
pub struct Linked {
    /// The program.
    pub program: RuleProgram,
    /// Per rule, whether the ledger vouches for it.
    pub proven: Option<Vec<bool>>,
}

/// A link of the built-in rules: all sound, all vouched for, in their groups.
pub open spec fn core_link(l: Linked) -> bool {
    &&& forall|i: int|
        0 <= i < l.program.rules@.len() ==> meaning::rule_sound(#[trigger] l.program.rules@[i])
    &&& forall|i: int| 0 <= i < l.program.rules@.len() ==> #[trigger] vouched_at(l, i)
    &&& corpus::core_groups(l.program.groups@)
    &&& l.program.rules@.len() == CORE_RULES
}

/// The parts of a program are there.
pub open spec fn program_ok(p: RuleProgram) -> bool {
    &&& forall|i: int| 0 <= i < p.rules@.len() ==> meaning::rule_ok(#[trigger] p.rules@[i])
    &&& forall|g: int, i: int|
        #![trigger p.groups@[g].rules@[i]]
        0 <= g < p.groups@.len() && 0 <= i < p.groups@[g].rules@.len() ==> p.groups@[g].rules@[i]
            < p.rules@.len()
}

impl BuildError {
    /// The error as text.
    pub open spec fn shown(&self) -> Seq<char> {
        match self {
            BuildError::Unproven { rule } => "rule `"@ + rule@
                + "` is not vouched for by its ledger (allow unproven rules to link it)"@,
            BuildError::DuplicateGroup(g) => "group `"@ + g@ + "` is defined twice"@,
            BuildError::UnknownGroup(g) => "the strategy names unknown group `"@ + g@ + "`"@,
        }
    }

    /// The error as text.
    pub fn text(&self) -> (r: String)
        ensures
            r@ == self.shown(),
    {
        match self {
            BuildError::Unproven { rule } => {
                let mut s = "rule `".to_string();
                s.append(rule.as_str());
                s.append("` is not vouched for by its ledger (allow unproven rules to link it)");
                s
            },
            BuildError::DuplicateGroup(g) => {
                let mut s = "group `".to_string();
                s.append(g.as_str());
                s.append("` is defined twice");
                s
            },
            BuildError::UnknownGroup(g) => {
                let mut s = "the strategy names unknown group `".to_string();
                s.append(g.as_str());
                s.append("`");
                s
            },
        }
    }
}

impl RuleProgram {
    /// A program of these rules and groups, if its parts are there.
    pub fn new(rules: Vec<Rule>, groups: Vec<Group>) -> (r: Option<RuleProgram>)
        ensures
            r matches Some(p) ==> p.rules == rules && p.groups == groups && program_ok(p),
            r is None ==> !program_ok(RuleProgram { rules, groups }),
    {
        let ghost whole = RuleProgram { rules, groups };
        let p = RuleProgram { rules, groups };
        let mut i: usize = 0;
        while i < p.rules.len()
            invariant
                p == whole,
                whole == (RuleProgram { rules, groups }),
                i <= p.rules@.len(),
                forall|j: int| 0 <= j < i ==> meaning::rule_ok(#[trigger] p.rules@[j]),
            decreases p.rules@.len() - i,
        {
            let r = &p.rules[i];
            assert(*r == p.rules@[i as int]);
            if !r.valid() {
                return None;
            }
            i = i + 1;
        }
        let mut g: usize = 0;
        while g < p.groups.len()
            invariant
                p == whole,
                whole == (RuleProgram { rules, groups }),
                g <= p.groups@.len(),
                forall|h: int, j: int|
                    #![trigger p.groups@[h].rules@[j]]
                    0 <= h < g && 0 <= j < p.groups@[h].rules@.len() ==> p.groups@[h].rules@[j]
                        < p.rules@.len(),
            decreases p.groups@.len() - g,
        {
            let mut j: usize = 0;
            while j < p.groups[g].rules.len()
                invariant
                    p == whole,
                    whole == (RuleProgram { rules, groups }),
                    g < p.groups@.len(),
                    j <= p.groups@[g as int].rules@.len(),
                    forall|k: int|
                        #![trigger p.groups@[g as int].rules@[k]]
                        0 <= k < j ==> p.groups@[g as int].rules@[k] < p.rules@.len(),
                decreases p.groups@[g as int].rules@.len() - j,
            {
                let x: u32 = p.groups[g].rules[j];
                assert(p.groups@[g as int].rules@[j as int] == x);
                if x as usize >= p.rules.len() {
                    return None;
                }
                j = j + 1;
            }
            g = g + 1;
        }
        Some(p)
    }
}

/// The rules of `program` that `ledger` vouches for.
fn vouched(program: &RuleProgram, ledger: &Ledger) -> (r: Vec<bool>)
    ensures
        r@.len() == program.rules@.len(),
        forall|i: int|
            0 <= i < r@.len() ==> #[trigger] r@[i] == ledger.vouches(
                program.rules@[i].name@,
                program.rules@[i].id,
            ),
{
    let mut r: Vec<bool> = Vec::with_capacity(program.rules.len());
    let mut i: usize = 0;
    while i < program.rules.len()
        invariant
            i <= program.rules@.len(),
            r@.len() == i,
            forall|j: int|
                0 <= j < i ==> #[trigger] r@[j] == ledger.vouches(
                    program.rules@[j].name@,
                    program.rules@[j].id,
                ),
        decreases program.rules@.len() - i,
    {
        let rule = &program.rules[i];
        r.push(ledger.vouches_for(&rule.name, rule.id));
        i = i + 1;
    }
    r
}

/// The rules of linked programs, in link order.
pub open spec fn all_rules(ps: Seq<Linked>) -> Seq<Rule>
    decreases ps.len(),
{
    if ps.len() == 0 {
        seq![]
    } else {
        all_rules(ps.drop_last()) + ps.last().program.rules@
    }
}

/// Whether rule `i` of a linked program is vouched for.
pub open spec fn vouched_at(l: Linked, i: int) -> bool {
    l.proven matches Some(p) && p@[i]
}

/// Whether each rule of linked programs is vouched for.
pub open spec fn all_proven(ps: Seq<Linked>) -> Seq<bool>
    decreases ps.len(),
{
    if ps.len() == 0 {
        seq![]
    } else {
        all_proven(ps.drop_last()) + Seq::new(
            ps.last().program.rules@.len(),
            |i: int| vouched_at(ps.last(), i),
        )
    }
}

/// A group of some linked program has this name.
pub open spec fn defines(ps: Seq<Linked>, name: Seq<char>) -> bool {
    exists|p: int, g: int| #[trigger] named(ps, p, g, name)
}

/// Group `g` of program `p` has this name.
pub open spec fn named(ps: Seq<Linked>, p: int, g: int, name: Seq<char>) -> bool {
    &&& 0 <= p < ps.len()
    &&& 0 <= g < ps[p].program.groups@.len()
    &&& ps[p].program.groups@[g].name@ == name
}

/// The indices that the rules of group `g` of program `p` have among all.
pub open spec fn placed(ps: Seq<Linked>, p: int, g: int) -> Seq<u32> {
    let own = ps[p].program.groups@[g].rules@;
    Seq::new(own.len(), |j: int| (all_rules(ps.take(p)).len() + own[j]) as u32)
}

/// The indices that the rules of the group of this name have among all.
pub open spec fn group_of(ps: Seq<Linked>, name: Seq<char>) -> Seq<u32> {
    let (p, g) = choose|p: int, g: int| #[trigger] named(ps, p, g, name);
    placed(ps, p, g)
}

/// The rule runs in a rule phase: it is directed, and holds for floats as values only where that
/// is asked for.
pub open spec fn runs(r: Rule, float_values: bool) -> bool {
    r.decreasing && (float_values || !r.float_values)
}

/// Those of the listed rules that run in a rule phase, in order.
pub open spec fn running(rules: Seq<Rule>, float_values: bool, list: Seq<u32>) -> Seq<u32>
    decreases list.len(),
{
    if list.len() == 0 {
        seq![]
    } else if runs(rules[list.last() as int], float_values) {
        running(rules, float_values, list.drop_last()).push(list.last())
    } else {
        running(rules, float_values, list.drop_last())
    }
}

/// The rules of a rule phase over the first `n` of the named groups, in order.
pub open spec fn order_of(
    ps: Seq<Linked>,
    rules: Seq<Rule>,
    float_values: bool,
    names: Seq<String>,
    n: int,
) -> Seq<u32>
    decreases n,
{
    if n <= 0 {
        seq![]
    } else {
        order_of(ps, rules, float_values, names, n - 1) + running(
            rules,
            float_values,
            group_of(ps, names[n - 1]@),
        )
    }
}

/// The net of a rule phase is that of the rules of its groups.
pub open spec fn nets_as(
    impls: Seq<PhaseImpl>,
    phases: Seq<Phase>,
    ps: Seq<Linked>,
    rules: Seq<Rule>,
    float_values: bool,
) -> bool {
    forall|q: int|
        #![trigger impls[q]]
        0 <= q < impls.len() ==> match (impls[q], phases[q]) {
            (PhaseImpl::Local(net, _), Phase::Local { groups }) => dispatch::net_of(
                net,
                rules,
                order_of(ps, rules, float_values, groups@, groups@.len() as int),
            ),
            _ => true,
        }
}

/// Two groups of linked programs have this name.
pub open spec fn defined_twice(ps: Seq<Linked>, name: Seq<char>) -> bool {
    exists|p: int, g: int, q: int, k: int|
        #![trigger named(ps, p, g, name), named(ps, q, k, name)]
        named(ps, p, g, name) && named(ps, q, k, name) && (p != q || g != k)
}

/// Some rule of this name is not vouched for.
pub open spec fn unvouched(ps: Seq<Linked>, name: Seq<char>) -> bool {
    exists|p: int, i: int| #[trigger] open_rule(ps, p, i) && ps[p].program.rules@[i].name@ == name
}

/// The first rule in link order that is not vouched for has this name.
pub open spec fn first_unvouched(ps: Seq<Linked>, name: Seq<char>) -> bool {
    exists|p: int, i: int| #[trigger]
        open_rule(ps, p, i) && ps[p].program.rules@[i].name@ == name && forall|q: int, j: int|
            q < p || (q == p && j < i) ==> !#[trigger] open_rule(ps, q, j)
}

/// The first rule in link order that is not vouched for has this name, and no group of the
/// programs before its own repeats another's name.
pub open spec fn open_first(ps: Seq<Linked>, name: Seq<char>) -> bool {
    exists|p: int, i: int| #[trigger]
        open_rule(ps, p, i) && ps[p].program.rules@[i].name@ == name && (forall|q: int, j: int|
            q < p || (q == p && j < i) ==> !#[trigger] open_rule(ps, q, j)) && (forall|
            q: int,
            k: int,
        |
            q < p ==> !#[trigger] repeats(ps, q, k))
}

/// Group `g` of program `p` has the name of a group before it.
pub open spec fn repeats(ps: Seq<Linked>, p: int, g: int) -> bool {
    &&& 0 <= p < ps.len()
    &&& 0 <= g < ps[p].program.groups@.len()
    &&& exists|q: int, k: int| #[trigger]
        named(ps, q, k, ps[p].program.groups@[g].name@) && before(q, k, p, g)
}

/// The first group in link order that repeats a name has this name, and (unless that is allowed)
/// every rule of the programs up to its own is vouched for.
pub open spec fn repeated_first(ps: Seq<Linked>, name: Seq<char>, lenient: bool) -> bool {
    exists|p: int, g: int| #[trigger]
        repeats(ps, p, g) && ps[p].program.groups@[g].name@ == name && (forall|q: int, k: int|
            before(q, k, p, g) ==> !#[trigger] repeats(ps, q, k)) && (lenient || forall|
            q: int,
            i: int,
        |
            q <= p ==> !#[trigger] open_rule(ps, q, i))
}

/// The first name of a group in the strategy that no program defines is this one.
pub open spec fn unknown_first(s: Strategy, ps: Seq<Linked>, name: Seq<char>) -> bool {
    exists|p: int, g: int| #[trigger]
        names_at(s, p, g) && group_name(s, p, g) == name && !defines(ps, name) && forall|
            q: int,
            k: int,
        |
            before(q, k, p, g) && #[trigger] names_at(s, q, k) ==> defines(ps, group_name(s, q, k))
}

/// The names of the groups of the first `n` programs, in link order.
pub open spec fn all_names(ps: Seq<Linked>, n: int) -> Seq<Seq<char>>
    decreases n,
{
    if n <= 0 {
        seq![]
    } else {
        all_names(ps, n - 1) + ps[n - 1].program.groups@.map_values(|g: Group| g.name@)
    }
}

/// Rule `i` of program `p` is not vouched for.
pub open spec fn open_rule(ps: Seq<Linked>, p: int, i: int) -> bool {
    &&& 0 <= p < ps.len()
    &&& 0 <= i < ps[p].program.rules@.len()
    &&& !vouched_at(ps[p], i)
}

/// The strategy's rule phases name this group.
pub open spec fn names_group(s: Strategy, name: Seq<char>) -> bool {
    exists|p: int, g: int| #[trigger] names_at(s, p, g) && group_name(s, p, g) == name
}

/// Phase `p` of the strategy is a rule phase with a `g`th group.
pub open spec fn names_at(s: Strategy, p: int, g: int) -> bool {
    &&& 0 <= p < s.phases@.len()
    &&& s.phases@[p] matches Phase::Local { groups } && 0 <= g < groups@.len()
}

/// The name of the `g`th group of phase `p`.
pub open spec fn group_name(s: Strategy, p: int, g: int) -> Seq<char> {
    match s.phases@[p] {
        Phase::Local { groups } => groups@[g]@,
        _ => seq![],
    }
}

/// The same programs, or one more that defines a group without rules that none defined.
pub open spec fn with_group(ps: Seq<Linked>, qs: Seq<Linked>) -> bool {
    qs == ps || (qs.len() == ps.len() + 1 && qs.drop_last() == ps && qs.last().program.rules@.len()
        == 0 && qs.last().program.groups@.len() == 1 && !defines(
        ps,
        qs.last().program.groups@[0].name@,
    ))
}

/// Builds an [`Engine`].
pub struct EngineBuilder {
    pub(crate) programs: Vec<Linked>,
    pub(crate) strategy: Option<Strategy>,
    pub(crate) verify: Verify,
    pub(crate) allow_unproven: bool,
    pub(crate) host: Vec<HostLink>,
}

/// The host vouches for every host rewrite.
pub open spec fn all_trusted(hs: Seq<HostLink>) -> bool {
    forall|i: int| 0 <= i < hs.len() ==> (#[trigger] hs[i]).trusted
}

/// The first host rewrite that the host does not vouch for.
fn first_untrusted(hs: &Vec<HostLink>) -> (r: Option<usize>)
    ensures
        r matches Some(i) ==> i < hs@.len() && !hs@[i as int].trusted,
        r is None ==> all_trusted(hs@),
{
    let mut i: usize = 0;
    while i < hs.len()
        invariant
            i <= hs@.len(),
            forall|j: int| 0 <= j < i ==> (#[trigger] hs@[j]).trusted,
        decreases hs@.len() - i,
    {
        if !hs[i].trusted {
            return Some(i);
        }
        i = i + 1;
    }
    None
}

/// The host rewrites whose group is listed, in link order.
fn phase_hosts(names: &Vec<String>, hs: &Vec<HostLink>) -> (r: Vec<u32>)
    requires
        hs@.len() <= MAX_RULES,
    ensures
        link::hosts_listed(r@, hs@.len()),
        forall|i: int, j: int| 0 <= i < j < r@.len() ==> #[trigger] r@[i] < #[trigger] r@[j],
{
    let mut r: Vec<u32> = Vec::new();
    let mut i: usize = 0;
    while i < hs.len()
        invariant
            i <= hs@.len() <= MAX_RULES,
            forall|j: int| 0 <= j < r@.len() ==> #[trigger] r@[j] < i,
            forall|j: int, k: int| 0 <= j < k < r@.len() ==> #[trigger] r@[j] < #[trigger] r@[k],
        decreases hs@.len() - i,
    {
        let group = hs[i].op.group().to_string();
        let mut k: usize = 0;
        let mut listed = false;
        while k < names.len() && !listed
            invariant
                k <= names@.len(),
            decreases names@.len() - k,
        {
            if names[k] == group {
                listed = true;
            }
            k = k + 1;
        }
        if listed {
            r.push(i as u32);
        }
        i = i + 1;
    }
    r
}

/// Mixes the host rewrites of a phase into the engine's hash.
fn host_hash(id: u64, list: &Vec<u32>, hs: &Vec<HostLink>) -> (r: u64)
    requires
        link::hosts_listed(list@, hs@.len()),
    ensures
        list@.len() == 0 ==> r == id,
{
    let mut h: u64 = id;
    let mut i: usize = 0;
    while i < list.len()
        invariant
            i <= list@.len(),
            link::hosts_listed(list@, hs@.len()),
            i == 0 ==> h == id,
        decreases list@.len() - i,
    {
        let k: usize = list[i] as usize;
        h = combine(combine(h, 0x686f_7374), k as u64);
        h = combine(h, hs[k].op.revision() as u64);
        i = i + 1;
    }
    h
}

/// The most rules an engine links.
pub const MAX_RULES: usize = 0x1000_0000;

/// Linked programs are valid, each with as many flags as rules, and not too many in all.
pub open spec fn links_ok(ps: Seq<Linked>) -> bool {
    &&& forall|p: int|
        #![trigger ps[p]]
        0 <= p < ps.len() ==> program_ok(ps[p].program) && (ps[p].proven matches Some(v)
            ==> v@.len() == ps[p].program.rules@.len())
    &&& all_rules(ps).len() <= MAX_RULES
}

impl EngineBuilder {
    /// The programs linked so far.
    pub open(crate) spec fn linked(&self) -> Seq<Linked> {
        self.programs@
    }

    /// What was linked is valid.
    pub open(crate) spec fn wf(&self) -> bool {
        links_ok(self.programs@) && self.host@.len() <= MAX_RULES
    }

    /// Whether rules without a proof may be linked.
    pub open(crate) spec fn lenient(&self) -> bool {
        self.allow_unproven
    }

    /// The host rewrites linked so far.
    pub open(crate) spec fn hosts(&self) -> Seq<HostLink> {
        self.host@
    }

    /// The strategy set.
    pub open(crate) spec fn plan(&self) -> Option<Strategy> {
        self.strategy
    }

    /// The verification settings.
    pub open(crate) spec fn checks(&self) -> Verify {
        self.verify
    }

    /// Links nothing yet.
    fn fresh() -> (r: EngineBuilder)
        ensures
            r.wf(),
            r.linked().len() == 0,
            r.hosts().len() == 0,
            !r.lenient(),
            r.plan() is None,
            r.checks() == (Verify {
                sampled_points: 0,
                unproven_points: 16,
                tripwire: false,
                termination: false,
            }),
    {
        EngineBuilder {
            programs: Vec::new(),
            strategy: None,
            verify: Verify::default(),
            allow_unproven: false,
            host: Vec::new(),
        }
    }

    /// Links a program with the flags `proven`.
    fn push(self, program: RuleProgram, proven: Option<Vec<bool>>) -> (r: Self)
        requires
            self.wf(),
            program_ok(program),
            proven matches Some(v) ==> v@.len() == program.rules@.len(),
            all_rules(self.linked()).len() + program.rules@.len() <= MAX_RULES,
        ensures
            r.wf(),
            r.linked() == self.linked().push(Linked { program, proven }),
            r.lenient() == self.lenient(),
            r.plan() == self.plan(),
            r.checks() == self.checks(),
            r.hosts() == self.hosts(),
    {
        let mut b = self;
        let ghost ps = b.programs@;
        let ghost l = Linked { program, proven };
        b.programs.push(Linked { program, proven });
        proof {
            let qs = b.programs@;
            assert(qs.drop_last() =~= ps);
            assert forall|p: int| #![trigger qs[p]] 0 <= p < qs.len() implies program_ok(
                qs[p].program,
            ) && (qs[p].proven matches Some(v) ==> v@.len() == qs[p].program.rules@.len()) by {
                if p < ps.len() {
                    assert(qs[p] == ps[p]);
                }
            }
        }
        b
    }

    /// Links the built-in rules, each of which is vouched for.
    pub fn builtin(self) -> (r: Self)
        requires
            self.wf(),
            all_rules(self.linked()).len() + CORE_RULES <= MAX_RULES,
        ensures
            r.wf(),
            r.linked().len() == self.linked().len() + 1,
            r.linked().drop_last() == self.linked(),
            core_link(r.linked().last()),
            r.lenient() == self.lenient(),
            r.plan() == self.plan(),
            r.checks() == self.checks(),
            r.hosts() == self.hosts(),
    {
        let program = builtin_program();
        let proven = vec![true; program.rules.len()];
        let r = self.push(program, Some(proven));
        assert(r.linked().drop_last() =~= self.linked());
        r
    }

    /// Links a program; each rule must be vouched for by `ledger` (see
    /// [`allow_unproven`](Self::allow_unproven)).
    pub fn program(self, program: RuleProgram, ledger: &Ledger) -> (r: Self)
        requires
            self.wf(),
            program_ok(program),
            all_rules(self.linked()).len() + program.rules@.len() <= MAX_RULES,
        ensures
            r.wf(),
            r.linked().len() == self.linked().len() + 1,
            r.linked().drop_last() == self.linked(),
            r.linked().last().program == program,
            forall|i: int|
                0 <= i < program.rules@.len() ==> #[trigger] vouched_at(r.linked().last(), i)
                    == ledger.vouches(program.rules@[i].name@, program.rules@[i].id),
            r.lenient() == self.lenient(),
            r.plan() == self.plan(),
            r.checks() == self.checks(),
            r.hosts() == self.hosts(),
    {
        let proven = vouched(&program, ledger);
        let r = self.push(program, Some(proven));
        assert(r.linked().drop_last() =~= self.linked());
        r
    }

    /// Links a program without a ledger. Requires [`allow_unproven`](Self::allow_unproven);
    /// its rules get sampled verification ([`Verify::unproven_points`]).
    pub fn unproven_program(self, program: RuleProgram) -> (r: Self)
        requires
            self.wf(),
            program_ok(program),
            all_rules(self.linked()).len() + program.rules@.len() <= MAX_RULES,
        ensures
            r.wf(),
            r.linked() == self.linked().push(Linked { program, proven: None }),
            r.lenient() == self.lenient(),
            r.plan() == self.plan(),
            r.checks() == self.checks(),
            r.hosts() == self.hosts(),
    {
        self.push(program, None)
    }

    /// Links a host rewrite, sampled at every application; requires
    /// [`allow_unproven`](Self::allow_unproven).
    pub fn rewrite(self, op: HostLink) -> (r: Self)
        requires
            self.wf(),
            self.hosts().len() < MAX_RULES,
        ensures
            r.wf(),
            r.hosts().len() == self.hosts().len() + 1,
            r.hosts().drop_last() == self.hosts(),
            r.hosts().last().op == op.op,
            !r.hosts().last().trusted,
            with_group(self.linked(), r.linked()),
            r.lenient() == self.lenient(),
            r.plan() == self.plan(),
            r.checks() == self.checks(),
    {
        self.link_host(op, false)
    }

    /// Links a host rewrite that the host vouches for: its applications are not sampled.
    pub fn trusted_rewrite(self, op: HostLink) -> (r: Self)
        requires
            self.wf(),
            self.hosts().len() < MAX_RULES,
        ensures
            r.wf(),
            r.hosts().len() == self.hosts().len() + 1,
            r.hosts().drop_last() == self.hosts(),
            r.hosts().last().op == op.op,
            r.hosts().last().trusted,
            with_group(self.linked(), r.linked()),
            r.lenient() == self.lenient(),
            r.plan() == self.plan(),
            r.checks() == self.checks(),
    {
        self.link_host(op, true)
    }

    /// Links a host rewrite, and its group if no program defines it.
    fn link_host(self, op: HostLink, trusted: bool) -> (r: Self)
        requires
            self.wf(),
            self.hosts().len() < MAX_RULES,
        ensures
            r.wf(),
            r.hosts().len() == self.hosts().len() + 1,
            r.hosts().drop_last() == self.hosts(),
            r.hosts().last().op == op.op,
            r.hosts().last().trusted == trusted,
            with_group(self.linked(), r.linked()),
            r.lenient() == self.lenient(),
            r.plan() == self.plan(),
            r.checks() == self.checks(),
    {
        let name = op.op.group().to_string();
        let known = self.has_group(&name);
        let ghost ps = self.programs@;
        let mut b = if known {
            self
        } else {
            let group = Group { name, rules: Vec::new() };
            let program = RuleProgram { rules: Vec::new(), groups: vec![group] };
            self.push(program, Some(Vec::new()))
        };
        proof {
            if !known {
                assert(b.programs@.drop_last() =~= ps);
            }
        }
        let ghost before = b.host@;
        let mut link = op;
        link.trusted = trusted;
        b.host.push(link);
        assert(b.host@.drop_last() =~= before);
        b
    }

    /// Whether a linked program defines the group.
    fn has_group(&self, name: &String) -> (r: bool)
        ensures
            r == defines(self.linked(), name@),
    {
        let mut p: usize = 0;
        while p < self.programs.len()
            invariant
                p <= self.programs@.len(),
                forall|q: int, k: int| q < p ==> !#[trigger] named(self.programs@, q, k, name@),
            decreases self.programs@.len() - p,
        {
            let gs = &self.programs[p].program.groups;
            let mut g: usize = 0;
            while g < gs.len()
                invariant
                    p < self.programs@.len(),
                    *gs == self.programs@[p as int].program.groups,
                    g <= gs@.len(),
                    forall|q: int, k: int|
                        q < p || (q == p && k < g) ==> !#[trigger] named(
                            self.programs@,
                            q,
                            k,
                            name@,
                        ),
                decreases gs@.len() - g,
            {
                if gs[g].name == *name {
                    assert(named(self.programs@, p as int, g as int, name@));
                    return true;
                }
                g = g + 1;
            }
            p = p + 1;
        }
        false
    }

    /// Whether rules without a proof may be linked (for experiments; counted per rule).
    pub fn allow_unproven(self, yes: bool) -> (r: Self)
        ensures
            r.linked() == self.linked(),
            r.wf() == self.wf(),
            r.lenient() == yes,
            r.plan() == self.plan(),
            r.checks() == self.checks(),
            r.hosts() == self.hosts(),
    {
        EngineBuilder { allow_unproven: yes, ..self }
    }

    /// The strategy (default: one `Local` phase over every linked group, in link order).
    pub fn strategy(self, s: Strategy) -> (r: Self)
        ensures
            r.linked() == self.linked(),
            r.wf() == self.wf(),
            r.lenient() == self.lenient(),
            r.plan() == Some(s),
            r.checks() == self.checks(),
            r.hosts() == self.hosts(),
    {
        let mut b = self;
        b.strategy = Some(s);
        b
    }

    /// Verification settings.
    pub fn verify(self, v: Verify) -> (r: Self)
        ensures
            r.linked() == self.linked(),
            r.wf() == self.wf(),
            r.lenient() == self.lenient(),
            r.plan() == self.plan(),
            r.checks() == v,
            r.hosts() == self.hosts(),
    {
        EngineBuilder { verify: v, ..self }
    }
}

/// A group with the indices its rules have among all.
struct Placed {
    name: String,
    rules: Vec<u32>,
}

/// The groups of linked programs, placed.
spec fn placed_ok(gs: Seq<Placed>, ps: Seq<Linked>, total: nat) -> bool {
    &&& forall|i: int, j: int|
        #![trigger gs[i].rules@[j]]
        0 <= i < gs.len() && 0 <= j < gs[i].rules@.len() ==> gs[i].rules@[j] < total
    &&& forall|i: int|
        #![trigger gs[i]]
        0 <= i < gs.len() ==> defines(ps, gs[i].name@)
    &&& forall|p: int, g: int, name: Seq<char>| #[trigger]
        named(ps, p, g, name) ==> has_name(gs, name)
    &&& forall|i: int|
        #![trigger gs[i]]
        0 <= i < gs.len() ==> gs[i].rules@ == group_of(ps, gs[i].name@)
}

/// A group has its name and its rules from some linked program.
spec fn taken_from(g: Placed, ps: Seq<Linked>) -> bool {
    exists|p: int, k: int| #[trigger] named(ps, p, k, g.name@) && g.rules@ == placed(ps, p, k)
}

/// Where a group of this name is, if it is placed.
fn place_of(gs: &Vec<Placed>, name: &String) -> (r: Option<usize>)
    ensures
        r matches Some(i) ==> i < gs@.len() && gs@[i as int].name@ == name@,
        r is None ==> forall|i: int| 0 <= i < gs@.len() ==> (#[trigger] gs@[i]).name@ != name@,
{
    let mut i: usize = 0;
    while i < gs.len()
        invariant
            i <= gs@.len(),
            forall|j: int| 0 <= j < i ==> (#[trigger] gs@[j]).name@ != name@,
        decreases gs@.len() - i,
    {
        if gs[i].name == *name {
            return Some(i);
        }
        i = i + 1;
    }
    None
}

/// The first rule of a linked program that is not vouched for.
fn first_open(l: &Linked) -> (r: Option<usize>)
    requires
        l.proven matches Some(v) ==> v@.len() == l.program.rules@.len(),
    ensures
        r matches Some(i) ==> i < l.program.rules@.len() && !vouched_at(*l, i as int) && forall|
            j: int,
        |
            0 <= j < i ==> #[trigger] vouched_at(*l, j),
        r is None ==> forall|i: int|
            0 <= i < l.program.rules@.len() ==> #[trigger] vouched_at(*l, i),
{
    match &l.proven {
        None => {
            if l.program.rules.len() > 0 {
                Some(0)
            } else {
                None
            }
        },
        Some(v) => {
            let mut i: usize = 0;
            while i < v.len()
                invariant
                    i <= v@.len() == l.program.rules@.len(),
                    l.proven == Some(*v),
                    forall|j: int| 0 <= j < i ==> #[trigger] vouched_at(*l, j),
                decreases v@.len() - i,
            {
                if !v[i] {
                    return Some(i);
                }
                i = i + 1;
            }
            None
        },
    }
}

/// A rule of a part of the programs is one of all.
proof fn lemma_all_rules_take(ps: Seq<Linked>, p: int)
    requires
        0 <= p <= ps.len(),
    ensures
        all_rules(ps.take(p)).len() <= all_rules(ps).len(),
    decreases ps.len() - p,
{
    if p < ps.len() {
        lemma_all_rules_take(ps, p + 1);
        assert(ps.take(p + 1).drop_last() =~= ps.take(p));
    } else {
        assert(ps.take(p) =~= ps);
    }
}

/// Places one group: its rules get the indices they have among all.
fn placed_rules(g: &Group, base: u32, total: u32) -> (r: Vec<u32>)
    requires
        forall|j: int|
            #![trigger g.rules@[j]]
            0 <= j < g.rules@.len() ==> base + g.rules@[j] < total,
    ensures
        r@.len() == g.rules@.len(),
        forall|j: int| 0 <= j < r@.len() ==> #[trigger] r@[j] == base + g.rules@[j],
{
    let mut r: Vec<u32> = Vec::with_capacity(g.rules.len());
    let mut j: usize = 0;
    while j < g.rules.len()
        invariant
            j <= g.rules@.len(),
            forall|k: int|
                #![trigger g.rules@[k]]
                0 <= k < g.rules@.len() ==> base + g.rules@[k] < total,
            r@.len() == j,
            forall|k: int| 0 <= k < j ==> #[trigger] r@[k] == base + g.rules@[k],
        decreases g.rules@.len() - j,
    {
        let x: u32 = g.rules[j];
        assert(g.rules@[j as int] == x);
        r.push(base + x);
        j = j + 1;
    }
    r
}

/// Checks the linked programs and places their groups.
fn place(ps: &Vec<Linked>, lenient: bool) -> (r: Result<Vec<Placed>, BuildError>)
    requires
        links_ok(ps@),
    ensures
        r matches Ok(gs) ==> placed_ok(gs@, ps@, all_rules(ps@).len()),
        r matches Ok(gs) ==> gs@.map_values(|g: Placed| g.name@) == all_names(
            ps@,
            ps@.len() as int,
        ),
        r matches Err(BuildError::Unproven { rule }) ==> open_first(ps@, rule@),
        r matches Err(BuildError::DuplicateGroup(g)) ==> repeated_first(ps@, g@, lenient),
        r is Ok ==> lenient || forall|p: int, i: int| !#[trigger] open_rule(ps@, p, i),
        r is Ok ==> forall|name: Seq<char>| !#[trigger] defined_twice(ps@, name),
        r matches Err(BuildError::Unproven { rule }) ==> !lenient && first_unvouched(ps@, rule@),
        r matches Err(BuildError::DuplicateGroup(g)) ==> defined_twice(ps@, g@),
        !(r matches Err(BuildError::UnknownGroup(_))),
{
    let mut gs: Vec<Placed> = Vec::new();
    let mut base: u32 = 0;
    let mut p: usize = 0;
    let ghost total = all_rules(ps@).len();
    assert(ps@.take(0) =~= Seq::<Linked>::empty());
    while p < ps.len()
        invariant
            links_ok(ps@),
            total == all_rules(ps@).len() <= MAX_RULES,
            p <= ps@.len(),
            base == all_rules(ps@.take(p as int)).len(),
            forall|i: int, j: int|
                #![trigger gs@[i].rules@[j]]
                0 <= i < gs@.len() && 0 <= j < gs@[i].rules@.len() ==> gs@[i].rules@[j] < total,
            sources(gs@, ps@, p as int, 0),
            gs@.map_values(|g: Placed| g.name@) == all_names(ps@, p as int),
            forall|q: int, k: int| q < p ==> !#[trigger] repeats(ps@, q, k),
            forall|i: int| 0 <= i < gs@.len() ==> taken_from(#[trigger] gs@[i], ps@),
            lenient || forall|q: int, i: int| q < p ==> !#[trigger] open_rule(ps@, q, i),
        decreases ps@.len() - p,
    {
        let l = &ps[p];
        assert(*l == ps@[p as int]);
        proof {
            lemma_all_rules_take(ps@, p + 1);
            assert(ps@.take(p + 1).drop_last() =~= ps@.take(p as int));
            assert(ps@.take(p + 1).last() == *l);
        }
        if !lenient {
            if let Some(i) = first_open(l) {
                proof {
                    assert(open_rule(ps@, p as int, i as int));
                }
                return Err(
                    BuildError::Unproven { rule: l.program.rules[i].name.as_str().to_string() },
                );
            }
        }
        let mut g: usize = 0;
        while g < l.program.groups.len()
            invariant
                links_ok(ps@),
                total == all_rules(ps@).len() <= MAX_RULES,
                p < ps@.len(),
                *l == ps@[p as int],
                g <= l.program.groups@.len(),
                base + l.program.rules@.len() <= total,
                forall|i: int, j: int|
                    #![trigger gs@[i].rules@[j]]
                    0 <= i < gs@.len() && 0 <= j < gs@[i].rules@.len() ==> gs@[i].rules@[j] < total,
                sources(gs@, ps@, p as int, g as int),
                gs@.map_values(|g: Placed| g.name@) == all_names(ps@, p as int)
                    + l.program.groups@.map_values(|g: Group| g.name@).take(g as int),
                forall|q: int, k: int|
                    before(q, k, p as int, g as int) ==> !#[trigger] repeats(ps@, q, k),
                lenient || forall|q: int, i: int| q <= p ==> !#[trigger] open_rule(ps@, q, i),
                base == all_rules(ps@.take(p as int)).len(),
                forall|i: int| 0 <= i < gs@.len() ==> taken_from(#[trigger] gs@[i], ps@),
            decreases l.program.groups@.len() - g,
        {
            let group = &l.program.groups[g];
            assert(*group == l.program.groups@[g as int]);
            assert(named(ps@, p as int, g as int, group.name@));
            if let Some(i) = place_of(&gs, &group.name) {
                proof {
                    assert(sourced(ps@, p as int, g as int, gs@[i as int].name@));
                    let (q, k) = choose|q: int, k: int| #[trigger]
                        named(ps@, q, k, gs@[i as int].name@) && before(q, k, p as int, g as int);
                    assert(defined_twice(ps@, group.name@));
                    assert(repeats(ps@, p as int, g as int));
                }
                return Err(BuildError::DuplicateGroup(group.name.as_str().to_string()));
            }
            proof {
                assert forall|j: int|
                    #![trigger group.rules@[j]]
                    0 <= j < group.rules@.len() implies base + group.rules@[j] < total by {
                    assert(l.program.groups@[g as int].rules@[j] < l.program.rules@.len());
                }
            }
            let rules = placed_rules(group, base, MAX_RULES as u32);
            let ghost gs0 = gs@;
            gs.push(Placed { name: group.name.as_str().to_string(), rules });
            proof {
                assert(!repeats(ps@, p as int, g as int)) by {
                    if repeats(ps@, p as int, g as int) {
                        let (q, k) = choose|q: int, k: int| #[trigger]
                            named(ps@, q, k, group.name@) && before(q, k, p as int, g as int);
                        assert(has_name(gs0, group.name@));
                    }
                }
                let ns = l.program.groups@.map_values(|g: Group| g.name@);
                assert(ns.take(g + 1) =~= ns.take(g as int).push(group.name@));
                assert(gs@.map_values(|g: Placed| g.name@) =~= gs0.map_values(
                    |g: Placed| g.name@,
                ).push(group.name@));
                assert(all_names(ps@, p as int) + ns.take(g + 1) =~= (all_names(ps@, p as int)
                    + ns.take(g as int)).push(group.name@));
                lemma_sources_push(gs0, gs@, ps@, p as int, g as int);
                assert(rules@ =~= placed(ps@, p as int, g as int));
                assert forall|i: int| 0 <= i < gs@.len() implies taken_from(#[trigger] gs@[i], ps@) by {
                    if i < gs0.len() {
                        assert(gs@[i] == gs0[i]);
                    } else {
                        assert(named(ps@, p as int, g as int, gs@[i].name@));
                    }
                }
                assert forall|i: int, j: int|
                    #![trigger gs@[i].rules@[j]]
                    0 <= i < gs@.len() && 0 <= j < gs@[i].rules@.len() implies gs@[i].rules@[j]
                    < total by {
                    if i < gs0.len() {
                        assert(gs@[i] == gs0[i]);
                        assert(gs0[i].rules@[j] < total);
                    } else {
                        assert(gs@[i].rules@ == rules@);
                        assert(base + group.rules@[j] < total);
                        assert(rules@[j] == base + group.rules@[j]);
                    }
                }
            }
            g = g + 1;
        }
        proof {
            lemma_sources_next(gs@, ps@, p as int);
            let ns = l.program.groups@.map_values(|g: Group| g.name@);
            assert(ns.take(ns.len() as int) =~= ns);
        }
        base = base + l.program.rules.len() as u32;
        p = p + 1;
    }
    proof {
        assert(ps@.take(p as int) =~= ps@);
        assert forall|i: int| #![trigger gs@[i]] 0 <= i < gs@.len() implies defines(
            ps@,
            gs@[i].name@,
        ) by {
            assert(sourced(ps@, p as int, 0, gs@[i].name@));
            let (q, k) = choose|q: int, k: int| #[trigger]
                named(ps@, q, k, gs@[i].name@) && before(q, k, p as int, 0);
            assert(named(ps@, q, k, gs@[i].name@));
        }
        assert forall|name: Seq<char>| !#[trigger] defined_twice(ps@, name) by {
            if defined_twice(ps@, name) {
                let (a, b, c, d) = choose|a: int, b: int, c: int, d: int|
                    #![trigger named(ps@, a, b, name), named(ps@, c, d, name)]
                    named(ps@, a, b, name) && named(ps@, c, d, name) && (a != c || b != d);
                assert(before(a, b, p as int, 0));
                assert(before(c, d, p as int, 0));
            }
        }
        assert forall|i: int| #![trigger gs@[i]] 0 <= i < gs@.len() implies gs@[i].rules@
            == group_of(ps@, gs@[i].name@) by {
            let name = gs@[i].name@;
            assert(taken_from(gs@[i], ps@));
            let (a, b) = choose|a: int, b: int| #[trigger]
                named(ps@, a, b, name) && gs@[i].rules@ == placed(ps@, a, b);
            let (c, d) = choose|c: int, d: int| #[trigger] named(ps@, c, d, name);
            assert(!defined_twice(ps@, name));
            assert(named(ps@, c, d, name));
        }
        assert forall|q: int, k: int, name: Seq<char>| #[trigger]
            named(ps@, q, k, name) implies has_name(gs@, name) by {
            assert(before(q, k, p as int, 0));
        }
    }
    Ok(gs)
}

/// Group `k` of program `q` comes before group `g` of program `p`.
pub open spec fn before(q: int, k: int, p: int, g: int) -> bool {
    q < p || (q == p && k < g)
}

/// A group before group `g` of program `p` has this name.
spec fn sourced(ps: Seq<Linked>, p: int, g: int, name: Seq<char>) -> bool {
    exists|q: int, k: int| #[trigger] named(ps, q, k, name) && before(q, k, p, g)
}

/// A group placed has this name.
spec fn has_name(gs: Seq<Placed>, name: Seq<char>) -> bool {
    exists|i: int| 0 <= i < gs.len() && (#[trigger] gs[i]).name@ == name
}

/// The groups placed are exactly those before group `g` of program `p`, and no two of those have
/// one name.
spec fn sources(gs: Seq<Placed>, ps: Seq<Linked>, p: int, g: int) -> bool {
    &&& forall|i: int| 0 <= i < gs.len() ==> sourced(ps, p, g, (#[trigger] gs[i]).name@)
    &&& forall|q: int, k: int, name: Seq<char>| #[trigger]
        named(ps, q, k, name) && before(q, k, p, g) ==> has_name(gs, name)
    &&& forall|a: int, b: int, c: int, d: int, name: Seq<char>|
        #![trigger named(ps, a, b, name), named(ps, c, d, name)]
        named(ps, a, b, name) && before(a, b, p, g) && named(ps, c, d, name) && before(
            c,
            d,
            p,
            g,
        ) ==> a == c && b == d
}

proof fn lemma_sources_push(
    gs: Seq<Placed>,
    more: Seq<Placed>,
    ps: Seq<Linked>,
    p: int,
    g: int,
)
    requires
        sources(gs, ps, p, g),
        0 <= p < ps.len(),
        0 <= g < ps[p].program.groups@.len(),
        more.len() == gs.len() + 1,
        forall|i: int| 0 <= i < gs.len() ==> #[trigger] more[i] == gs[i],
        more.last().name@ == ps[p].program.groups@[g].name@,
        forall|i: int| 0 <= i < gs.len() ==> (#[trigger] gs[i]).name@ != more.last().name@,
    ensures
        sources(more, ps, p, g + 1),
{
    let n0 = more.last().name@;
    assert(named(ps, p, g, n0));
    assert(before(p, g, p, g + 1));
    assert forall|i: int| 0 <= i < more.len() implies sourced(
        ps,
        p,
        g + 1,
        (#[trigger] more[i]).name@,
    ) by {
        if i < gs.len() {
            assert(more[i] == gs[i]);
            assert(sourced(ps, p, g, gs[i].name@));
            let (q, k) = choose|q: int, k: int| #[trigger]
                named(ps, q, k, gs[i].name@) && before(q, k, p, g);
            assert(named(ps, q, k, more[i].name@) && before(q, k, p, g + 1));
        } else {
            assert(named(ps, p, g, more[i].name@));
        }
    }
    assert forall|q: int, k: int, name: Seq<char>| #[trigger]
        named(ps, q, k, name) && before(q, k, p, g + 1) implies has_name(more, name) by {
        if before(q, k, p, g) {
            assert(has_name(gs, name));
            let i = choose|i: int| 0 <= i < gs.len() && (#[trigger] gs[i]).name@ == name;
            assert(more[i] == gs[i]);
        } else {
            assert(more[gs.len() as int].name@ == name);
        }
    }
    assert forall|a: int, b: int, c: int, d: int, name: Seq<char>|
        #![trigger named(ps, a, b, name), named(ps, c, d, name)]
        named(ps, a, b, name) && before(a, b, p, g + 1) && named(ps, c, d, name) && before(
            c,
            d,
            p,
            g + 1,
        ) implies a == c && b == d by {
        if before(a, b, p, g) || before(c, d, p, g) {
            assert(has_name(gs, name));
            let i = choose|i: int| 0 <= i < gs.len() && (#[trigger] gs[i]).name@ == name;
            assert(gs[i].name@ == name);
            assert(name != n0);
            assert(before(c, d, p, g));
            assert(before(a, b, p, g));
        }
    }
}

proof fn lemma_sources_next(gs: Seq<Placed>, ps: Seq<Linked>, p: int)
    requires
        0 <= p < ps.len(),
        sources(gs, ps, p, ps[p].program.groups@.len() as int),
    ensures
        sources(gs, ps, p + 1, 0),
{
    let g = ps[p].program.groups@.len() as int;
    assert forall|i: int| 0 <= i < gs.len() implies sourced(
        ps,
        p + 1,
        0,
        (#[trigger] gs[i]).name@,
    ) by {
        assert(sourced(ps, p, g, gs[i].name@));
        let (q, k) = choose|q: int, k: int| #[trigger]
            named(ps, q, k, gs[i].name@) && before(q, k, p, g);
        assert(named(ps, q, k, gs[i].name@) && before(q, k, p + 1, 0));
    }
    assert forall|q: int, k: int, name: Seq<char>| #[trigger]
        named(ps, q, k, name) && before(q, k, p + 1, 0) implies has_name(gs, name) by {
        assert(before(q, k, p, g));
    }
    assert forall|a: int, b: int, c: int, d: int, name: Seq<char>|
        #![trigger named(ps, a, b, name), named(ps, c, d, name)]
        named(ps, a, b, name) && before(a, b, p + 1, 0) && named(ps, c, d, name) && before(
            c,
            d,
            p + 1,
            0,
        ) implies a == c && b == d by {
        assert(before(a, b, p, g));
        assert(before(c, d, p, g));
    }
}

/// Every rule of the order is there.
spec fn order_ok(order: Seq<u32>, total: nat) -> bool {
    forall|i: int| 0 <= i < order.len() ==> #[trigger] order[i] < total
}

/// A group that is not defined, if the list names one: the first.
spec fn lists_unknown(groups: Seq<String>, ps: Seq<Linked>, name: Seq<char>) -> bool {
    exists|i: int|
        0 <= i < groups.len() && (#[trigger] groups[i])@ == name && !defines(ps, name) && forall|
            j: int,
        |
            0 <= j < i ==> defines(ps, (#[trigger] groups[j])@)
}

/// The rules of a rule phase in order: only directed rules (an identity that does not decrease
/// the order belongs to a search), and those that hold for floats as values only when asked for.
fn phase_order(
    names: &Vec<String>,
    gs: &Vec<Placed>,
    rules: &Vec<Rule>,
    float_values: bool,
    Ghost(ps): Ghost<Seq<Linked>>,
) -> (r: Result<Vec<u32>, BuildError>)
    requires
        placed_ok(gs@, ps, rules@.len()),
    ensures
        r matches Ok(order) ==> order_ok(order@, rules@.len()) && order@ == order_of(
            ps,
            rules@,
            float_values,
            names@,
            names@.len() as int,
        ) && forall|i: int|
            0 <= i < names@.len() ==> defines(ps, (#[trigger] names@[i])@),
        r matches Err(e) ==> (e matches BuildError::UnknownGroup(g) && lists_unknown(
            names@,
            ps,
            g@,
        )),
{
    let mut order: Vec<u32> = Vec::new();
    let mut i: usize = 0;
    while i < names.len()
        invariant
            placed_ok(gs@, ps, rules@.len()),
            i <= names@.len(),
            order_ok(order@, rules@.len()),
            order@ == order_of(ps, rules@, float_values, names@, i as int),
            forall|j: int| 0 <= j < i ==> defines(ps, (#[trigger] names@[j])@),
        decreases names@.len() - i,
    {
        let name = &names[i];
        assert(*name == names@[i as int]);
        let at = match place_of(gs, name) {
            Some(at) => at,
            None => {
                proof {
                    if defines(ps, name@) {
                        let (p, g) = choose|p: int, g: int| #[trigger] named(ps, p, g, name@);
                        assert(has_name(gs@, name@));
                    }
                    assert(lists_unknown(names@, ps, name@));
                }
                return Err(BuildError::UnknownGroup(name.as_str().to_string()));
            },
        };
        assert(defines(ps, gs@[at as int].name@));
        let mut j: usize = 0;
        let ghost order0 = order@;
        let ghost list = gs@[at as int].rules@;
        assert(list.take(0) =~= Seq::<u32>::empty());
        assert(order@ =~= order0 + running(rules@, float_values, list.take(0)));
        while j < gs[at].rules.len()
            invariant
                list == gs@[at as int].rules@,
                order@ == order0 + running(rules@, float_values, list.take(j as int)),
                placed_ok(gs@, ps, rules@.len()),
                at < gs@.len(),
                j <= gs@[at as int].rules@.len(),
                order_ok(order@, rules@.len()),
            decreases gs@[at as int].rules@.len() - j,
        {
            let r: u32 = gs[at].rules[j];
            assert(gs@[at as int].rules@[j as int] == r);
            let rule = &rules[r as usize];
            if rule.decreasing && (!rule.float_values || float_values) {
                order.push(r);
            }
            proof {
                let t = list.take(j + 1);
                assert(t.drop_last() =~= list.take(j as int));
                assert(t.last() == r);
                assert(order@ =~= order0 + running(rules@, float_values, t));
            }
            j = j + 1;
        }
        assert(list.take(j as int) =~= list);
        i = i + 1;
    }
    Ok(order)
}

/// Takes the rules of linked programs out, in link order, with their flags.
fn gather(ps: Vec<Linked>) -> (r: (Vec<Rule>, Vec<bool>))
    requires
        links_ok(ps@),
    ensures
        r.0@ == all_rules(ps@),
        r.1@ == all_proven(ps@),
        r.1@.len() == r.0@.len(),
        forall|i: int| 0 <= i < r.0@.len() ==> meaning::rule_ok(#[trigger] r.0@[i]),
{
    let ghost ps0 = ps@;
    let mut ps = ps;
    let mut rules: Vec<Rule> = Vec::new();
    let mut proven: Vec<bool> = Vec::new();
    let ghost mut k: int = 0;
    assert(ps0.take(0) =~= Seq::<Linked>::empty());
    assert(ps0.skip(0) =~= ps0);
    while ps.len() > 0
        invariant
            links_ok(ps0),
            0 <= k <= ps0.len(),
            ps@ == ps0.skip(k),
            rules@ == all_rules(ps0.take(k)),
            proven@ == all_proven(ps0.take(k)),
            proven@.len() == rules@.len(),
            forall|i: int| 0 <= i < rules@.len() ==> meaning::rule_ok(#[trigger] rules@[i]),
        decreases ps@.len(),
    {
        let l = ps.remove(0);
        proof {
            assert(l == ps0[k]);
            assert(ps@ =~= ps0.skip(k + 1));
            assert(ps0.take(k + 1).drop_last() =~= ps0.take(k));
            assert(ps0.take(k + 1).last() == l);
        }
        let Linked { program, proven: flags } = l;
        let RuleProgram { rules: own, groups: _ } = program;
        let ghost flags0 = proven@;
        let n: usize = own.len();
        let mut i: usize = 0;
        while i < n
            invariant
                i <= n,
                flags matches Some(v) ==> v@.len() == n,
                proven@ == flags0 + Seq::new(
                    i as nat,
                    |j: int| (flags matches Some(v) && v@[j]),
                ),
            decreases n - i,
        {
            let b = match &flags {
                Some(v) => v[i],
                None => false,
            };
            proven.push(b);
            i = i + 1;
            assert(proven@ =~= flags0 + Seq::new(
                i as nat,
                |j: int| (flags matches Some(v) && v@[j]),
            ));
        }
        let ghost rules0 = rules@;
        let mut own = own;
        let ghost owned = own@;
        rules.append(&mut own);
        proof {
            assert(all_proven(ps0.take(k + 1)) =~= proven@);
            assert forall|j: int| 0 <= j < rules@.len() implies meaning::rule_ok(#[trigger] rules@[j]) by {
                if j < rules0.len() {
                    assert(rules@[j] == rules0[j]);
                } else {
                    assert(rules@[j] == owned[j - rules0.len()]);
                    assert(program_ok(ps0[k].program));
                    assert(meaning::rule_ok(ps0[k].program.rules@[j - rules0.len()]));
                }
            }
            k = k + 1;
        }
    }
    assert(ps0.take(k) =~= ps0);
    (rules, proven)
}

/// One rule phase over every group, in order.
fn default_phases(gs: &Vec<Placed>) -> (r: Vec<Phase>)
    ensures
        r@.len() == 1,
        r@[0] matches Phase::Local { groups } && groups@.len() == gs@.len() && forall|i: int|
            0 <= i < gs@.len() ==> (#[trigger] groups@[i])@ == gs@[i].name@,
{
    let mut groups: Vec<String> = Vec::with_capacity(gs.len());
    let mut i: usize = 0;
    while i < gs.len()
        invariant
            i <= gs@.len(),
            groups@.len() == i,
            forall|j: int| 0 <= j < i ==> (#[trigger] groups@[j])@ == gs@[j].name@,
        decreases gs@.len() - i,
    {
        groups.push(gs[i].name.as_str().to_string());
        i = i + 1;
    }
    vec![Phase::Local { groups }]
}

/// The pass of a phase that is no rule phase.
pub open spec fn pass_of(p: Phase) -> Option<PassKind> {
    match p {
        Phase::Local { .. } => None,
        Phase::FactFold => Some(PassKind::FactFold),
        Phase::Linear => Some(PassKind::Linear),
        Phase::Bitwise => Some(PassKind::Bitwise),
        Phase::Xor => Some(PassKind::Xor),
        Phase::Compares => Some(PassKind::Compares),
        Phase::Casts => Some(PassKind::Casts),
        Phase::Demanded => Some(PassKind::Demanded),
        Phase::LinearMba => Some(PassKind::LinearMba),
        Phase::Shuffle => Some(PassKind::Shuffle),
        Phase::Invert => Some(PassKind::Invert),
    }
}

/// The pass of a phase that is no rule phase, and its number in the engine's hash.
fn pass_kind(p: &Phase) -> (r: (PassKind, u64))
    requires
        pass_of(*p) is Some,
    ensures
        pass_of(*p) == Some(r.0),
{
    match p {
        Phase::FactFold => (PassKind::FactFold, 2),
        Phase::Linear => (PassKind::Linear, 3),
        Phase::Bitwise => (PassKind::Bitwise, 4),
        Phase::Xor => (PassKind::Xor, 5),
        Phase::Compares => (PassKind::Compares, 6),
        Phase::Casts => (PassKind::Casts, 7),
        Phase::Demanded => (PassKind::Demanded, 8),
        Phase::LinearMba => (PassKind::LinearMba, 9),
        Phase::Shuffle => (PassKind::Shuffle, 10),
        _ => (PassKind::Invert, 12),
    }
}

/// The engine's phases are those of the strategy.
pub open spec fn phases_as(impls: Seq<PhaseImpl>, phases: Seq<Phase>) -> bool {
    &&& impls.len() == phases.len()
    &&& forall|p: int|
        #![trigger impls[p]]
        0 <= p < impls.len() ==> match impls[p] {
            PhaseImpl::Local(_, _) => phases[p] is Local,
            PhaseImpl::Pass(k) => pass_of(phases[p]) == Some(k),
        }
}

impl Engine {
    /// The host rewrites linked.
    pub open(crate) spec fn hosts(&self) -> Seq<HostLink> {
        self.inner.host@
    }

    /// The rules linked.
    pub open(crate) spec fn rules(&self) -> Seq<Rule> {
        self.inner.rules@
    }

    /// Whether each rule is vouched for.
    pub open(crate) spec fn flags(&self) -> Seq<bool> {
        self.inner.proven@
    }

    /// The strategy.
    pub open(crate) spec fn plan(&self) -> Strategy {
        self.inner.strategy
    }

    /// The phases run are those of the strategy.
    pub open(crate) spec fn follows_plan(&self) -> bool {
        phases_as(self.inner.phases@, self.inner.strategy.phases@)
    }

    /// Each rule phase runs just the directed rules of its groups, in order.
    pub open(crate) spec fn runs_groups(&self, ps: Seq<Linked>) -> bool {
        nets_as(
            self.inner.phases@,
            self.inner.strategy.phases@,
            ps,
            self.inner.rules@,
            self.inner.strategy.float_values,
        )
    }

    /// The verification settings.
    pub open(crate) spec fn checks(&self) -> Verify {
        self.inner.verify
    }

    /// A builder.
    pub fn builder() -> (r: EngineBuilder)
        ensures
            r.wf(),
            r.linked().len() == 0,
            r.hosts().len() == 0,
            !r.lenient(),
            r.plan() is None,
            r.checks() == (Verify {
                sampled_points: 0,
                unproven_points: 16,
                tripwire: false,
                termination: false,
            }),
    {
        EngineBuilder::fresh()
    }

    /// The strategy.
    pub fn strategy(&self) -> (r: &Strategy)
        ensures
            *r == self.plan(),
    {
        &self.inner.strategy
    }
}

impl EngineBuilder {
    /// Links everything.
    pub fn build(self) -> (r: Result<Engine, BuildError>)
        requires
            self.wf(),
        ensures
            r matches Ok(e) ==> e.wf() && e.rules() == all_rules(self.linked()) && e.flags()
                == all_proven(self.linked()) && e.checks() == self.checks() && e.follows_plan()
                && e.runs_groups(self.linked()) && (
            self.plan() matches Some(s) ==> e.plan() == s),
            // Without a strategy: one rule phase over every group.
            r matches Ok(e) ==> self.plan() is None ==> e.plan().name@ == "default"@
                && e.plan().phases@.len() == 1 && (e.plan().phases@[0] matches Phase::Local {
                groups,
            } && groups@.map_values(|g: String| g@) == all_names(
                self.linked(),
                self.linked().len() as int,
            )) && forall|name: Seq<char>| #[trigger]
                defines(self.linked(), name) ==> names_group(e.plan(), name),
            r is Ok ==> self.lenient() || forall|p: int, i: int|
                !#[trigger] open_rule(self.linked(), p, i),
            r is Ok ==> forall|name: Seq<char>| !#[trigger] defined_twice(self.linked(), name),
            r matches Ok(e) ==> forall|name: Seq<char>| #[trigger]
                names_group(e.plan(), name) ==> defines(self.linked(), name),
            r matches Ok(e) ==> e.hosts() == self.hosts() && (self.lenient() || all_trusted(
                self.hosts(),
            )),
            r matches Err(BuildError::Unproven { rule }) ==> !self.lenient() && (all_trusted(
                self.hosts(),
            ) ==> first_unvouched(self.linked(), rule@)),
            !self.lenient() && !all_trusted(self.hosts()) ==> r matches Err(
                BuildError::Unproven { .. },
            ),
            // The first fault in link order is told: a rule of a program before a group of it.
            r matches Err(BuildError::Unproven { rule }) ==> all_trusted(self.hosts())
                ==> open_first(self.linked(), rule@),
            r matches Err(BuildError::DuplicateGroup(g)) ==> defined_twice(self.linked(), g@)
                && repeated_first(self.linked(), g@, self.lenient()),
            // A strategy is looked at once all links.
            r matches Err(BuildError::UnknownGroup(g)) ==> (self.lenient() || forall|p: int, i: int|
                !#[trigger] open_rule(self.linked(), p, i)) && (forall|name: Seq<char>|
                !#[trigger] defined_twice(self.linked(), name)),
            r matches Err(BuildError::UnknownGroup(g)) ==> !defines(self.linked(), g@) && (
            self.plan() matches Some(s) && names_group(s, g@) && unknown_first(
                s,
                self.linked(),
                g@,
            )),
    {
        let EngineBuilder { programs, strategy, verify, allow_unproven, host } = self;
        let ghost ps = programs@;
        if !allow_unproven {
            if let Some(i) = first_untrusted(&host) {
                return Err(BuildError::Unproven { rule: host[i].op.name().to_string() });
            }
        }
        let gs = place(&programs, allow_unproven)?;
        let (rules, proven) = gather(programs);
        let strategy = match strategy {
            Some(s) => s,
            None => Strategy::new("default", default_phases(&gs)),
        };
        let mut phases: Vec<PhaseImpl> = Vec::new();
        let mut id: u64 = combine(0x656e_6769_6e65, strategy.max_rounds as u64);
        // The commit policy enters only when it is not the default.
        if strategy.sharing != Sharing::Roots || strategy.max_region != REGION_CAP {
            let sharing: u64 = match strategy.sharing {
                Sharing::Roots => 0,
                Sharing::Ignored => 1,
            };
            id = combine(
                combine(combine(id, 0x7368_6172), sharing),
                strategy.max_region as u64,
            );
        }
        let mut p: usize = 0;
        while p < strategy.phases.len()
            invariant
                p <= strategy.phases@.len(),
                phases@.len() == p,
                ps == self.linked(),
                placed_ok(gs@, ps, rules@.len()),
                proven@.len() == rules@.len(),
                forall|i: int| 0 <= i < rules@.len() ==> meaning::rule_ok(#[trigger] rules@[i]),
                phases_as(phases@, strategy.phases@.take(p as int)),
                nets_as(
                    phases@,
                    strategy.phases@.take(p as int),
                    ps,
                    rules@,
                    strategy.float_values,
                ),
                host@.len() <= MAX_RULES,
                self.lenient() || all_trusted(self.hosts()),
                forall|q: int|
                    #![trigger phases@[q]]
                    0 <= q < p ==> (phases@[q] matches PhaseImpl::Local(net, hs) ==> net.wf(
                        rules@.len(),
                    ) && link::hosts_listed(hs@, host@.len())),
                forall|q: int, g: int|
                    #![trigger names_at(strategy, q, g)]
                    q < p && names_at(strategy, q, g) ==> defines(ps, group_name(strategy, q, g)),
                match self.plan() {
                    Some(s) => s == strategy,
                    None => strategy.name@ == "default"@ && strategy.phases@.len() == 1 && (strategy.phases@[0]
                        matches Phase::Local { groups } && groups@.len() == gs@.len() && forall|
                        i: int,
                    |
                        0 <= i < gs@.len() ==> (#[trigger] groups@[i])@ == gs@[i].name@),
                },
                gs@.map_values(|g: Placed| g.name@) == all_names(ps, ps.len() as int),
                self.lenient() || forall|p: int, i: int| !#[trigger] open_rule(ps, p, i),
                forall|name: Seq<char>| !#[trigger] defined_twice(ps, name),
            decreases strategy.phases@.len() - p,
        {
            let phase = &strategy.phases[p];
            assert(*phase == strategy.phases@[p as int]);
            let ghost phases0 = phases@;
            match phase {
                Phase::Local { groups: names } => {
                    let order = match phase_order(
                        names,
                        &gs,
                        &rules,
                        strategy.float_values,
                        Ghost(ps),
                    ) {
                        Ok(order) => order,
                        Err(e) => {
                            proof {
                                lemma_unknown(self.plan(), strategy, gs@, ps, p as int, names@, e);
                            }
                            return Err(e);
                        },
                    };
                    id = combine(id, 1);
                    let mut i: usize = 0;
                    while i < order.len()
                        invariant
                            i <= order@.len(),
                            order_ok(order@, rules@.len()),
                            proven@.len() == rules@.len(),
                        decreases order@.len() - i,
                    {
                        let r: usize = order[i] as usize;
                        assert(order@[i as int] < rules@.len());
                        let rid = rules[r].id;
                        id = combine(combine(id, rid.hi), rid.lo);
                        id = combine(
                            id,
                            if proven[r] {
                                1
                            } else {
                                0
                            },
                        );
                        i = i + 1;
                    }
                    let hs = phase_hosts(names, &host);
                    id = host_hash(id, &hs, &host);
                    phases.push(PhaseImpl::Local(DispatchNet::new(&rules, &order), hs));
                },
                _ => {
                    let (kind, number) = pass_kind(phase);
                    id = combine(id, number);
                    phases.push(PhaseImpl::Pass(kind));
                },
            }
            proof {
                let t0 = strategy.phases@.take(p as int);
                let t = strategy.phases@.take(p + 1);
                assert forall|q: int| #![trigger phases@[q]] 0 <= q < phases@.len() implies (
                match phases@[q] {
                    PhaseImpl::Local(_, _) => t[q] is Local,
                    PhaseImpl::Pass(k) => pass_of(t[q]) == Some(k),
                }) && (match (phases@[q], t[q]) {
                    (PhaseImpl::Local(net, _), Phase::Local { groups }) => dispatch::net_of(
                        net,
                        rules@,
                        order_of(
                            ps,
                            rules@,
                            strategy.float_values,
                            groups@,
                            groups@.len() as int,
                        ),
                    ),
                    _ => true,
                }) && (phases@[q] matches PhaseImpl::Local(net, hs) ==> net.wf(rules@.len())
                    && link::hosts_listed(hs@, host@.len())) by {
                    if q < p {
                        assert(phases@[q] == phases0[q]);
                        assert(t[q] == t0[q]);
                    }
                }
            }
            p = p + 1;
        }
        assert(strategy.phases@.take(p as int) =~= strategy.phases@);
        proof {
            if self.plan() is None {
                if let Phase::Local { groups } = strategy.phases@[0] {
                    assert(groups@.map_values(|g: String| g@) =~= gs@.map_values(
                        |g: Placed| g.name@,
                    ));
                }
                assert forall|name: Seq<char>| #[trigger] defines(ps, name) implies names_group(
                    strategy,
                    name,
                ) by {
                    let (q, g) = choose|q: int, g: int| #[trigger] named(ps, q, g, name);
                    assert(has_name(gs@, name));
                    let i = choose|i: int| 0 <= i < gs@.len() && (#[trigger] gs@[i]).name@ == name;
                    assert(names_at(strategy, 0, i) && group_name(strategy, 0, i) == name);
                }
            }
        }
        id = combine(id, verify.sampled_points as u64);
        id = combine(id, verify.unproven_points as u64);
        id = combine(
            id,
            if verify.tripwire {
                1
            } else {
                0
            },
        );
        id = combine(
            id,
            if verify.termination {
                1
            } else {
                0
            },
        );
        let hi: u128 = id as u128;
        let lo: u128 = combine(id, 0x9e37) as u128;
        let forms = search();
        let inner = Inner {
            rules,
            proven,
            strategy,
            phases,
            verify,
            id: (hi << 64u128) | lo,
            forms,
            host,
        };
        Ok(Engine { inner: Arc::new(inner) })
    }
}

impl Engine {
    /// An engine without rules.
    pub(crate) fn bare() -> (r: Engine)
        ensures
            r.wf(),
            r.rules().len() == 0,
    {
        let b = Engine::builder();
        proof {
            let ps = b.linked();
            assert(all_rules(ps).len() == 0);
            assert(forall|p: int, i: int| !#[trigger] open_rule(ps, p, i));
            assert(forall|p: int, g: int, name: Seq<char>| !#[trigger] named(ps, p, g, name));
        }
        b.build().unwrap()
    }

    /// The built-in rules under the standard strategy.
    pub fn standard() -> (r: Engine)
        ensures
            r.wf(),
            r.sound(),
            r.follows_plan(),
            exists|l: Linked| #[trigger]
                core_link(l) && r.rules() == l.program.rules@ && r.runs_groups(seq![l]),
            r.hosts().len() == 0,
            r.plan().name@ == "standard"@,
            r.plan().phases@.len() == 10,
            r.plan().phases@[0] is FactFold,
            strategy::core_rules(r.plan().phases@[1]),
            r.plan().phases@[2] is Linear,
            r.plan().phases@[3] is Xor,
            r.plan().phases@[4] is Casts,
            r.plan().phases@[5] is Invert,
            r.plan().phases@[6] is Compares,
            r.plan().phases@[7] is Bitwise,
            r.plan().phases@[8] is Demanded,
            strategy::core_rules(r.plan().phases@[9]),
            r.plan().max_rounds == 4,
            !r.plan().float_values,
            r.plan().sharing == Sharing::Roots,
            r.plan().max_region == REGION_CAP,
            r.checks() == (Verify {
                sampled_points: 0,
                unproven_points: 16,
                tripwire: false,
                termination: false,
            }),
    {
        let b = Engine::builder();
        proof {
            assert(all_rules(b.linked()).len() == 0);
        }
        let b = b.builtin().strategy(Strategy::standard());
        proof {
            lemma_core_links(b.linked(), b.plan()->0);
        }
        let ghost l = b.linked()[0];
        assert(b.linked().drop_last() =~= Seq::<Linked>::empty());
        let e = b.build().unwrap();
        proof {
            assert(e.rules() =~= l.program.rules@);
            assert(b.linked() =~= seq![l]);
            assert forall|i: int| 0 <= i < e.rules().len() implies meaning::rule_sound(
                #[trigger] e.rules()[i],
            ) by {
                assert(e.rules()[i] == l.program.rules@[i]);
            }
        }
        e
    }
}

/// Nothing stands in the way of linking the built-in rules alone.
proof fn lemma_core_links(ps: Seq<Linked>, s: Strategy)
    requires
        ps.len() == 1,
        core_link(ps[0]),
        forall|p: int|
            0 <= p < s.phases@.len() ==> (#[trigger] s.phases@[p] is Local ==> strategy::core_rules(
                s.phases@[p],
            )),
    ensures
        forall|name: Seq<char>| !#[trigger] unvouched(ps, name),
        forall|name: Seq<char>| !#[trigger] defined_twice(ps, name),
        forall|name: Seq<char>| #[trigger] names_group(s, name) ==> defines(ps, name),
{
    assert forall|p: int, i: int| !#[trigger] open_rule(ps, p, i) by {
        if open_rule(ps, p, i) {
            assert(vouched_at(ps[p], i));
        }
    }
    corpus::lemma_core_names();
    assert(named(ps, 0, 0, "core.bitwise"@));
    assert(named(ps, 0, 1, "core.arith"@));
    assert(named(ps, 0, 2, "core.compare"@));
    assert(named(ps, 0, 3, "core.casts"@));
    assert(named(ps, 0, 4, "core.shift"@));
    assert forall|name: Seq<char>| #[trigger] names_group(s, name) implies defines(ps, name) by {
        let (p, g) = choose|p: int, g: int| names_at(s, p, g) && group_name(s, p, g) == name;
        let _ = s.phases@[p];
    }
}

/// An unknown group is one that the strategy names.
proof fn lemma_unknown(
    plan: Option<Strategy>,
    s: Strategy,
    gs: Seq<Placed>,
    ps: Seq<Linked>,
    p: int,
    names: Seq<String>,
    e: BuildError,
)
    requires
        0 <= p < s.phases@.len(),
        s.phases@[p] matches Phase::Local { groups } && groups@ == names,
        e matches BuildError::UnknownGroup(g) && lists_unknown(names, ps, g@),
        forall|i: int| #![trigger gs[i]] 0 <= i < gs.len() ==> defines(ps, gs[i].name@),
        forall|q: int, g: int|
            #![trigger names_at(s, q, g)]
            q < p && names_at(s, q, g) ==> defines(ps, group_name(s, q, g)),
        match plan {
            Some(q) => q == s,
            None => s.phases@.len() == 1 && (s.phases@[0] matches Phase::Local { groups }
                && groups@.len() == gs.len() && forall|i: int|
                0 <= i < gs.len() ==> (#[trigger] groups@[i])@ == gs[i].name@),
        },
    ensures
        e matches BuildError::UnknownGroup(g) && !defines(ps, g@) && (plan matches Some(q)
            && names_group(q, g@) && unknown_first(q, ps, g@)),
{
    if let BuildError::UnknownGroup(g) = e {
        let i = choose|i: int|
            0 <= i < names.len() && (#[trigger] names[i])@ == g@ && !defines(ps, g@) && forall|
                j: int,
            |
                0 <= j < i ==> defines(ps, (#[trigger] names[j])@);
        assert(names_at(s, p, i) && group_name(s, p, i) == g@);
        assert forall|q: int, k: int|
            before(q, k, p, i) && #[trigger] names_at(s, q, k) implies defines(
            ps,
            group_name(s, q, k),
        ) by {
            if q == p {
                let _ = names[k];
            }
        }
        if plan is None {
            assert(names[i]@ == gs[i].name@);
            assert(defines(ps, gs[i].name@));
        }
    }
}

} // verus!
