//! Strategies: which phases run, in which order, how often, and how rewrites are checked.

use vstd::prelude::*;
use crate::rules::corpus;
use crate::rules::corpus::group_names;

verus! {

/// One step of a [`Strategy`].
#[derive(Debug)]
#[non_exhaustive]
pub enum Phase {
    /// Directed rules of the named groups (in this order), applied bottom-up to a fixpoint.
    /// Every rule strictly decreases the termination order, so the phase terminates.
    Local {
        /// Group names, e.g. `core.bitwise`.
        groups: Vec<String>,
    },
    /// Nodes whose facts pin one value become that constant (subject to the host's
    /// [`fold_known`](crate::engine::stats::Hooks::fold_known)).
    FactFold,
    /// Linear sums over the integers modulo a power of two are collected and re-emitted in
    /// canonical form when that is smaller: cancels additive masking.
    Linear,
    /// Pure bitwise functions of at most three atoms become a minimum-size form of their truth
    /// table when that is smaller.
    Bitwise,
    /// Xor sums of masked atoms are collected and re-emitted canonically when that is smaller:
    /// cancels boolean masking.
    Xor,
    /// Boolean combinations of comparisons of one operand pair, or of one operand against
    /// constants, become a single comparison, a range check, or a constant when that is smaller.
    Compares,
    /// Extracts and truncations are pushed through arithmetic, bitwise operations, constant
    /// shifts, extensions and `concat` when the result is smaller.
    Casts,
    /// Operands observed only through some bits (a mask, an extract, a constant shift) are
    /// simplified under those bits when the result is smaller.
    Demanded,
    /// Linear combinations of bitwise functions of at most six atoms (linear MBA) become an
    /// affine form or a small combination of minimum-form bitwise functions when that is
    /// smaller; the form is determined by the values at the all-zero/all-ones corners.
    LinearMba,
    /// Values assembled from bit slices of other values (masks, shifts, rotations, extensions,
    /// extracts, `concat`, `bswap`, and disjoint `| ^ +`) become the source, a rotation, a byte
    /// swap, or a `concat` of slices when that is smaller.
    Shuffle,
    /// Equalities through invertible maps: `f(x) == f(y)` becomes `x == y` and `f(x) == c`
    /// becomes an equality of `x` with the preimage of `c` (or a constant, when `c` has none)
    /// for every layer `f` proved injective with its other operands fixed, and `a | b == 0` is
    /// solved leaf by leaf. Orderings are left alone. Like a rule, it commits whether or not
    /// the operands are shared.
    Invert,
}

/// How the normal-form passes weigh sharing when they decide whether a rewrite makes the DAG
/// smaller (see [`Strategy::sharing`]).
#[derive(Clone, Copy, Debug, PartialEq, Eq, Hash, Structural)]
#[non_exhaustive]
pub enum Sharing {
    /// Against the DAG of every root of the call: a node another root still uses is not
    /// freed by rewriting its user. Results are the smallest, but a decision depends on which
    /// roots a call has, so one that sharing made is decided again for every root, and not
    /// memoized; a call over every value of a function costs time growing with its size.
    Roots,
    /// As if the region below each node were used by that node alone: decisions depend on the
    /// node only, so every result is final and memoized, and each node is decided once per
    /// context. A rewrite may then keep a subterm alive that another root still uses. For hosts
    /// that simplify every value of a function (a compiler) and keep their own use counts.
    Ignored,
}

impl Default for Sharing {
    fn default() -> (r: Self)
        ensures
            r == Sharing::Roots,
    {
        Sharing::Roots
    }
}

/// The most nodes the commit rule examines on either side, unless a strategy says otherwise.
pub const REGION_CAP: u32 = 1024;

/// Named policy: phases run in order within a round, and rounds repeat until nothing changes or
/// `max_rounds` is reached.
#[derive(Debug)]
#[non_exhaustive]
pub struct Strategy {
    /// A name for diagnostics.
    pub name: String,
    /// The phases of a round.
    pub phases: Vec<Phase>,
    /// The most rounds (at least 1).
    pub max_rounds: u8,
    /// Whether rules marked as holding for floats as values apply: every NaN counts as one
    /// value there. Off by default.
    pub float_values: bool,
    /// How the passes weigh sharing in their commit rule. [`Sharing::Roots`] by default.
    pub sharing: Sharing,
    /// The most nodes the passes' commit rule examines below a node and in a candidate, and
    /// (up to 256) the demanded-bits pass visits for one operand: the per-node work of the
    /// passes. A region cut short counts fewer nodes freed, so fewer rewrites commit; never a
    /// wrong one. 1024 by default.
    pub max_region: u32,
}

/// Copies a list of names.
fn names(v: &Vec<String>) -> (r: Vec<String>)
    ensures
        r@.len() == v@.len(),
        forall|i: int| 0 <= i < v@.len() ==> (#[trigger] r@[i])@ == v@[i]@,
{
    let mut r: Vec<String> = Vec::with_capacity(v.len());
    let mut i: usize = 0;
    while i < v.len()
        invariant
            i <= v.len(),
            r@.len() == i,
            forall|j: int| 0 <= j < i ==> (#[trigger] r@[j])@ == v@[j]@,
        decreases v.len() - i,
    {
        r.push(v[i].as_str().to_string());
        i = i + 1;
    }
    r
}

/// Whether a phase is a rule phase over `groups`.
pub open spec fn rules_of(p: Phase, groups: Seq<String>) -> bool {
    p matches Phase::Local { groups: g } && g@.len() == groups.len() && forall|i: int|
        0 <= i < groups.len() ==> (#[trigger] g@[i])@ == groups[i]@
}

/// Whether a phase is a rule phase over the groups of the built-in rules.
pub open spec fn core_rules(p: Phase) -> bool {
    p matches Phase::Local { groups: g } && corpus::is_core(g@)
}

/// The names of a rule phase's groups after `more` was added.
pub open spec fn extended(g: Seq<String>, more: Seq<&str>, r: Seq<String>) -> bool {
    &&& r.len() == g.len() + more.len()
    &&& forall|i: int| 0 <= i < g.len() ==> (#[trigger] r[i])@ == g[i]@
    &&& forall|i: int| 0 <= i < more.len() ==> (#[trigger] r[g.len() + i])@ == more[i]@
}

/// A phase after rule groups were added to it.
pub open spec fn with_groups(p: Phase, more: Seq<&str>, r: Phase) -> bool {
    match p {
        Phase::Local { groups } => r matches Phase::Local { groups: g } && extended(
            groups@,
            more,
            g@,
        ),
        _ => r == p,
    }
}

/// Whether a phase is a rule phase.
pub open spec fn is_rules(p: Phase) -> bool {
    p is Local
}

impl Strategy {
    /// A strategy with the given phases and at most 4 rounds.
    pub fn new(name: &str, phases: Vec<Phase>) -> (r: Strategy)
        ensures
            r.name@ == name@,
            r.phases == phases,
            r.max_rounds == 4,
            !r.float_values,
            r.sharing == Sharing::Roots,
            r.max_region == REGION_CAP,
    {
        Strategy {
            name: name.to_string(),
            phases,
            max_rounds: 4,
            float_values: false,
            sharing: Sharing::Roots,
            max_region: REGION_CAP,
        }
    }

    /// Sets [`float_values`](Self::float_values).
    pub fn with_float_values(self, yes: bool) -> (r: Strategy)
        ensures
            r == (Strategy { float_values: yes, ..self }),
    {
        let mut s = self;
        s.float_values = yes;
        s
    }

    /// The standard strategy over the rule groups `core`: fact folding, the rules, the
    /// normal-form passes, and the rules again, for up to 4 rounds.
    pub fn standard_over(core: &Vec<String>) -> (r: Strategy)
        ensures
            r.name@ == "standard"@,
            r.phases@.len() == 10,
            r.phases@[0] is FactFold,
            rules_of(r.phases@[1], core@),
            r.phases@[2] is Linear,
            r.phases@[3] is Xor,
            r.phases@[4] is Casts,
            r.phases@[5] is Invert,
            r.phases@[6] is Compares,
            r.phases@[7] is Bitwise,
            r.phases@[8] is Demanded,
            rules_of(r.phases@[9], core@),
            r.max_rounds == 4,
            !r.float_values,
            r.sharing == Sharing::Roots,
            r.max_region == REGION_CAP,
    {
        Strategy::new(
            "standard",
            vec![
                Phase::FactFold,
                Phase::Local { groups: names(core) },
                Phase::Linear,
                Phase::Xor,
                Phase::Casts,
                Phase::Invert,
                Phase::Compares,
                Phase::Bitwise,
                Phase::Demanded,
                Phase::Local { groups: names(core) },
            ],
        )
    }

    /// The standard strategy plus the deobfuscation passes (linear MBA and bit shuffles), over
    /// the rule groups `core`.
    pub fn deobfuscate_over(core: &Vec<String>) -> (r: Strategy)
        ensures
            r.name@ == "deobfuscate"@,
            r.phases@.len() == 12,
            r.phases@[0] is FactFold,
            rules_of(r.phases@[1], core@),
            r.phases@[2] is Linear,
            r.phases@[3] is Xor,
            r.phases@[4] is Casts,
            r.phases@[5] is Invert,
            r.phases@[6] is Compares,
            r.phases@[7] is Bitwise,
            r.phases@[8] is LinearMba,
            r.phases@[9] is Shuffle,
            r.phases@[10] is Demanded,
            rules_of(r.phases@[11], core@),
            r.max_rounds == 4,
            !r.float_values,
            r.sharing == Sharing::Roots,
            r.max_region == REGION_CAP,
    {
        Strategy::new(
            "deobfuscate",
            vec![
                Phase::FactFold,
                Phase::Local { groups: names(core) },
                Phase::Linear,
                Phase::Xor,
                Phase::Casts,
                Phase::Invert,
                Phase::Compares,
                Phase::Bitwise,
                Phase::LinearMba,
                Phase::Shuffle,
                Phase::Demanded,
                Phase::Local { groups: names(core) },
            ],
        )
    }

    /// For a compiler, which simplifies every value of every function: the standard phases
    /// without the demanded-bits pass, one round, with the passes deciding as if each node were
    /// alone ([`Sharing::Ignored`]) over at most 64 nodes ([`max_region`](Self::max_region)).
    ///
    /// Every result is final and memoized, so a call over every value of a function costs time
    /// in proportion to its size, and a later call over the same values is answered by the
    /// memo. Results can be larger than the standard strategy's where values share subterms.
    pub fn compile_over(core: &Vec<String>) -> (r: Strategy)
        ensures
            r.name@ == "compile"@,
            r.phases@.len() == 9,
            r.phases@[0] is FactFold,
            rules_of(r.phases@[1], core@),
            r.phases@[2] is Linear,
            r.phases@[3] is Xor,
            r.phases@[4] is Casts,
            r.phases@[5] is Invert,
            r.phases@[6] is Compares,
            r.phases@[7] is Bitwise,
            rules_of(r.phases@[8], core@),
            r.max_rounds == 1,
            !r.float_values,
            r.sharing == Sharing::Ignored,
            r.max_region == 64,
    {
        Strategy::new(
            "compile",
            vec![
                Phase::FactFold,
                Phase::Local { groups: names(core) },
                Phase::Linear,
                Phase::Xor,
                Phase::Casts,
                Phase::Invert,
                Phase::Compares,
                Phase::Bitwise,
                Phase::Local { groups: names(core) },
            ],
        ).with_max_rounds(1).with_sharing(Sharing::Ignored).with_max_region(64)
    }

    /// The standard strategy over the built-in rules.
    pub fn standard() -> (r: Strategy)
        ensures
            r.name@ == "standard"@,
            r.phases@.len() == 10,
            r.phases@[0] is FactFold,
            core_rules(r.phases@[1]),
            r.phases@[2] is Linear,
            r.phases@[3] is Xor,
            r.phases@[4] is Casts,
            r.phases@[5] is Invert,
            r.phases@[6] is Compares,
            r.phases@[7] is Bitwise,
            r.phases@[8] is Demanded,
            core_rules(r.phases@[9]),
            r.max_rounds == 4,
            !r.float_values,
            r.sharing == Sharing::Roots,
            r.max_region == REGION_CAP,
    {
        Strategy::standard_over(&group_names())
    }

    /// The deobfuscation strategy over the built-in rules.
    pub fn deobfuscate() -> (r: Strategy)
        ensures
            r.name@ == "deobfuscate"@,
            r.phases@.len() == 12,
            r.phases@[0] is FactFold,
            core_rules(r.phases@[1]),
            r.phases@[2] is Linear,
            r.phases@[3] is Xor,
            r.phases@[4] is Casts,
            r.phases@[5] is Invert,
            r.phases@[6] is Compares,
            r.phases@[7] is Bitwise,
            r.phases@[8] is LinearMba,
            r.phases@[9] is Shuffle,
            r.phases@[10] is Demanded,
            core_rules(r.phases@[11]),
            r.max_rounds == 4,
            !r.float_values,
            r.sharing == Sharing::Roots,
            r.max_region == REGION_CAP,
    {
        Strategy::deobfuscate_over(&group_names())
    }

    /// The compiler's strategy over the built-in rules.
    pub fn compile() -> (r: Strategy)
        ensures
            r.name@ == "compile"@,
            r.phases@.len() == 9,
            r.phases@[0] is FactFold,
            core_rules(r.phases@[1]),
            r.phases@[2] is Linear,
            r.phases@[3] is Xor,
            r.phases@[4] is Casts,
            r.phases@[5] is Invert,
            r.phases@[6] is Compares,
            r.phases@[7] is Bitwise,
            core_rules(r.phases@[8]),
            r.max_rounds == 1,
            !r.float_values,
            r.sharing == Sharing::Ignored,
            r.max_region == 64,
    {
        Strategy::compile_over(&group_names())
    }

    /// Adds rule groups (of linked programs) to every rule phase, after the groups already
    /// there. A strategy with no rule phase gets one at the end.
    pub fn with_rule_groups(self, groups: &[&str]) -> (r: Strategy)
        ensures
            r.name == self.name,
            r.max_rounds == self.max_rounds,
            r.float_values == self.float_values,
            r.sharing == self.sharing,
            r.max_region == self.max_region,
            forall|i: int|
                0 <= i < self.phases@.len() ==> with_groups(
                    self.phases@[i],
                    groups@,
                    #[trigger] r.phases@[i],
                ),
            (exists|i: int| 0 <= i < self.phases@.len() && is_rules(#[trigger] self.phases@[i]))
                ==> r.phases@.len() == self.phases@.len(),
            !(exists|i: int| 0 <= i < self.phases@.len() && is_rules(#[trigger] self.phases@[i]))
                ==> r.phases@.len() == self.phases@.len() + 1 && (r.phases@.last() matches Phase::Local {
                groups: g,
            } && extended(Seq::empty(), groups@, g@)),
    {
        let mut s = self;
        let ghost s0 = self.phases@;
        let mut found = false;
        let mut i: usize = 0;
        while i < s.phases.len()
            invariant
                i <= s.phases.len(),
                s.phases@.len() == s0.len(),
                s0 == self.phases@,
                s.name == self.name,
                s.max_rounds == self.max_rounds,
                s.float_values == self.float_values,
                s.sharing == self.sharing,
                s.max_region == self.max_region,
                forall|j: int| 0 <= j < i ==> with_groups(s0[j], groups@, #[trigger] s.phases@[j]),
                forall|j: int| i <= j < s0.len() ==> #[trigger] s.phases@[j] == s0[j],
                found <==> exists|j: int| 0 <= j < i && is_rules(#[trigger] s0[j]),
            decreases s.phases.len() - i,
        {
            let ghost before = s.phases@;
            assert(before[i as int] == s0[i as int]);
            let mut grown: Option<Vec<String>> = None;
            if let Phase::Local { groups: g } = &s.phases[i] {
                let mut v = names(g);
                let ghost g0 = v@;
                let mut k: usize = 0;
                while k < groups.len()
                    invariant
                        k <= groups@.len(),
                        v@.len() == g0.len() + k,
                        forall|j: int| 0 <= j < g0.len() ==> #[trigger] v@[j] == g0[j],
                        forall|j: int|
                            0 <= j < k ==> (#[trigger] v@[g0.len() + j])@ == groups@[j]@,
                    decreases groups@.len() - k,
                {
                    v.push(groups[k].to_string());
                    k = k + 1;
                }
                grown = Some(v);
                assert(is_rules(s0[i as int]));
            }
            if let Some(v) = grown {
                found = true;
                s.phases.set(i, Phase::Local { groups: v });
            }
            i = i + 1;
        }
        if !found {
            let mut v: Vec<String> = Vec::new();
            let mut k: usize = 0;
            while k < groups.len()
                invariant
                    k <= groups@.len(),
                    v@.len() == k,
                    forall|j: int| 0 <= j < k ==> (#[trigger] v@[j])@ == groups@[j]@,
                decreases groups@.len() - k,
            {
                v.push(groups[k].to_string());
                k = k + 1;
            }
            s.phases.push(Phase::Local { groups: v });
        }
        s
    }

    /// Sets [`sharing`](Self::sharing).
    pub fn with_sharing(self, sharing: Sharing) -> (r: Strategy)
        ensures
            r == (Strategy { sharing, ..self }),
    {
        let mut s = self;
        s.sharing = sharing;
        s
    }

    /// Sets [`max_region`](Self::max_region) (at least 1).
    pub fn with_max_region(self, n: u32) -> (r: Strategy)
        ensures
            r == (Strategy {
                max_region: if n >= 1 {
                    n
                } else {
                    1
                },
                ..self
            }),
    {
        let mut s = self;
        s.max_region = if n >= 1 {
            n
        } else {
            1
        };
        s
    }

    /// Sets [`max_rounds`](Self::max_rounds) (at least 1).
    pub fn with_max_rounds(self, n: u8) -> (r: Strategy)
        ensures
            r == (Strategy {
                max_rounds: if n >= 1 {
                    n
                } else {
                    1
                },
                ..self
            }),
    {
        let mut s = self;
        s.max_rounds = if n >= 1 {
            n
        } else {
            1
        };
        s
    }
}

/// Checks on every application beyond the ones that always run (result width, host veto).
#[derive(Clone, Copy, Debug, PartialEq, Eq, Hash, Structural)]
#[non_exhaustive]
pub struct Verify {
    /// Evaluate both sides at this many seeded points for every application (0 = off).
    pub sampled_points: u32,
    /// ... and at this many for rules linked without a proof (0 = off).
    pub unproven_points: u32,
    /// Reject an application whose sides have incompatible facts.
    pub tripwire: bool,
    /// Reject an application that does not decrease the ground termination order.
    pub termination: bool,
}

impl Default for Verify {
    /// Sampled verification (16 points) for unproven rules only.
    fn default() -> (r: Self)
        ensures
            r == (Verify {
                sampled_points: 0,
                unproven_points: 16,
                tripwire: false,
                termination: false,
            }),
    {
        Verify { sampled_points: 0, unproven_points: 16, tripwire: false, termination: false }
    }
}

impl Verify {
    /// Every check, with 8 points for every application (for tests and debugging).
    pub fn strict() -> (r: Verify)
        ensures
            r == (Verify {
                sampled_points: 8,
                unproven_points: 16,
                tripwire: true,
                termination: true,
            }),
    {
        Verify { sampled_points: 8, unproven_points: 16, tripwire: true, termination: true }
    }

    /// Sets [`sampled_points`](Self::sampled_points).
    pub fn with_sampled_points(self, sampled_points: u32) -> (r: Verify)
        ensures
            r == (Verify { sampled_points, ..self }),
    {
        let mut v = self;
        v.sampled_points = sampled_points;
        v
    }

    /// Sets [`unproven_points`](Self::unproven_points).
    pub fn with_unproven_points(self, unproven_points: u32) -> (r: Verify)
        ensures
            r == (Verify { unproven_points, ..self }),
    {
        let mut v = self;
        v.unproven_points = unproven_points;
        v
    }

    /// Sets [`tripwire`](Self::tripwire).
    pub fn with_tripwire(self, tripwire: bool) -> (r: Verify)
        ensures
            r == (Verify { tripwire, ..self }),
    {
        let mut v = self;
        v.tripwire = tripwire;
        v
    }

    /// Sets [`termination`](Self::termination).
    pub fn with_termination(self, termination: bool) -> (r: Verify)
        ensures
            r == (Verify { termination, ..self }),
    {
        let mut v = self;
        v.termination = termination;
        v
    }
}

} // verus!
