//! Telemetry: counters that are always collected, and per-rule events for an observer.

use vstd::prelude::*;
use crate::expr::{Context, Expr};
use crate::rules::rule::Rule;

verus! {

/// Counters for one normal-form pass.
#[derive(Clone, Copy, Debug, PartialEq, Eq, Structural)]
pub struct PassCounts {
    /// Nodes the pass considered.
    pub calls: u64,
    /// Nodes where it produced the node itself.
    pub noop: u64,
    /// Nodes it replaced.
    pub changed: u64,
    /// Candidates rejected because they would not make the DAG smaller.
    pub rejected_cost: u64,
    /// Candidates rejected by a postcondition or vetoed by the host.
    pub rejected: u64,
    /// Regions over the pass's size cap, treated as opaque atoms.
    pub atomized: u64,
}

impl PassCounts {
    /// Adding `o`'s counters overflows none.
    pub open spec fn room_for(self, o: PassCounts) -> bool {
        &&& self.calls + o.calls <= u64::MAX
        &&& self.noop + o.noop <= u64::MAX
        &&& self.changed + o.changed <= u64::MAX
        &&& self.rejected_cost + o.rejected_cost <= u64::MAX
        &&& self.rejected + o.rejected <= u64::MAX
        &&& self.atomized + o.atomized <= u64::MAX
    }

    /// Whether adding `o`'s counters overflows none.
    pub fn fits(&self, o: &PassCounts) -> (r: bool)
        ensures
            r == self.room_for(*o),
    {
        self.calls <= u64::MAX - o.calls
            && self.noop <= u64::MAX - o.noop
            && self.changed <= u64::MAX - o.changed
            && self.rejected_cost <= u64::MAX - o.rejected_cost
            && self.rejected <= u64::MAX - o.rejected
            && self.atomized <= u64::MAX - o.atomized
    }

    /// The counters of both.
    pub open spec fn plus(self, o: PassCounts) -> PassCounts {
        PassCounts {
            calls: (self.calls + o.calls) as u64,
            noop: (self.noop + o.noop) as u64,
            changed: (self.changed + o.changed) as u64,
            rejected_cost: (self.rejected_cost + o.rejected_cost) as u64,
            rejected: (self.rejected + o.rejected) as u64,
            atomized: (self.atomized + o.atomized) as u64,
        }
    }

    /// All zero.
    pub fn zero() -> (r: PassCounts)
        ensures
            r == PassCounts::none(),
    {
        PassCounts {
            calls: 0,
            noop: 0,
            changed: 0,
            rejected_cost: 0,
            rejected: 0,
            atomized: 0,
        }
    }

    /// All zero.
    pub open spec fn none() -> PassCounts {
        PassCounts {
            calls: 0,
            noop: 0,
            changed: 0,
            rejected_cost: 0,
            rejected: 0,
            atomized: 0,
        }
    }

    /// Adds another call's counters.
    pub fn absorb(&mut self, o: &PassCounts)
        requires
            old(self).room_for(*o),
        ensures
            *final(self) == old(self).plus(*o),
    {
        self.calls = self.calls + o.calls;
        self.noop = self.noop + o.noop;
        self.changed = self.changed + o.changed;
        self.rejected_cost = self.rejected_cost + o.rejected_cost;
        self.rejected = self.rejected + o.rejected;
        self.atomized = self.atomized + o.atomized;
    }
}

/// Counters of the native certificates, by the test that decided.
#[derive(Clone, Copy, Debug, PartialEq, Eq, Structural)]
pub struct CertStats {
    /// Questions asked.
    pub calls: u64,
    /// Proved.
    pub proved: u64,
    /// Refuted (with a concrete counterexample).
    pub refuted: u64,
    /// Not decided.
    pub unknown: u64,
    /// Decided by the corner signature.
    pub signature: u64,
    /// Decided at single bit positions.
    pub single_bit: u64,
    /// Decided at points with at most `d` set positions.
    pub sparse: u64,
    /// Decided on the pure-polynomial grid.
    pub grid: u64,
    /// Decided exhaustively.
    pub exhaustive: u64,
    /// Decided as equal polynomials over symbols.
    pub symbolic: u64,
    /// Decided bit-serially over every reachable carry state.
    pub carries: u64,
    /// Decided over abstracted atoms.
    pub compositional: u64,
    /// Decided case by case over a few bits of one variable.
    pub split: u64,
    /// Decided after bitwise operations with constants that read only known bits were read as
    /// arithmetic.
    pub known_bits: u64,
    /// Points evaluated.
    pub points: u64,
    /// Tests skipped for lack of budget.
    pub over_budget: u64,
    /// Internal inconsistencies (never expected).
    pub internal: u64,
}

impl CertStats {
    /// Adding `o`'s counters overflows none.
    pub open spec fn room_for(self, o: CertStats) -> bool {
        &&& self.calls + o.calls <= u64::MAX
        &&& self.proved + o.proved <= u64::MAX
        &&& self.refuted + o.refuted <= u64::MAX
        &&& self.unknown + o.unknown <= u64::MAX
        &&& self.signature + o.signature <= u64::MAX
        &&& self.single_bit + o.single_bit <= u64::MAX
        &&& self.sparse + o.sparse <= u64::MAX
        &&& self.grid + o.grid <= u64::MAX
        &&& self.exhaustive + o.exhaustive <= u64::MAX
        &&& self.symbolic + o.symbolic <= u64::MAX
        &&& self.carries + o.carries <= u64::MAX
        &&& self.compositional + o.compositional <= u64::MAX
        &&& self.split + o.split <= u64::MAX
        &&& self.known_bits + o.known_bits <= u64::MAX
        &&& self.points + o.points <= u64::MAX
        &&& self.over_budget + o.over_budget <= u64::MAX
        &&& self.internal + o.internal <= u64::MAX
    }

    /// Whether adding `o`'s counters overflows none.
    pub fn fits(&self, o: &CertStats) -> (r: bool)
        ensures
            r == self.room_for(*o),
    {
        self.calls <= u64::MAX - o.calls
            && self.proved <= u64::MAX - o.proved
            && self.refuted <= u64::MAX - o.refuted
            && self.unknown <= u64::MAX - o.unknown
            && self.signature <= u64::MAX - o.signature
            && self.single_bit <= u64::MAX - o.single_bit
            && self.sparse <= u64::MAX - o.sparse
            && self.grid <= u64::MAX - o.grid
            && self.exhaustive <= u64::MAX - o.exhaustive
            && self.symbolic <= u64::MAX - o.symbolic
            && self.carries <= u64::MAX - o.carries
            && self.compositional <= u64::MAX - o.compositional
            && self.split <= u64::MAX - o.split
            && self.known_bits <= u64::MAX - o.known_bits
            && self.points <= u64::MAX - o.points
            && self.over_budget <= u64::MAX - o.over_budget
            && self.internal <= u64::MAX - o.internal
    }

    /// The counters of both.
    pub open spec fn plus(self, o: CertStats) -> CertStats {
        CertStats {
            calls: (self.calls + o.calls) as u64,
            proved: (self.proved + o.proved) as u64,
            refuted: (self.refuted + o.refuted) as u64,
            unknown: (self.unknown + o.unknown) as u64,
            signature: (self.signature + o.signature) as u64,
            single_bit: (self.single_bit + o.single_bit) as u64,
            sparse: (self.sparse + o.sparse) as u64,
            grid: (self.grid + o.grid) as u64,
            exhaustive: (self.exhaustive + o.exhaustive) as u64,
            symbolic: (self.symbolic + o.symbolic) as u64,
            carries: (self.carries + o.carries) as u64,
            compositional: (self.compositional + o.compositional) as u64,
            split: (self.split + o.split) as u64,
            known_bits: (self.known_bits + o.known_bits) as u64,
            points: (self.points + o.points) as u64,
            over_budget: (self.over_budget + o.over_budget) as u64,
            internal: (self.internal + o.internal) as u64,
        }
    }

    /// All zero.
    pub fn zero() -> (r: CertStats)
        ensures
            r == CertStats::none(),
    {
        CertStats {
            calls: 0,
            proved: 0,
            refuted: 0,
            unknown: 0,
            signature: 0,
            single_bit: 0,
            sparse: 0,
            grid: 0,
            exhaustive: 0,
            symbolic: 0,
            carries: 0,
            compositional: 0,
            split: 0,
            known_bits: 0,
            points: 0,
            over_budget: 0,
            internal: 0,
        }
    }

    /// All zero.
    pub open spec fn none() -> CertStats {
        CertStats {
            calls: 0,
            proved: 0,
            refuted: 0,
            unknown: 0,
            signature: 0,
            single_bit: 0,
            sparse: 0,
            grid: 0,
            exhaustive: 0,
            symbolic: 0,
            carries: 0,
            compositional: 0,
            split: 0,
            known_bits: 0,
            points: 0,
            over_budget: 0,
            internal: 0,
        }
    }

    /// Adds another call's counters.
    pub fn absorb(&mut self, o: &CertStats)
        requires
            old(self).room_for(*o),
        ensures
            *final(self) == old(self).plus(*o),
    {
        self.calls = self.calls + o.calls;
        self.proved = self.proved + o.proved;
        self.refuted = self.refuted + o.refuted;
        self.unknown = self.unknown + o.unknown;
        self.signature = self.signature + o.signature;
        self.single_bit = self.single_bit + o.single_bit;
        self.sparse = self.sparse + o.sparse;
        self.grid = self.grid + o.grid;
        self.exhaustive = self.exhaustive + o.exhaustive;
        self.symbolic = self.symbolic + o.symbolic;
        self.carries = self.carries + o.carries;
        self.compositional = self.compositional + o.compositional;
        self.split = self.split + o.split;
        self.known_bits = self.known_bits + o.known_bits;
        self.points = self.points + o.points;
        self.over_budget = self.over_budget + o.over_budget;
        self.internal = self.internal + o.internal;
    }
}

/// How a certificate decided.
#[derive(Clone, Copy, Debug, PartialEq, Eq, Hash, Structural)]
pub enum Cert {
    /// The corner signature.
    Signature,
    /// Single bit positions.
    SingleBit,
    /// Points with few set positions.
    Sparse,
    /// The pure-polynomial grid.
    Grid,
    /// Every point.
    Exhaustive,
    /// Equal polynomials.
    Symbolic,
    /// Every carry state.
    Carries,
}

/// What a certificate found.
#[derive(Clone, Copy, Debug, PartialEq, Eq, Hash, Structural)]
pub enum CertVerdict {
    /// Equal.
    Proved,
    /// Different.
    Refuted,
    /// Not decided.
    Unknown,
}

/// A certificate's report.
#[derive(Clone, Copy, Debug, PartialEq, Eq, Hash, Structural)]
pub struct Report {
    /// What it found.
    pub verdict: CertVerdict,
    /// The test that decided.
    pub cert: Option<Cert>,
    /// Over abstracted atoms.
    pub compositional: bool,
    /// Case by case.
    pub split: bool,
    /// With known bits read as arithmetic.
    pub known_bits: bool,
    /// Points evaluated.
    pub points: u64,
    /// Tests skipped for lack of budget.
    pub over_budget: u32,
    /// Internal inconsistencies.
    pub internal: u64,
}

/// One when it holds.
pub open spec fn one_if(b: bool) -> u64 {
    if b {
        1
    } else {
        0
    }
}

fn unit(b: bool) -> (r: u64)
    ensures
        r == one_if(b),
{
    if b {
        1
    } else {
        0
    }
}

/// The counters of one report: the question, its verdict, and, when it was decided, the test
/// that decided it and how.
pub open spec fn report_counts(r: Report) -> CertStats {
    let decided = r.verdict != CertVerdict::Unknown;
    CertStats {
        calls: 1,
        proved: one_if(r.verdict == CertVerdict::Proved),
        refuted: one_if(r.verdict == CertVerdict::Refuted),
        unknown: one_if(!decided),
        signature: one_if(decided && r.cert == Some(Cert::Signature)),
        single_bit: one_if(decided && r.cert == Some(Cert::SingleBit)),
        sparse: one_if(decided && r.cert == Some(Cert::Sparse)),
        grid: one_if(decided && r.cert == Some(Cert::Grid)),
        exhaustive: one_if(decided && r.cert == Some(Cert::Exhaustive)),
        symbolic: one_if(decided && r.cert == Some(Cert::Symbolic)),
        carries: one_if(decided && r.cert == Some(Cert::Carries)),
        compositional: one_if(decided && r.compositional),
        split: one_if(decided && r.split),
        known_bits: one_if(decided && r.known_bits),
        points: r.points,
        over_budget: r.over_budget as u64,
        internal: r.internal,
    }
}

impl CertStats {
    /// Adds a report.
    pub fn record(&mut self, r: &Report)
        requires
            old(self).room_for(report_counts(*r)),
        ensures
            *final(self) == old(self).plus(report_counts(*r)),
    {
        self.calls = self.calls + 1;
        match r.verdict {
            CertVerdict::Proved => self.proved = self.proved + 1,
            CertVerdict::Refuted => self.refuted = self.refuted + 1,
            CertVerdict::Unknown => self.unknown = self.unknown + 1,
        }
        if r.verdict != CertVerdict::Unknown {
            match r.cert {
                Some(Cert::Signature) => self.signature = self.signature + 1,
                Some(Cert::SingleBit) => self.single_bit = self.single_bit + 1,
                Some(Cert::Sparse) => self.sparse = self.sparse + 1,
                Some(Cert::Grid) => self.grid = self.grid + 1,
                Some(Cert::Exhaustive) => self.exhaustive = self.exhaustive + 1,
                Some(Cert::Symbolic) => self.symbolic = self.symbolic + 1,
                Some(Cert::Carries) => self.carries = self.carries + 1,
                None => {},
            }
            self.compositional = self.compositional + unit(r.compositional);
            self.split = self.split + unit(r.split);
            self.known_bits = self.known_bits + unit(r.known_bits);
        }
        self.points = self.points + r.points;
        self.over_budget = self.over_budget + r.over_budget as u64;
        self.internal = self.internal + r.internal;
    }
}

/// Counters for the MBA service: calls, outcomes, and the refusal taxonomy.
#[derive(Clone, Copy, Debug, PartialEq, Eq, Structural)]
pub struct MbaStats {
    /// Solver calls.
    pub calls: u64,
    /// Answers taken from the cache.
    pub cache_hits: u64,
    /// Nodes replaced.
    pub simplified: u64,
    /// "No simpler" answers.
    pub no_simpler: u64,
    /// Inputs the solver does not handle.
    pub unsupported: u64,
    /// Calls that ran out of the solver's budget.
    pub exhausted: u64,
    /// Answers found wrong (at a sampled point, or after lifting).
    pub refuted: u64,
    /// Answers without accepted evidence.
    pub proof_unknown: u64,
    /// Answers that would not make the DAG smaller (checked before they are proved, and again
    /// when committing).
    pub not_smaller: u64,
    /// Inputs refused before asking: too many variables, too large, too wide, too small.
    pub too_many_vars: u64,
    /// See `too_many_vars`.
    pub too_large: u64,
    /// See `too_many_vars`.
    pub too_wide: u64,
    /// See `too_many_vars`.
    pub too_small: u64,
    /// The native certificates, run on every answer (see [`CertStats`]).
    pub certificates: CertStats,
}

impl MbaStats {
    /// Adding `o`'s counters overflows none.
    pub open spec fn room_for(self, o: MbaStats) -> bool {
        &&& self.calls + o.calls <= u64::MAX
        &&& self.cache_hits + o.cache_hits <= u64::MAX
        &&& self.simplified + o.simplified <= u64::MAX
        &&& self.no_simpler + o.no_simpler <= u64::MAX
        &&& self.unsupported + o.unsupported <= u64::MAX
        &&& self.exhausted + o.exhausted <= u64::MAX
        &&& self.refuted + o.refuted <= u64::MAX
        &&& self.proof_unknown + o.proof_unknown <= u64::MAX
        &&& self.not_smaller + o.not_smaller <= u64::MAX
        &&& self.too_many_vars + o.too_many_vars <= u64::MAX
        &&& self.too_large + o.too_large <= u64::MAX
        &&& self.too_wide + o.too_wide <= u64::MAX
        &&& self.too_small + o.too_small <= u64::MAX
        &&& self.certificates.room_for(o.certificates)
    }

    /// Whether adding `o`'s counters overflows none.
    pub fn fits(&self, o: &MbaStats) -> (r: bool)
        ensures
            r == self.room_for(*o),
    {
        self.calls <= u64::MAX - o.calls
            && self.cache_hits <= u64::MAX - o.cache_hits
            && self.simplified <= u64::MAX - o.simplified
            && self.no_simpler <= u64::MAX - o.no_simpler
            && self.unsupported <= u64::MAX - o.unsupported
            && self.exhausted <= u64::MAX - o.exhausted
            && self.refuted <= u64::MAX - o.refuted
            && self.proof_unknown <= u64::MAX - o.proof_unknown
            && self.not_smaller <= u64::MAX - o.not_smaller
            && self.too_many_vars <= u64::MAX - o.too_many_vars
            && self.too_large <= u64::MAX - o.too_large
            && self.too_wide <= u64::MAX - o.too_wide
            && self.too_small <= u64::MAX - o.too_small
            && self.certificates.fits(&o.certificates)
    }

    /// The counters of both.
    pub open spec fn plus(self, o: MbaStats) -> MbaStats {
        MbaStats {
            calls: (self.calls + o.calls) as u64,
            cache_hits: (self.cache_hits + o.cache_hits) as u64,
            simplified: (self.simplified + o.simplified) as u64,
            no_simpler: (self.no_simpler + o.no_simpler) as u64,
            unsupported: (self.unsupported + o.unsupported) as u64,
            exhausted: (self.exhausted + o.exhausted) as u64,
            refuted: (self.refuted + o.refuted) as u64,
            proof_unknown: (self.proof_unknown + o.proof_unknown) as u64,
            not_smaller: (self.not_smaller + o.not_smaller) as u64,
            too_many_vars: (self.too_many_vars + o.too_many_vars) as u64,
            too_large: (self.too_large + o.too_large) as u64,
            too_wide: (self.too_wide + o.too_wide) as u64,
            too_small: (self.too_small + o.too_small) as u64,
            certificates: self.certificates.plus(o.certificates),
        }
    }

    /// All zero.
    pub fn zero() -> (r: MbaStats)
        ensures
            r == MbaStats::none(),
    {
        MbaStats {
            calls: 0,
            cache_hits: 0,
            simplified: 0,
            no_simpler: 0,
            unsupported: 0,
            exhausted: 0,
            refuted: 0,
            proof_unknown: 0,
            not_smaller: 0,
            too_many_vars: 0,
            too_large: 0,
            too_wide: 0,
            too_small: 0,
            certificates: CertStats::zero(),
        }
    }

    /// All zero.
    pub open spec fn none() -> MbaStats {
        MbaStats {
            calls: 0,
            cache_hits: 0,
            simplified: 0,
            no_simpler: 0,
            unsupported: 0,
            exhausted: 0,
            refuted: 0,
            proof_unknown: 0,
            not_smaller: 0,
            too_many_vars: 0,
            too_large: 0,
            too_wide: 0,
            too_small: 0,
            certificates: CertStats::none(),
        }
    }

    /// Adds another call's counters.
    pub fn absorb(&mut self, o: &MbaStats)
        requires
            old(self).room_for(*o),
        ensures
            *final(self) == old(self).plus(*o),
    {
        self.calls = self.calls + o.calls;
        self.cache_hits = self.cache_hits + o.cache_hits;
        self.simplified = self.simplified + o.simplified;
        self.no_simpler = self.no_simpler + o.no_simpler;
        self.unsupported = self.unsupported + o.unsupported;
        self.exhausted = self.exhausted + o.exhausted;
        self.refuted = self.refuted + o.refuted;
        self.proof_unknown = self.proof_unknown + o.proof_unknown;
        self.not_smaller = self.not_smaller + o.not_smaller;
        self.too_many_vars = self.too_many_vars + o.too_many_vars;
        self.too_large = self.too_large + o.too_large;
        self.too_wide = self.too_wide + o.too_wide;
        self.too_small = self.too_small + o.too_small;
        self.certificates.absorb(&o.certificates);
    }
}

/// Why a fragment is not asked about.
#[derive(Clone, Copy, Debug, PartialEq, Eq, Hash, Structural)]
pub enum Refusal {
    /// Too many variables.
    TooManyVars,
    /// Too many nodes.
    TooLarge,
    /// Too wide.
    TooWide,
    /// Too few nodes.
    TooSmall,
    /// Not of the fragment.
    Unsupported,
}

impl MbaStats {
    /// Counts a refusal under its reason.
    pub fn refused(&mut self, why: &Refusal)
        requires
            old(self).too_many_vars < u64::MAX,
            old(self).too_large < u64::MAX,
            old(self).too_wide < u64::MAX,
            old(self).too_small < u64::MAX,
            old(self).unsupported < u64::MAX,
        ensures
            *final(self) == (match *why {
                Refusal::TooManyVars => MbaStats {
                    too_many_vars: (old(self).too_many_vars + 1) as u64,
                    ..*old(self)
                },
                Refusal::TooLarge => MbaStats {
                    too_large: (old(self).too_large + 1) as u64,
                    ..*old(self)
                },
                Refusal::TooWide => MbaStats {
                    too_wide: (old(self).too_wide + 1) as u64,
                    ..*old(self)
                },
                Refusal::TooSmall => MbaStats {
                    too_small: (old(self).too_small + 1) as u64,
                    ..*old(self)
                },
                Refusal::Unsupported => MbaStats {
                    unsupported: (old(self).unsupported + 1) as u64,
                    ..*old(self)
                },
            }),
    {
        match why {
            Refusal::TooManyVars => self.too_many_vars = self.too_many_vars + 1,
            Refusal::TooLarge => self.too_large = self.too_large + 1,
            Refusal::TooWide => self.too_wide = self.too_wide + 1,
            Refusal::TooSmall => self.too_small = self.too_small + 1,
            Refusal::Unsupported => self.unsupported = self.unsupported + 1,
        }
    }
}

/// A normal-form pass.
#[derive(Clone, Copy, Debug, PartialEq, Eq, Hash, Structural)]
pub enum PassKind {
    /// Nodes whose facts pin one value.
    FactFold,
    /// Linear sums.
    Linear,
    /// Bitwise functions of few atoms.
    Bitwise,
    /// Xor sums.
    Xor,
    /// Combinations of comparisons.
    Compares,
    /// Extracts pushed inwards.
    Casts,
    /// Operands observed through some bits.
    Demanded,
    /// Linear combinations of bitwise functions.
    LinearMba,
    /// Values assembled from bit slices.
    Shuffle,
    /// Equalities through invertible maps.
    Invert,
    /// The MBA service.
    Mba,
}

/// A pass's name.
pub open spec fn pass_name(k: PassKind) -> Seq<char> {
    match k {
        PassKind::FactFold => "fact_fold"@,
        PassKind::Linear => "linear"@,
        PassKind::Bitwise => "bitwise"@,
        PassKind::Xor => "xor"@,
        PassKind::Compares => "compares"@,
        PassKind::Casts => "casts"@,
        PassKind::Demanded => "demanded"@,
        PassKind::LinearMba => "linear_mba"@,
        PassKind::Shuffle => "shuffle"@,
        PassKind::Invert => "invert"@,
        PassKind::Mba => "mba"@,
    }
}

impl PassKind {
    /// The pass's name.
    pub fn name(self) -> (r: &'static str)
        ensures
            r@ == pass_name(self),
    {
        match self {
            PassKind::FactFold => "fact_fold",
            PassKind::Linear => "linear",
            PassKind::Bitwise => "bitwise",
            PassKind::Xor => "xor",
            PassKind::Compares => "compares",
            PassKind::Casts => "casts",
            PassKind::Demanded => "demanded",
            PassKind::LinearMba => "linear_mba",
            PassKind::Shuffle => "shuffle",
            PassKind::Invert => "invert",
            PassKind::Mba => "mba",
        }
    }
}

/// Counters per normal-form pass.
#[derive(Clone, Copy, Debug, PartialEq, Eq, Structural)]
pub struct PassTable {
    /// Nodes whose facts pin one value.
    pub fact_fold: PassCounts,
    /// Linear sums.
    pub linear: PassCounts,
    /// Bitwise functions of few atoms.
    pub bitwise: PassCounts,
    /// Xor sums.
    pub xor: PassCounts,
    /// Combinations of comparisons.
    pub compares: PassCounts,
    /// Extracts pushed inwards.
    pub casts: PassCounts,
    /// Operands observed through some bits.
    pub demanded: PassCounts,
    /// Linear combinations of bitwise functions.
    pub linear_mba: PassCounts,
    /// Values assembled from bit slices.
    pub shuffle: PassCounts,
    /// Equalities through invertible maps.
    pub invert: PassCounts,
    /// The MBA service.
    pub mba: PassCounts,
}

impl PassTable {
    /// The counters of a pass.
    pub open spec fn get(self, k: PassKind) -> PassCounts {
        match k {
            PassKind::FactFold => self.fact_fold,
            PassKind::Linear => self.linear,
            PassKind::Bitwise => self.bitwise,
            PassKind::Xor => self.xor,
            PassKind::Compares => self.compares,
            PassKind::Casts => self.casts,
            PassKind::Demanded => self.demanded,
            PassKind::LinearMba => self.linear_mba,
            PassKind::Shuffle => self.shuffle,
            PassKind::Invert => self.invert,
            PassKind::Mba => self.mba,
        }
    }

    /// The table with a pass's counters set.
    pub open spec fn put(self, k: PassKind, c: PassCounts) -> PassTable {
        match k {
            PassKind::FactFold => PassTable { fact_fold: c, ..self },
            PassKind::Linear => PassTable { linear: c, ..self },
            PassKind::Bitwise => PassTable { bitwise: c, ..self },
            PassKind::Xor => PassTable { xor: c, ..self },
            PassKind::Compares => PassTable { compares: c, ..self },
            PassKind::Casts => PassTable { casts: c, ..self },
            PassKind::Demanded => PassTable { demanded: c, ..self },
            PassKind::LinearMba => PassTable { linear_mba: c, ..self },
            PassKind::Shuffle => PassTable { shuffle: c, ..self },
            PassKind::Invert => PassTable { invert: c, ..self },
            PassKind::Mba => PassTable { mba: c, ..self },
        }
    }

    /// The counters of a pass, to change.
    pub fn entry(&mut self, k: PassKind) -> (r: &mut PassCounts)
        ensures
            *r == old(self).get(k),
            *final(self) == old(self).put(k, *final(r)),
    {
        match k {
            PassKind::FactFold => &mut self.fact_fold,
            PassKind::Linear => &mut self.linear,
            PassKind::Bitwise => &mut self.bitwise,
            PassKind::Xor => &mut self.xor,
            PassKind::Compares => &mut self.compares,
            PassKind::Casts => &mut self.casts,
            PassKind::Demanded => &mut self.demanded,
            PassKind::LinearMba => &mut self.linear_mba,
            PassKind::Shuffle => &mut self.shuffle,
            PassKind::Invert => &mut self.invert,
            PassKind::Mba => &mut self.mba,
        }
    }

    /// Adding `o`'s counters overflows none.
    pub open spec fn room_for(self, o: PassTable) -> bool {
        &&& self.fact_fold.room_for(o.fact_fold)
        &&& self.linear.room_for(o.linear)
        &&& self.bitwise.room_for(o.bitwise)
        &&& self.xor.room_for(o.xor)
        &&& self.compares.room_for(o.compares)
        &&& self.casts.room_for(o.casts)
        &&& self.demanded.room_for(o.demanded)
        &&& self.linear_mba.room_for(o.linear_mba)
        &&& self.shuffle.room_for(o.shuffle)
        &&& self.invert.room_for(o.invert)
        &&& self.mba.room_for(o.mba)
    }

    /// Whether adding `o`'s counters overflows none.
    pub fn fits(&self, o: &PassTable) -> (r: bool)
        ensures
            r == self.room_for(*o),
    {
        self.fact_fold.fits(&o.fact_fold)
            && self.linear.fits(&o.linear)
            && self.bitwise.fits(&o.bitwise)
            && self.xor.fits(&o.xor)
            && self.compares.fits(&o.compares)
            && self.casts.fits(&o.casts)
            && self.demanded.fits(&o.demanded)
            && self.linear_mba.fits(&o.linear_mba)
            && self.shuffle.fits(&o.shuffle)
            && self.invert.fits(&o.invert)
            && self.mba.fits(&o.mba)
    }

    /// The counters of both.
    pub open spec fn plus(self, o: PassTable) -> PassTable {
        PassTable {
            fact_fold: self.fact_fold.plus(o.fact_fold),
            linear: self.linear.plus(o.linear),
            bitwise: self.bitwise.plus(o.bitwise),
            xor: self.xor.plus(o.xor),
            compares: self.compares.plus(o.compares),
            casts: self.casts.plus(o.casts),
            demanded: self.demanded.plus(o.demanded),
            linear_mba: self.linear_mba.plus(o.linear_mba),
            shuffle: self.shuffle.plus(o.shuffle),
            invert: self.invert.plus(o.invert),
            mba: self.mba.plus(o.mba),
        }
    }

    /// All zero.
    pub open spec fn none() -> PassTable {
        PassTable {
            fact_fold: PassCounts::none(),
            linear: PassCounts::none(),
            bitwise: PassCounts::none(),
            xor: PassCounts::none(),
            compares: PassCounts::none(),
            casts: PassCounts::none(),
            demanded: PassCounts::none(),
            linear_mba: PassCounts::none(),
            shuffle: PassCounts::none(),
            invert: PassCounts::none(),
            mba: PassCounts::none(),
        }
    }

    /// All zero.
    pub fn zero() -> (r: PassTable)
        ensures
            r == PassTable::none(),
    {
        PassTable {
            fact_fold: PassCounts::zero(),
            linear: PassCounts::zero(),
            bitwise: PassCounts::zero(),
            xor: PassCounts::zero(),
            compares: PassCounts::zero(),
            casts: PassCounts::zero(),
            demanded: PassCounts::zero(),
            linear_mba: PassCounts::zero(),
            shuffle: PassCounts::zero(),
            invert: PassCounts::zero(),
            mba: PassCounts::zero(),
        }
    }

    /// Adds another call's counters.
    pub fn absorb(&mut self, o: &PassTable)
        requires
            old(self).room_for(*o),
        ensures
            *final(self) == old(self).plus(*o),
    {
        self.fact_fold.absorb(&o.fact_fold);
        self.linear.absorb(&o.linear);
        self.bitwise.absorb(&o.bitwise);
        self.xor.absorb(&o.xor);
        self.compares.absorb(&o.compares);
        self.casts.absorb(&o.casts);
        self.demanded.absorb(&o.demanded);
        self.linear_mba.absorb(&o.linear_mba);
        self.shuffle.absorb(&o.shuffle);
        self.invert.absorb(&o.invert);
        self.mba.absorb(&o.mba);
    }
}

/// Roots by outcome.
#[derive(Clone, Copy, Debug, PartialEq, Eq, Structural)]
pub struct RootCounts {
    /// Left as they were.
    pub unchanged: u64,
    /// Changed.
    pub changed: u64,
}

/// Counters for one call. Always collected; no-op work is counted like useful work.
#[derive(Clone, Copy, Debug, PartialEq, Eq, Structural)]
pub struct Stats {
    /// Node visits.
    pub node_visits: u64,
    /// Nodes answered from the context's memo (a completed earlier result).
    pub memo_hits: u64,
    /// Candidate rules tried after the dispatch prefilter.
    pub candidates: u64,
    /// Matcher steps.
    pub match_steps: u64,
    /// Candidates whose pattern did not match.
    pub no_match: u64,
    /// Candidates that matched but whose guard did not hold.
    pub guard_false: u64,
    /// Candidates and pass steps declined only for lack of work or facts (the node may not be
    /// normal, so it is not memoized as such).
    pub degraded: u64,
    /// Candidates that applied but produced the node itself.
    pub no_change: u64,
    /// Rewrites committed.
    pub rewrites: u64,
    /// Applications vetoed by [`Hooks::admits`].
    pub hook_vetoes: u64,
    /// Applications rejected by a postcondition (width, verification, tripwire, termination).
    pub rejected: u64,
    /// Rewrite cycles cut, in favor of the rewrite: a node not rebuilt over its operands'
    /// results into one a pass rewrote it from in this call (in a pass's phase), or into one
    /// whose result was still being worked out; or rewritten into the latter without visiting
    /// it again.
    pub cycles_cut: u64,
    /// Rules quarantined for the rest of the call after a postcondition failure.
    pub quarantined: u64,
    /// Nodes created.
    pub new_nodes: u64,
    /// Fact transfer functions run for guards and passes.
    pub fact_work: u64,
    /// Normal-form pass work.
    pub pass_work: u64,
    /// Rounds run.
    pub rounds: u32,
    /// Per normal-form pass.
    pub passes: PassTable,
    /// The host rewrites.
    pub host: PassCounts,
    /// The MBA service.
    pub mba: MbaStats,
    /// Distinct roots that ran to the end.
    pub completed: RootCounts,
    /// Distinct roots stopped by a budget.
    pub budget_terminated: RootCounts,
    /// Distinct roots declined by an admission cap.
    pub declined: u64,
}

impl Stats {
    /// Adding `o`'s counters overflows none.
    pub open spec fn room_for(self, o: Stats) -> bool {
        &&& self.node_visits + o.node_visits <= u64::MAX
        &&& self.memo_hits + o.memo_hits <= u64::MAX
        &&& self.candidates + o.candidates <= u64::MAX
        &&& self.match_steps + o.match_steps <= u64::MAX
        &&& self.no_match + o.no_match <= u64::MAX
        &&& self.guard_false + o.guard_false <= u64::MAX
        &&& self.degraded + o.degraded <= u64::MAX
        &&& self.no_change + o.no_change <= u64::MAX
        &&& self.rewrites + o.rewrites <= u64::MAX
        &&& self.hook_vetoes + o.hook_vetoes <= u64::MAX
        &&& self.rejected + o.rejected <= u64::MAX
        &&& self.cycles_cut + o.cycles_cut <= u64::MAX
        &&& self.quarantined + o.quarantined <= u64::MAX
        &&& self.new_nodes + o.new_nodes <= u64::MAX
        &&& self.fact_work + o.fact_work <= u64::MAX
        &&& self.pass_work + o.pass_work <= u64::MAX
        &&& self.passes.room_for(o.passes)
        &&& self.host.room_for(o.host)
        &&& self.mba.room_for(o.mba)
        &&& self.completed.unchanged + o.completed.unchanged <= u64::MAX
        &&& self.completed.changed + o.completed.changed <= u64::MAX
        &&& self.budget_terminated.unchanged + o.budget_terminated.unchanged <= u64::MAX
        &&& self.budget_terminated.changed + o.budget_terminated.changed <= u64::MAX
        &&& self.declined + o.declined <= u64::MAX
    }

    /// Whether adding `o`'s counters overflows none.
    pub fn fits(&self, o: &Stats) -> (r: bool)
        ensures
            r == self.room_for(*o),
    {
        self.node_visits <= u64::MAX - o.node_visits
            && self.memo_hits <= u64::MAX - o.memo_hits
            && self.candidates <= u64::MAX - o.candidates
            && self.match_steps <= u64::MAX - o.match_steps
            && self.no_match <= u64::MAX - o.no_match
            && self.guard_false <= u64::MAX - o.guard_false
            && self.degraded <= u64::MAX - o.degraded
            && self.no_change <= u64::MAX - o.no_change
            && self.rewrites <= u64::MAX - o.rewrites
            && self.hook_vetoes <= u64::MAX - o.hook_vetoes
            && self.rejected <= u64::MAX - o.rejected
            && self.cycles_cut <= u64::MAX - o.cycles_cut
            && self.quarantined <= u64::MAX - o.quarantined
            && self.new_nodes <= u64::MAX - o.new_nodes
            && self.fact_work <= u64::MAX - o.fact_work
            && self.pass_work <= u64::MAX - o.pass_work
            && self.passes.fits(&o.passes)
            && self.host.fits(&o.host)
            && self.mba.fits(&o.mba)
            && self.completed.unchanged <= u64::MAX - o.completed.unchanged
            && self.completed.changed <= u64::MAX - o.completed.changed
            && self.budget_terminated.unchanged <= u64::MAX - o.budget_terminated.unchanged
            && self.budget_terminated.changed <= u64::MAX - o.budget_terminated.changed
            && self.declined <= u64::MAX - o.declined
    }

    /// The counters of both (`rounds` is the larger of the two).
    pub open spec fn plus(self, o: Stats) -> Stats {
        Stats {
            node_visits: (self.node_visits + o.node_visits) as u64,
            memo_hits: (self.memo_hits + o.memo_hits) as u64,
            candidates: (self.candidates + o.candidates) as u64,
            match_steps: (self.match_steps + o.match_steps) as u64,
            no_match: (self.no_match + o.no_match) as u64,
            guard_false: (self.guard_false + o.guard_false) as u64,
            degraded: (self.degraded + o.degraded) as u64,
            no_change: (self.no_change + o.no_change) as u64,
            rewrites: (self.rewrites + o.rewrites) as u64,
            hook_vetoes: (self.hook_vetoes + o.hook_vetoes) as u64,
            rejected: (self.rejected + o.rejected) as u64,
            cycles_cut: (self.cycles_cut + o.cycles_cut) as u64,
            quarantined: (self.quarantined + o.quarantined) as u64,
            new_nodes: (self.new_nodes + o.new_nodes) as u64,
            fact_work: (self.fact_work + o.fact_work) as u64,
            pass_work: (self.pass_work + o.pass_work) as u64,
            rounds: if self.rounds >= o.rounds {
                self.rounds
            } else {
                o.rounds
            },
            passes: self.passes.plus(o.passes),
            host: self.host.plus(o.host),
            mba: self.mba.plus(o.mba),
            completed: RootCounts {
                unchanged: (self.completed.unchanged + o.completed.unchanged) as u64,
                changed: (self.completed.changed + o.completed.changed) as u64,
            },
            budget_terminated: RootCounts {
                unchanged: (self.budget_terminated.unchanged
                    + o.budget_terminated.unchanged) as u64,
                changed: (self.budget_terminated.changed + o.budget_terminated.changed) as u64,
            },
            declined: (self.declined + o.declined) as u64,
        }
    }

    /// All zero.
    pub fn zero() -> (r: Stats)
        ensures
            r == Stats::none(),
    {
        Stats {
            node_visits: 0,
            memo_hits: 0,
            candidates: 0,
            match_steps: 0,
            no_match: 0,
            guard_false: 0,
            degraded: 0,
            no_change: 0,
            rewrites: 0,
            hook_vetoes: 0,
            rejected: 0,
            cycles_cut: 0,
            quarantined: 0,
            new_nodes: 0,
            fact_work: 0,
            pass_work: 0,
            rounds: 0,
            passes: PassTable::zero(),
            host: PassCounts::zero(),
            mba: MbaStats::zero(),
            completed: RootCounts { unchanged: 0, changed: 0 },
            budget_terminated: RootCounts { unchanged: 0, changed: 0 },
            declined: 0,
        }
    }

    /// All zero.
    pub open spec fn none() -> Stats {
        Stats {
            node_visits: 0,
            memo_hits: 0,
            candidates: 0,
            match_steps: 0,
            no_match: 0,
            guard_false: 0,
            degraded: 0,
            no_change: 0,
            rewrites: 0,
            hook_vetoes: 0,
            rejected: 0,
            cycles_cut: 0,
            quarantined: 0,
            new_nodes: 0,
            fact_work: 0,
            pass_work: 0,
            rounds: 0,
            passes: PassTable::none(),
            host: PassCounts::none(),
            mba: MbaStats::none(),
            completed: RootCounts { unchanged: 0, changed: 0 },
            budget_terminated: RootCounts { unchanged: 0, changed: 0 },
            declined: 0,
        }
    }

    /// Adds another call's counters (`rounds` is the larger of the two).
    pub fn absorb(&mut self, o: &Stats)
        requires
            old(self).room_for(*o),
        ensures
            *final(self) == old(self).plus(*o),
    {
        self.node_visits = self.node_visits + o.node_visits;
        self.memo_hits = self.memo_hits + o.memo_hits;
        self.candidates = self.candidates + o.candidates;
        self.match_steps = self.match_steps + o.match_steps;
        self.no_match = self.no_match + o.no_match;
        self.guard_false = self.guard_false + o.guard_false;
        self.degraded = self.degraded + o.degraded;
        self.no_change = self.no_change + o.no_change;
        self.rewrites = self.rewrites + o.rewrites;
        self.hook_vetoes = self.hook_vetoes + o.hook_vetoes;
        self.rejected = self.rejected + o.rejected;
        self.cycles_cut = self.cycles_cut + o.cycles_cut;
        self.quarantined = self.quarantined + o.quarantined;
        self.new_nodes = self.new_nodes + o.new_nodes;
        self.fact_work = self.fact_work + o.fact_work;
        self.pass_work = self.pass_work + o.pass_work;
        if o.rounds > self.rounds {
            self.rounds = o.rounds;
        }
        self.passes.absorb(&o.passes);
        self.host.absorb(&o.host);
        self.mba.absorb(&o.mba);
        self.completed.unchanged = self.completed.unchanged + o.completed.unchanged;
        self.completed.changed = self.completed.changed + o.completed.changed;
        self.budget_terminated.unchanged = self.budget_terminated.unchanged
            + o.budget_terminated.unchanged;
        self.budget_terminated.changed = self.budget_terminated.changed
            + o.budget_terminated.changed;
        self.declined = self.declined + o.declined;
    }
}

/// The order in which the counters of calls are added does not matter.
pub proof fn law_absorbing_commutes(a: Stats, b: Stats)
    requires
        a.room_for(b),
    ensures
        b.room_for(a),
        a.plus(b) == b.plus(a),
{
}

/// Why an application was rejected after its rule applied.
#[derive(Clone, Copy, Debug, PartialEq, Eq, Hash, Structural)]
pub enum Reject {
    /// The result's width differs from the node's (a compiler or program defect).
    Width,
    /// Sampled verification found a point where the two sides differ.
    Verify,
    /// The fact tripwire found incompatible facts.
    Tripwire,
    /// The result is not smaller in the ground termination order.
    Termination,
}

/// What made a rewrite: a rule, a normal-form pass, or a host rewrite (by name).
#[derive(Clone, Copy, Debug)]
pub enum By<'a> {
    /// A linked rule.
    Rule(&'a Rule),
    /// A normal-form pass.
    Pass(PassKind),
    /// A host rewrite.
    Rewrite(&'a str),
}

impl<'a> By<'a> {
    /// `group::rule`, or the name of the pass or the host rewrite.
    pub open spec fn text(&self) -> Seq<char> {
        match *self {
            By::Rule(r) => r.name@,
            By::Pass(p) => pass_name(p),
            By::Rewrite(n) => n@,
        }
    }

    /// `group::rule`, or the name of the pass or the host rewrite.
    pub fn name(&self) -> (r: &str)
        ensures
            r@ == self.text(),
    {
        match self {
            By::Rule(r) => r.name.as_str(),
            By::Pass(p) => p.name(),
            By::Rewrite(n) => n,
        }
    }
}

/// A per-rule event.
#[derive(Clone, Copy, Debug)]
pub enum Event<'a> {
    /// `rule` is a candidate at `node` (after the dispatch prefilter).
    Candidate {
        /// The rule.
        rule: &'a Rule,
        /// The node.
        node: Expr,
    },
    /// The pattern did not match.
    NoMatch {
        /// The rule.
        rule: &'a Rule,
    },
    /// The pattern matched but the guard did not hold.
    GuardFalse {
        /// The rule.
        rule: &'a Rule,
    },
    /// Declined for lack of work or facts.
    Degraded {
        /// The rule.
        rule: &'a Rule,
    },
    /// Applied, but produced the node itself.
    NoChange {
        /// The rule.
        rule: &'a Rule,
    },
    /// A rule or pass rewrote `before` to `after`.
    Applied {
        /// What rewrote it.
        by: By<'a>,
        /// The node rewritten.
        before: Expr,
        /// Its replacement.
        after: Expr,
    },
    /// The host vetoed the application.
    Vetoed {
        /// What proposed it.
        by: By<'a>,
    },
    /// A postcondition rejected the application.
    Rejected {
        /// What proposed it.
        by: By<'a>,
        /// Which one.
        reason: Reject,
    },
}

/// Receives per-rule and per-pass events. With no observer the cost is one predictable branch
/// per event.
pub trait Observer {
    /// Called for every event, in order.
    fn event(&mut self, event: Event<'_>);
}

/// Counts for one rule.
#[derive(Clone, Copy, Debug, PartialEq, Eq, Structural)]
pub struct RuleCounts {
    /// Times it was a candidate.
    pub candidates: u64,
    /// Times its pattern did not match.
    pub no_match: u64,
    /// Times its guard did not hold.
    pub guard_false: u64,
    /// Times it was declined for lack of work or facts.
    pub degraded: u64,
    /// Times it applied but produced the node itself.
    pub no_change: u64,
    /// Times it applied.
    pub applied: u64,
    /// Times it was vetoed or rejected.
    pub rejected: u64,
}

/// A count, or the largest there is.
pub open spec fn bumped(n: u64) -> u64 {
    if n < u64::MAX {
        (n + 1) as u64
    } else {
        n
    }
}

/// One more.
pub(crate) fn bump(n: u64) -> (r: u64)
    ensures
        r == bumped(n),
{
    n.saturating_add(1)
}

/// The rule an event is about, if it is about one.
pub open spec fn event_rule(e: Event<'_>) -> Option<Seq<char>> {
    match e {
        Event::Candidate { rule, .. } => Some(rule.name@),
        Event::NoMatch { rule } => Some(rule.name@),
        Event::GuardFalse { rule } => Some(rule.name@),
        Event::Degraded { rule } => Some(rule.name@),
        Event::NoChange { rule } => Some(rule.name@),
        Event::Applied { by: By::Rule(rule), .. } => Some(rule.name@),
        Event::Vetoed { by: By::Rule(rule) } => Some(rule.name@),
        Event::Rejected { by: By::Rule(rule), .. } => Some(rule.name@),
        _ => None,
    }
}

/// The counts of a rule after an event about it.
pub open spec fn counted(c: RuleCounts, e: Event<'_>) -> RuleCounts {
    match e {
        Event::Candidate { .. } => RuleCounts { candidates: bumped(c.candidates), ..c },
        Event::NoMatch { .. } => RuleCounts { no_match: bumped(c.no_match), ..c },
        Event::GuardFalse { .. } => RuleCounts { guard_false: bumped(c.guard_false), ..c },
        Event::Degraded { .. } => RuleCounts { degraded: bumped(c.degraded), ..c },
        Event::NoChange { .. } => RuleCounts { no_change: bumped(c.no_change), ..c },
        Event::Applied { .. } => RuleCounts { applied: bumped(c.applied), ..c },
        Event::Vetoed { .. } => RuleCounts { rejected: bumped(c.rejected), ..c },
        Event::Rejected { .. } => RuleCounts { rejected: bumped(c.rejected), ..c },
    }
}

/// The counts of one rule.
#[derive(Debug)]
pub struct CensusEntry {
    /// `group::rule`.
    pub name: String,
    /// The counts.
    pub counts: RuleCounts,
}

/// Per-rule counts, keyed by `group::rule`.
#[derive(Debug)]
pub struct RuleCensus {
    /// The counts, one entry per rule seen.
    pub rules: Vec<CensusEntry>,
}

/// The counts of the rule named `name` (zeros when it was not seen).
pub open spec fn census_of(rules: Seq<CensusEntry>, name: Seq<char>) -> RuleCounts
    decreases rules.len(),
{
    if rules.len() == 0 {
        RuleCounts {
            candidates: 0,
            no_match: 0,
            guard_false: 0,
            degraded: 0,
            no_change: 0,
            applied: 0,
            rejected: 0,
        }
    } else if rules[0].name@ == name {
        rules[0].counts
    } else {
        census_of(rules.skip(1), name)
    }
}

/// The counts of a rule are those of its first entry.
pub proof fn lemma_census_at(rules: Seq<CensusEntry>, name: Seq<char>, i: int)
    requires
        0 <= i <= rules.len(),
        forall|j: int| 0 <= j < i ==> #[trigger] rules[j].name@ != name,
    ensures
        census_of(rules, name) == census_of(rules.skip(i), name),
    decreases i,
{
    if i == 0 {
        assert(rules.skip(0) =~= rules);
    } else {
        assert(rules[0].name@ != name);
        let rest = rules.skip(1);
        assert forall|j: int| 0 <= j < i - 1 implies #[trigger] rest[j].name@ != name by {
            assert(rest[j] == rules[j + 1]);
        }
        lemma_census_at(rest, name, i - 1);
        assert(rest.skip(i - 1) =~= rules.skip(i));
    }
}

/// Changing the counts of one rule's first entry changes no other rule's counts.
pub proof fn lemma_census_update(
    rules: Seq<CensusEntry>,
    i: int,
    e: CensusEntry,
    other: Seq<char>,
)
    requires
        0 <= i < rules.len(),
        e.name@ == rules[i].name@,
        other != e.name@,
    ensures
        census_of(rules.update(i, e), other) == census_of(rules, other),
    decreases rules.len(),
{
    let upd = rules.update(i, e);
    if i == 0 {
        assert(upd.skip(1) =~= rules.skip(1));
    } else {
        lemma_census_update(rules.skip(1), i - 1, e, other);
        assert(upd.skip(1) =~= rules.skip(1).update(i - 1, e));
        assert(upd[0] == rules[0]);
    }
}

/// An entry at the end is seen only by rules with none before.
pub proof fn lemma_census_push(rules: Seq<CensusEntry>, e: CensusEntry, other: Seq<char>)
    requires
        other != e.name@,
    ensures
        census_of(rules.push(e), other) == census_of(rules, other),
    decreases rules.len(),
{
    let p = rules.push(e);
    if rules.len() == 0 {
        assert(p.skip(1) =~= rules);
    } else {
        lemma_census_push(rules.skip(1), e, other);
        assert(p.skip(1) =~= rules.skip(1).push(e));
        assert(p[0] == rules[0]);
    }
}

/// The counts of a rule after an event about it.
fn count_event(c: RuleCounts, e: &Event<'_>) -> (r: RuleCounts)
    ensures
        r == counted(c, *e),
{
    match e {
        Event::Candidate { .. } => RuleCounts { candidates: bump(c.candidates), ..c },
        Event::NoMatch { .. } => RuleCounts { no_match: bump(c.no_match), ..c },
        Event::GuardFalse { .. } => RuleCounts { guard_false: bump(c.guard_false), ..c },
        Event::Degraded { .. } => RuleCounts { degraded: bump(c.degraded), ..c },
        Event::NoChange { .. } => RuleCounts { no_change: bump(c.no_change), ..c },
        Event::Applied { .. } => RuleCounts { applied: bump(c.applied), ..c },
        Event::Vetoed { .. } => RuleCounts { rejected: bump(c.rejected), ..c },
        Event::Rejected { .. } => RuleCounts { rejected: bump(c.rejected), ..c },
    }
}

impl RuleCensus {
    /// Nothing counted.
    pub fn new() -> (r: RuleCensus)
        ensures
            r.rules@.len() == 0,
    {
        RuleCensus { rules: Vec::new() }
    }

    /// Counts an event under its rule; events about no rule are not counted.
    pub fn note(&mut self, event: &Event<'_>)
        ensures
            event_rule(*event) is None ==> final(self).rules@ == old(self).rules@,
            event_rule(*event) matches Some(n) ==> census_of(final(self).rules@, n) == counted(
                census_of(old(self).rules@, n),
                *event,
            ) && forall|o: Seq<char>|
                o != n ==> #[trigger] census_of(final(self).rules@, o) == census_of(
                    old(self).rules@,
                    o,
                ),
    {
        let rule: &Rule = match event {
            Event::Candidate { rule, .. } => rule,
            Event::NoMatch { rule } => rule,
            Event::GuardFalse { rule } => rule,
            Event::Degraded { rule } => rule,
            Event::NoChange { rule } => rule,
            Event::Applied { by: By::Rule(rule), .. } => rule,
            Event::Vetoed { by: By::Rule(rule) } => rule,
            Event::Rejected { by: By::Rule(rule), .. } => rule,
            // Pass events are not per-rule.
            _ => {
                return ;
            },
        };
        let ghost n = rule.name@;
        let mut i: usize = 0;
        while i < self.rules.len()
            invariant
                i <= self.rules.len(),
                *self == *old(self),
                n == rule.name@,
                event_rule(*event) == Some(n),
                forall|j: int| 0 <= j < i ==> #[trigger] self.rules@[j].name@ != n,
            decreases self.rules.len() - i,
        {
            if self.rules[i].name == rule.name {
                let c = count_event(self.rules[i].counts, event);
                let e = CensusEntry { name: rule.name.clone(), counts: c };
                proof {
                    let before = self.rules@;
                    let after = before.update(i as int, e);
                    lemma_census_at(before, n, i as int);
                    lemma_census_at(after, n, i as int);
                    assert forall|o: Seq<char>| o != n implies #[trigger] census_of(after, o)
                        == census_of(before, o) by {
                        lemma_census_update(before, i as int, e, o);
                    }
                }
                self.rules.set(i, e);
                return ;
            }
            i = i + 1;
        }
        let zero = RuleCounts {
            candidates: 0,
            no_match: 0,
            guard_false: 0,
            degraded: 0,
            no_change: 0,
            applied: 0,
            rejected: 0,
        };
        let e = CensusEntry { name: rule.name.clone(), counts: count_event(zero, event) };
        proof {
            let before = self.rules@;
            let after = before.push(e);
            lemma_census_at(before, n, i as int);
            assert forall|j: int| 0 <= j < i implies #[trigger] after[j].name@ != n by {
                assert(after[j] == before[j]);
            }
            lemma_census_at(after, n, i as int);
            assert(before.skip(i as int).len() == 0);
            assert forall|o: Seq<char>| o != n implies #[trigger] census_of(after, o)
                == census_of(before, o) by {
                lemma_census_push(before, e, o);
            }
        }
        self.rules.push(e);
    }
}

impl Observer for RuleCensus {
    fn event(&mut self, event: Event<'_>) {
        self.note(&event);
    }
}

/// Deterministic host policy. Its [`revision`](Hooks::revision) is part of the memo epoch, so
/// change it whenever the policy changes.
pub trait Hooks {
    /// The policy: whether rewriting `before` to `after` by a rule or a pass is accepted.
    spec fn allows(&self, cx: &Context, before: Expr, after: Expr, by: By<'_>) -> bool;

    /// Whether to accept rewriting `before` to `after` by a rule or a pass.
    fn admits(&self, cx: &Context, before: Expr, after: Expr, by: By<'_>) -> (r: bool)
        ensures
            r == self.allows(cx, before, after, by),
    ;

    /// Whether a pass may replace `e`, whose facts pin its value (or, for the demanded-bits
    /// pass, the bits of it that are observed), by a constant.
    fn fold_known(&self, cx: &Context, e: Expr) -> bool {
        true
    }

    /// A number that changes whenever the policy does.
    fn revision(&self) -> u64 {
        0
    }
}

} // verus!
