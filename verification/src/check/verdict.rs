//! How thoroughly rules are checked, and what a check says.

use vstd::prelude::*;
use crate::text;
use crate::text::{decimal, value_string};
use crate::rules::meaning;
use crate::expr::Expr;
use crate::bitvec::BitVec;
use crate::rules::rule::{Rule, RuleId, RuleKind};

verus! {

/// How thoroughly to check.
#[derive(Debug)]
pub struct CheckConfig {
    /// Enumerate every width assignment with all widths up to this.
    pub max_exhaustive_width: u16,
    /// ... when the parameters have at most this many bits in total (at most 40 is used).
    pub max_exhaustive_bits: u32,
    /// Widths used for sampling (each width variable ranges over these).
    pub sample_widths: Vec<u16>,
    /// Random parameter tuples per sampled width assignment.
    pub samples: u32,
    /// Seed for sampling.
    pub seed: u64,
}

/// The widths sampled unless told otherwise.
pub open spec fn default_widths() -> Seq<u16> {
    seq![
        7u16, 8, 9, 12, 16, 31, 32, 33, 63, 64, 65, 96, 127, 128, 129, 192, 255, 256, 257, 384, 511,
        512,
    ]
}

impl Default for CheckConfig {
    fn default() -> (r: Self)
        ensures
            r.max_exhaustive_width == 6,
            r.max_exhaustive_bits == 16,
            r.sample_widths@ == default_widths(),
            r.samples == 64,
            r.seed == 0x5eed_cafe,
    {
        let sample_widths: Vec<u16> = vec![
            7, 8, 9, 12, 16, 31, 32, 33, 63, 64, 65, 96, 127, 128, 129, 192, 255, 256, 257, 384,
            511, 512,
        ];
        assert(sample_widths@ =~= default_widths());
        CheckConfig {
            max_exhaustive_width: 6,
            max_exhaustive_bits: 16,
            sample_widths,
            samples: 64,
            seed: 0x5eed_cafe,
        }
    }
}

impl CheckConfig {
    /// The deeper configuration, for long runs.
    pub fn thorough() -> (r: Self)
        ensures
            r.max_exhaustive_width == 8,
            r.max_exhaustive_bits == 24,
            r.sample_widths@ == default_widths(),
            r.samples == 2048,
            r.seed == 0x5eed_cafe,
    {
        let mut c = CheckConfig::default();
        c.max_exhaustive_width = 8;
        c.max_exhaustive_bits = 24;
        c.samples = 2048;
        c
    }

    /// Sets [`max_exhaustive_width`](Self::max_exhaustive_width).
    pub fn with_max_exhaustive_width(self, max_exhaustive_width: u16) -> (r: Self)
        ensures
            r == (CheckConfig { max_exhaustive_width, ..self }),
    {
        let mut c = self;
        c.max_exhaustive_width = max_exhaustive_width;
        c
    }

    /// Sets [`max_exhaustive_bits`](Self::max_exhaustive_bits).
    pub fn with_max_exhaustive_bits(self, max_exhaustive_bits: u32) -> (r: Self)
        ensures
            r == (CheckConfig { max_exhaustive_bits, ..self }),
    {
        let mut c = self;
        c.max_exhaustive_bits = max_exhaustive_bits;
        c
    }

    /// Sets [`sample_widths`](Self::sample_widths).
    pub fn with_sample_widths(self, sample_widths: Vec<u16>) -> (r: Self)
        ensures
            r == (CheckConfig { sample_widths, ..self }),
    {
        let mut c = self;
        c.sample_widths = sample_widths;
        c
    }

    /// Sets [`samples`](Self::samples).
    pub fn with_samples(self, samples: u32) -> (r: Self)
        ensures
            r == (CheckConfig { samples, ..self }),
    {
        let mut c = self;
        c.samples = samples;
        c
    }

    /// Sets [`seed`](Self::seed).
    pub fn with_seed(self, seed: u64) -> (r: Self)
        ensures
            r == (CheckConfig { seed, ..self }),
    {
        let mut c = self;
        c.seed = seed;
        c
    }
}

/// What the checker established about one rule.
#[derive(Clone, Copy, Debug, PartialEq, Eq, Structural)]
pub struct Evidence {
    /// Width assignments checked exhaustively.
    pub exhaustive_instances: u32,
    /// The largest width in an exhaustively checked assignment.
    pub exhaustive_max_width: u16,
    /// Parameter tuples checked exhaustively.
    pub exhaustive_cases: u64,
    /// Width assignments sampled.
    pub sampled_instances: u32,
    /// Parameter tuples sampled.
    pub sampled_cases: u64,
    /// Exhaustively checked tuples for which the guard held (the equation was tested).
    pub exhaustive_fired: u64,
    /// Sampled tuples for which the guard held.
    pub sampled_fired: u64,
    /// Whether every admitted width assignment of the rule was checked exhaustively (so
    /// sampling adds nothing).
    pub complete: bool,
}

impl Evidence {
    /// Nothing.
    pub fn none() -> (r: Evidence)
        ensures
            r == (Evidence {
                exhaustive_instances: 0,
                exhaustive_max_width: 0,
                exhaustive_cases: 0,
                sampled_instances: 0,
                sampled_cases: 0,
                exhaustive_fired: 0,
                sampled_fired: 0,
                complete: false,
            }),
    {
        Evidence {
            exhaustive_instances: 0,
            exhaustive_max_width: 0,
            exhaustive_cases: 0,
            sampled_instances: 0,
            sampled_cases: 0,
            exhaustive_fired: 0,
            sampled_fired: 0,
            complete: false,
        }
    }

    /// The evidence as text.
    pub open spec fn shown(&self) -> Seq<char> {
        "exhaustive(inst="@ + text::numeral(self.exhaustive_instances as nat, 10) + ",maxw="@
            + text::numeral(self.exhaustive_max_width as nat, 10) + ",cases="@ + text::numeral(
            self.exhaustive_cases as nat,
            10,
        ) + ",fired="@ + text::numeral(self.exhaustive_fired as nat, 10) + (if self.complete {
            ",complete"@
        } else {
            Seq::empty()
        }) + ") sampled(inst="@ + text::numeral(self.sampled_instances as nat, 10) + ",cases="@
            + text::numeral(self.sampled_cases as nat, 10) + ",fired="@ + text::numeral(
            self.sampled_fired as nat,
            10,
        ) + ")"@
    }

    /// The evidence as text.
    pub fn text(&self) -> (r: String)
        ensures
            r@ == self.shown(),
    {
        let mut s = "exhaustive(inst=".to_string();
        s.append(decimal(self.exhaustive_instances as u64).as_str());
        s.append(",maxw=");
        s.append(decimal(self.exhaustive_max_width as u64).as_str());
        s.append(",cases=");
        s.append(decimal(self.exhaustive_cases).as_str());
        s.append(",fired=");
        s.append(decimal(self.exhaustive_fired).as_str());
        if self.complete {
            s.append(",complete");
        }
        s.append(") sampled(inst=");
        s.append(decimal(self.sampled_instances as u64).as_str());
        s.append(",cases=");
        s.append(decimal(self.sampled_cases).as_str());
        s.append(",fired=");
        s.append(decimal(self.sampled_fired).as_str());
        s.append(")");
        assert(s@ =~= self.shown());
        s
    }

    /// Tuples for which the guard held, in either tier.
    pub fn guard_true_cases(&self) -> (r: u64)
        requires
            self.exhaustive_fired + self.sampled_fired <= u64::MAX,
        ensures
            r == self.exhaustive_fired + self.sampled_fired,
    {
        self.exhaustive_fired + self.sampled_fired
    }
}

/// Inputs on which the two sides of a rule differ.
#[derive(Debug)]
pub struct Counterexample {
    /// Width variable values.
    pub widths: Vec<(String, u16)>,
    /// Parameter values.
    pub params: Vec<(String, BitVec)>,
    /// The pattern's value.
    pub lhs: BitVec,
    /// The template's value.
    pub rhs: BitVec,
}

/// The first `n` width variables and their values as text.
pub open spec fn widths_shown(ws: Seq<(String, u16)>, n: int) -> Seq<char>
    decreases n,
{
    if n <= 0 {
        Seq::empty()
    } else {
        widths_shown(ws, n - 1) + (if n == 1 {
            Seq::empty()
        } else {
            ", "@
        }) + ws[n - 1].0@ + " = "@ + text::numeral(ws[n - 1].1 as nat, 10)
    }
}

/// The first `n` parameters and their values as text.
pub open spec fn params_shown(ps: Seq<(String, BitVec)>, n: int) -> Seq<char>
    decreases n,
{
    if n <= 0 {
        Seq::empty()
    } else {
        params_shown(ps, n - 1) + (if n == 1 {
            Seq::empty()
        } else {
            ", "@
        }) + ps[n - 1].0@ + " = "@ + text::value_text(ps[n - 1].1@)
    }
}

impl Counterexample {
    /// The counterexample as text.
    pub open spec fn shown(&self) -> Seq<char> {
        widths_shown(self.widths@, self.widths@.len() as int) + (if self.widths@.len() == 0 {
            Seq::empty()
        } else {
            "; "@
        }) + params_shown(self.params@, self.params@.len() as int) + ": lhs = "@ + text::value_text(
            self.lhs@,
        ) + ", rhs = "@ + text::value_text(self.rhs@)
    }

    /// The counterexample as text.
    pub fn text(&self) -> (r: String)
        ensures
            r@ == self.shown(),
    {
        let mut s = String::new();
        let mut i: usize = 0;
        assert(s@ =~= widths_shown(self.widths@, 0));
        while i < self.widths.len()
            invariant
                i <= self.widths@.len(),
                s@ == widths_shown(self.widths@, i as int),
            decreases self.widths@.len() - i,
        {
            let ghost before = s@;
            if i > 0 {
                s.append(", ");
            }
            s.append(self.widths[i].0.as_str());
            s.append(" = ");
            s.append(decimal(self.widths[i].1 as u64).as_str());
            i = i + 1;
            assert(s@ =~= widths_shown(self.widths@, i as int));
        }
        if self.widths.len() > 0 {
            s.append("; ");
        }
        let ghost front = s@;
        let mut j: usize = 0;
        assert(s@ =~= front + params_shown(self.params@, 0));
        while j < self.params.len()
            invariant
                j <= self.params@.len(),
                s@ == front + params_shown(self.params@, j as int),
            decreases self.params@.len() - j,
        {
            if j > 0 {
                s.append(", ");
            }
            s.append(self.params[j].0.as_str());
            s.append(" = ");
            s.append(value_string(&self.params[j].1).as_str());
            j = j + 1;
            assert(s@ =~= front + params_shown(self.params@, j as int));
        }
        s.append(": lhs = ");
        s.append(value_string(&self.lhs).as_str());
        s.append(", rhs = ");
        s.append(value_string(&self.rhs).as_str());
        assert(s@ =~= self.shown());
        s
    }

    /// The widths.
    pub open spec fn ws(&self) -> Seq<u16> {
        Seq::new(self.widths@.len(), |i: int| self.widths@[i].1)
    }

    /// The parameters' values.
    pub open spec fn ps(&self) -> Seq<Seq<bool>> {
        Seq::new(self.params@.len(), |i: int| self.params@[i].1@)
    }

    /// The rule's two sides differ there, where its guard holds.
    pub open spec fn refutes(&self, r: Rule) -> bool {
        &&& meaning::typed(r, self.ws())
        &&& meaning::wheres_hold(r, self.ws())
        &&& meaning::params_fit(r, self.ws(), self.ps())
        &&& meaning::guard_true(r, self.ws(), self.ps())
        &&& self.lhs@ == meaning::rvalue(r, r.lhs as int, self.ws(), self.ps())
        &&& self.rhs@ == meaning::rvalue(r, r.rhs as int, self.ws(), self.ps())
        &&& self.lhs@ != self.rhs@
        &&& self.widths@.len() == r.width_vars@.len()
        &&& forall|i: int|
            0 <= i < self.widths@.len() ==> (#[trigger] self.widths@[i]).0@ == r.width_vars@[i]@
        &&& forall|i: int|
            0 <= i < self.params@.len() ==> (#[trigger] self.params@[i]).0@ == r.params@[i].name@
    }
}

/// A refuted rule is not sound.
pub proof fn law_refuted_is_unsound(c: Counterexample, r: Rule)
    requires
        c.refutes(r),
    ensures
        !meaning::rule_sound(r),
{
    assert(!meaning::sides_agree(r, c.ws(), c.ps()));
}

/// The verdict for one rule.
#[derive(Debug)]
pub enum Verdict {
    /// No counterexample, the guard held in the exhaustive tier, and either the exhaustive
    /// tier covered every admitted width assignment or the guard also held in the sampled
    /// tier. The evidence says how much was checked.
    Sound,
    /// A counterexample.
    Unsound(Counterexample),
    /// No counterexample, but not enough evidence to pass; the reason says which tier is
    /// missing.
    Inconclusive(&'static str),
}

/// An example of a rule that does not hold.
#[derive(Debug)]
pub enum ExampleFailure {
    /// The input or the output cannot be built.
    Parse {
        /// Which example.
        example: usize,
        /// The input.
        input: Expr,
        /// The output expected.
        expected: Expr,
    },
    /// The rule does not apply to the input (its pattern does not match, or its guard is not
    /// proven).
    DoesNotFire {
        /// Which example.
        example: usize,
        /// The input.
        input: Expr,
    },
    /// The rule applies but gives something else.
    Differs {
        /// Which example.
        example: usize,
        /// The input.
        input: Expr,
        /// The output expected.
        expected: Expr,
        /// What the rule gives.
        got: Expr,
    },
}

/// The result of checking one rule.
#[derive(Debug)]
pub struct RuleCheck {
    /// The rule's name.
    pub name: String,
    /// The rule's content hash.
    pub id: RuleId,
    /// Rewrite or identity.
    pub kind: RuleKind,
    /// The verdict.
    pub verdict: Verdict,
    /// What was checked.
    pub evidence: Evidence,
    /// The examples that did not hold (see
    /// [`check_examples`](crate::check::examples::check_examples)).
    pub examples: Vec<ExampleFailure>,
}

impl RuleCheck {
    /// Whether the rule passed with exhaustive evidence.
    pub fn is_sound(&self) -> (r: bool)
        ensures
            r == (self.verdict is Sound),
    {
        matches!(self.verdict, Verdict::Sound)
    }
}

/// What the evidence of a rule without a counterexample says.
pub open spec fn decided(ev: Evidence, v: Verdict) -> bool {
    if ev.exhaustive_instances == 0 {
        v matches Verdict::Inconclusive(why) && why@
            == "no admitted width assignment is small enough to check exhaustively"@
    } else if ev.exhaustive_fired == 0 {
        v matches Verdict::Inconclusive(why) && why@ == "the guard never held in the exhaustive tier"@
    } else if !ev.complete && ev.sampled_fired == 0 {
        v matches Verdict::Inconclusive(why) && why@ == "the guard never held in the sampled tier"@
    } else {
        v is Sound
    }
}

/// The verdict on a rule without a counterexample.
pub(crate) fn decide(ev: &Evidence) -> (v: Verdict)
    ensures
        decided(*ev, v),
        !(v is Unsound),
{
    if ev.exhaustive_instances == 0 {
        Verdict::Inconclusive(
            "no admitted width assignment is small enough to check exhaustively",
        )
    } else if ev.exhaustive_fired == 0 {
        Verdict::Inconclusive("the guard never held in the exhaustive tier")
    } else if !ev.complete && ev.sampled_fired == 0 {
        Verdict::Inconclusive("the guard never held in the sampled tier")
    } else {
        Verdict::Sound
    }
}

} // verus!
