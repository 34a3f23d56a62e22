//! Evidence for the answers of an MBA solver: which are taken, which are kept for later calls, and
//! what is final. A solver, a prover and a cache are services of the host; a [`Question`] says
//! what to ask them next, and decides from what they said.

use vstd::prelude::*;
use crate::engine::stats;
use crate::engine::budget::Exhausted;
use crate::engine::fin::Fin;
use crate::engine::stats::{bump, CertVerdict, MbaStats};
use crate::expr::Node;
use crate::ops::{BinOp, UnOp};

verus! {

/// What a solver claims of its answer.
#[derive(Clone, Copy, Debug, PartialEq, Eq, Structural)]
pub enum Claim {
    /// Nothing.
    Unproved,
    /// It has a proof.
    Proved,
}

/// What a solver answers.
#[derive(Clone, Copy, Debug, PartialEq, Eq, Structural)]
pub enum MbaAnswer {
    /// A simpler expression; whether it has the variables and the width of the question.
    Simplified {
        /// It has them.
        fits: bool,
        /// What the solver claims of it.
        claim: Claim,
    },
    /// There is none simpler.
    NoSimpler,
    /// Not a question for it.
    Unsupported,
    /// It ran out of its budget.
    Exhausted,
}

/// What a cache holds for a question.
#[derive(Clone, Copy, Debug, PartialEq, Eq, Structural)]
pub enum CacheEntry {
    /// There is none simpler.
    NoSimpler,
    /// A simpler expression, proved when it was put there.
    Simplified,
}

/// Which evidence is taken beside proofs.
#[derive(Clone, Copy, Debug, PartialEq, Eq, Structural)]
pub struct Trust {
    /// The solver's own word that it has a proof.
    pub backend_certificates: bool,
    /// Agreement at sampled points.
    pub sampled: bool,
}

/// What is known of a question so far.
#[derive(Clone, Copy, Debug, PartialEq, Eq)]
pub struct Question {
    /// Which evidence is taken.
    pub trust: Trust,
    /// Whether there is a prover.
    pub has_prover: bool,
    /// What the cache held: none if it was not asked yet, none inside if it held nothing.
    pub cached: Option<Option<CacheEntry>>,
    /// What the solver answered.
    pub answer: Option<MbaAnswer>,
    /// Whether the sides agree at the refutation sample.
    pub sampled: Option<bool>,
    /// What the certificates found, and whether one was skipped for lack of budget.
    pub own: Option<(CertVerdict, bool)>,
    /// What the prover found.
    pub prover: Option<CertVerdict>,
}

/// What comes of a question.
#[derive(Clone, Copy, Debug, PartialEq, Eq, Structural)]
pub enum Settled {
    /// The answer is taken; it was in the cache.
    Cached,
    /// The answer is taken.
    Take,
    /// The cache says there is none simpler.
    KnownSimplest,
    /// The answer is wrong.
    Refuted,
    /// No evidence is taken for it; whether a certificate was skipped for lack of budget.
    Unknown {
        /// One was skipped.
        capped: bool,
    },
    /// There is none simpler.
    NoSimpler,
    /// Not a question for the solver.
    Unsupported,
    /// The solver ran out of its budget.
    Exhausted,
}

/// What to do next.
#[derive(Clone, Copy, Debug, PartialEq, Eq, Structural)]
pub enum Inquiry {
    /// Look in the cache.
    LookUp,
    /// Ask the solver (a call is charged).
    AskSolver,
    /// Compare the sides at the refutation sample.
    Sample,
    /// Run the certificates.
    Certify,
    /// Ask the prover.
    AskProver,
    /// Done.
    Done(Settled),
}

/// There is evidence that is taken.
pub open spec fn accepted(q: Question, claim: Claim) -> bool {
    ||| q.own matches Some((CertVerdict::Proved, _))
    ||| q.prover == Some(CertVerdict::Proved)
    ||| q.trust.backend_certificates && claim == Claim::Proved
    ||| q.trust.sampled
}

/// What to do next: the cache, then the solver, then for an answer that fits the sample (always),
/// the certificates (always) and, where they do not decide, the prover.
pub open spec fn action_for(q: Question) -> Inquiry {
    match q.cached {
        None => Inquiry::LookUp,
        Some(Some(CacheEntry::NoSimpler)) => Inquiry::Done(Settled::KnownSimplest),
        Some(Some(CacheEntry::Simplified)) => Inquiry::Done(Settled::Cached),
        Some(None) => match q.answer {
            None => Inquiry::AskSolver,
            Some(MbaAnswer::NoSimpler) => Inquiry::Done(Settled::NoSimpler),
            Some(MbaAnswer::Unsupported) => Inquiry::Done(Settled::Unsupported),
            Some(MbaAnswer::Exhausted) => Inquiry::Done(Settled::Exhausted),
            Some(MbaAnswer::Simplified { fits, claim }) => if !fits {
                Inquiry::Done(Settled::Refuted)
            } else {
                match (q.sampled, q.own) {
                    (None, _) => Inquiry::Sample,
                    (Some(false), _) => Inquiry::Done(Settled::Refuted),
                    (Some(true), None) => Inquiry::Certify,
                    (Some(true), Some((CertVerdict::Refuted, _))) => Inquiry::Done(
                        Settled::Refuted,
                    ),
                    (Some(true), Some((verdict, capped))) => if verdict != CertVerdict::Proved
                        && q.has_prover && q.prover is None {
                        Inquiry::AskProver
                    } else if accepted(q, claim) {
                        Inquiry::Done(Settled::Take)
                    } else {
                        Inquiry::Done(Settled::Unknown { capped })
                    },
                }
            },
        },
    }
}

impl Question {
    /// A question of which nothing is known.
    pub fn new(trust: Trust, has_prover: bool) -> (r: Question)
        ensures
            r == (Question {
                trust,
                has_prover,
                cached: None,
                answer: None,
                sampled: None,
                own: None,
                prover: None,
            }),
    {
        Question {
            trust,
            has_prover,
            cached: None,
            answer: None,
            sampled: None,
            own: None,
            prover: None,
        }
    }

    /// What to do next.
    pub fn next(&self) -> (r: Inquiry)
        ensures
            r == action_for(*self),
    {
        let answer = match self.cached {
            None => {
                return Inquiry::LookUp;
            },
            Some(Some(CacheEntry::NoSimpler)) => {
                return Inquiry::Done(Settled::KnownSimplest);
            },
            Some(Some(CacheEntry::Simplified)) => {
                return Inquiry::Done(Settled::Cached);
            },
            Some(None) => self.answer,
        };
        let claim = match answer {
            None => {
                return Inquiry::AskSolver;
            },
            Some(MbaAnswer::NoSimpler) => {
                return Inquiry::Done(Settled::NoSimpler);
            },
            Some(MbaAnswer::Unsupported) => {
                return Inquiry::Done(Settled::Unsupported);
            },
            Some(MbaAnswer::Exhausted) => {
                return Inquiry::Done(Settled::Exhausted);
            },
            Some(MbaAnswer::Simplified { fits, claim }) => {
                if !fits {
                    return Inquiry::Done(Settled::Refuted);
                }
                claim
            },
        };
        // Always: a cheap refutation check.
        match self.sampled {
            None => {
                return Inquiry::Sample;
            },
            Some(agree) => {
                if !agree {
                    return Inquiry::Done(Settled::Refuted);
                }
            },
        }
        let (verdict, capped) = match self.own {
            None => {
                return Inquiry::Certify;
            },
            Some(own) => own,
        };
        if verdict == CertVerdict::Refuted {
            return Inquiry::Done(Settled::Refuted);
        }
        if verdict != CertVerdict::Proved && self.has_prover && self.prover.is_none() {
            return Inquiry::AskProver;
        }
        let proved = match self.prover {
            Some(v) => v == CertVerdict::Proved,
            None => false,
        };
        if verdict == CertVerdict::Proved || proved || (self.trust.backend_certificates && claim
            == Claim::Proved) || self.trust.sampled {
            Inquiry::Done(Settled::Take)
        } else {
            Inquiry::Done(Settled::Unknown { capped })
        }
    }
}

impl Settled {
    /// Whether the result is final: not where more budget might do better.
    pub fn fin(self) -> (r: Fin)
        ensures
            r.done <==> !(self is Exhausted) && self != (Settled::Unknown { capped: true }),
            r.why == (match self {
                Settled::Exhausted => Some(Exhausted::MbaCalls),
                Settled::Unknown { capped: true } => Some(Exhausted::PassWork),
                _ => None,
            }),
            r.rel.used == 0,
    {
        match self {
            Settled::Exhausted => Fin::capped(Exhausted::MbaCalls),
            Settled::Unknown { capped } => if capped {
                // A certificate skipped for lack of budget might decide with more.
                Fin::capped(Exhausted::PassWork)
            } else {
                Fin::full()
            },
            _ => Fin::full(),
        }
    }

    /// What the cache is to keep of it.
    pub fn kept(self) -> (r: Option<CacheEntry>)
        ensures
            r == (match self {
                Settled::Take => Some(CacheEntry::Simplified),
                Settled::NoSimpler => Some(CacheEntry::NoSimpler),
                _ => None,
            }),
    {
        match self {
            Settled::Take => Some(CacheEntry::Simplified),
            Settled::NoSimpler => Some(CacheEntry::NoSimpler),
            _ => None,
        }
    }

    /// Counts it.
    pub fn count(self, s: &mut MbaStats)
        ensures
            *final(s) == (match self {
                Settled::Cached | Settled::KnownSimplest => MbaStats {
                    cache_hits: stats::bumped(old(s).cache_hits),
                    ..*old(s)
                },
                Settled::Take => *old(s),
                Settled::Refuted => MbaStats { refuted: stats::bumped(old(s).refuted), ..*old(s) },
                Settled::Unknown { .. } => MbaStats {
                    proof_unknown: stats::bumped(old(s).proof_unknown),
                    ..*old(s)
                },
                Settled::NoSimpler => MbaStats {
                    no_simpler: stats::bumped(old(s).no_simpler),
                    ..*old(s)
                },
                Settled::Unsupported => MbaStats {
                    unsupported: stats::bumped(old(s).unsupported),
                    ..*old(s)
                },
                Settled::Exhausted => MbaStats {
                    exhausted: stats::bumped(old(s).exhausted),
                    ..*old(s)
                },
            }),
    {
        match self {
            Settled::Cached | Settled::KnownSimplest => {
                s.cache_hits = bump(s.cache_hits);
            },
            Settled::Take => {},
            Settled::Refuted => {
                s.refuted = bump(s.refuted);
            },
            Settled::Unknown { .. } => {
                s.proof_unknown = bump(s.proof_unknown);
            },
            Settled::NoSimpler => {
                s.no_simpler = bump(s.no_simpler);
            },
            Settled::Unsupported => {
                s.unsupported = bump(s.unsupported);
            },
            Settled::Exhausted => {
                s.exhausted = bump(s.exhausted);
            },
        }
    }
}

/// Whether a question is asked at a node with this operator: one that mixes arithmetic and
/// bitwise operators, or, for a solver that takes polynomials, a left shift.
pub fn asked_at(node: &Node, polynomials: bool) -> (r: bool)
    ensures
        r == match *node {
            Node::Un(op, _) => op == UnOp::Neg || op == UnOp::Not,
            Node::Bin(op, _, _) => op == BinOp::Add || op == BinOp::Sub || op == BinOp::Mul || op
                == BinOp::And || op == BinOp::Or || op == BinOp::Xor || (polynomials && op
                == BinOp::Shl),
            _ => false,
        },
{
    match *node {
        Node::Un(op, _) => op == UnOp::Neg || op == UnOp::Not,
        Node::Bin(op, _, _) => op == BinOp::Add || op == BinOp::Sub || op == BinOp::Mul || op
            == BinOp::And || op == BinOp::Or || op == BinOp::Xor || (polynomials && op
            == BinOp::Shl),
        _ => false,
    }
}

/// Whether a node is a link of a chain of sums (or of products) that its user goes on with: the
/// question at the user covers it.
pub fn chain_link(node: &Node, user: &Node) -> (r: bool)
    ensures
        r == match (*node, *user) {
            (Node::Bin(op, _, _), Node::Bin(up, _, _)) => ((op == BinOp::Add || op == BinOp::Sub)
                && (up == BinOp::Add || up == BinOp::Sub || up == BinOp::Shl)) || (op == BinOp::Mul
                && up == BinOp::Mul),
            (Node::Bin(op, _, _), Node::Un(up, _)) => (op == BinOp::Add || op == BinOp::Sub) && up
                == UnOp::Neg,
            _ => false,
        },
{
    match (*node, *user) {
        (Node::Bin(op, _, _), Node::Bin(up, _, _)) => ((op == BinOp::Add || op == BinOp::Sub) && (
        up == BinOp::Add || up == BinOp::Sub || up == BinOp::Shl)) || (op == BinOp::Mul && up
            == BinOp::Mul),
        (Node::Bin(op, _, _), Node::Un(up, _)) => (op == BinOp::Add || op == BinOp::Sub) && up
            == UnOp::Neg,
        _ => false,
    }
}

/// Without trust in anything but proofs, an answer of the solver is taken only if a certificate
/// or the prover proved it; and whatever is trusted, nothing that the sample or a certificate
/// refuted is taken.
pub proof fn law_only_evidence_is_taken(q: Question)
    requires
        action_for(q) == Inquiry::Done(Settled::Take),
    ensures
        q.sampled == Some(true),
        q.own is Some && q.own->Some_0.0 != CertVerdict::Refuted,
        q.answer is Some && q.answer->Some_0 is Simplified,
        !q.trust.sampled && !q.trust.backend_certificates ==> q.own->Some_0.0 == CertVerdict::Proved
            || q.prover == Some(CertVerdict::Proved),
{
}

/// A question is answered after at most five steps: each step asks for something that is not
/// known yet.
pub proof fn law_every_step_asks_something_new(q: Question)
    ensures
        action_for(q) is LookUp ==> q.cached is None,
        action_for(q) is AskSolver ==> q.answer is None,
        action_for(q) is Sample ==> q.sampled is None,
        action_for(q) is Certify ==> q.own is None,
        action_for(q) is AskProver ==> q.prover is None && q.has_prover,
{
}

} // verus!
