//! What a step of the engine says about a node: its replacement, whether that is final, and
//! what it relies on.

use vstd::prelude::*;
use crate::term;
use crate::engine::budget::Exhausted;
use crate::facts::reliance::{Hyp, Reliance};
use crate::term::{Env, Term};

verus! {

/// Whether a result is final (memoizable), and if it is not because a cap declined some rule,
/// which one (a root with such a result ends `BudgetTerminated`); and the constraints the
/// rewrites that produced it relied on.
#[derive(Clone, Copy, Debug, PartialEq, Eq, Structural)]
pub struct Fin {
    /// Final.
    pub done: bool,
    /// The cap that declined something.
    pub why: Option<Exhausted>,
    /// The constraints relied on.
    pub rel: Reliance,
}

impl Fin {
    /// It relies on no constraint.
    pub open spec fn free(self) -> bool {
        forall|h: Hyp, env: Env| #[trigger] self.rel.admits(h, env)
    }

    /// Final, relying on nothing.
    pub fn full() -> (r: Fin)
        ensures
            r.done,
            r.why is None,
            r.rel.used == 0,
            r.free(),
    {
        Fin { done: true, why: None, rel: Reliance::none() }
    }

    /// Not final, for a reason that is not a cap (a rule quarantined for this call).
    pub fn provisional() -> (r: Fin)
        ensures
            !r.done,
            r.why is None,
            r.rel.used == 0,
            r.free(),
    {
        Fin { done: false, why: None, rel: Reliance::none() }
    }

    /// Not final because of a cap.
    pub fn capped(why: Exhausted) -> (r: Fin)
        ensures
            !r.done,
            r.why == Some(why),
            r.rel.used == 0,
            r.free(),
    {
        Fin { done: false, why: Some(why), rel: Reliance::none() }
    }

    /// Final, relying on `rel`.
    pub fn relying(rel: Reliance) -> (r: Fin)
        ensures
            r.done,
            r.why is None,
            r.rel == rel,
    {
        Fin { done: true, why: None, rel }
    }

    /// The same, relying on nothing (for a node left unchanged: it equals itself everywhere).
    pub fn unchanged(self) -> (r: Fin)
        ensures
            r.done == self.done,
            r.why == self.why,
            r.rel.used == 0,
            r.free(),
    {
        Fin { done: self.done, why: self.why, rel: Reliance::none() }
    }

    /// Final only where no cap declined anything.
    pub fn closed(self) -> (r: Fin)
        ensures
            r.done == (self.done && self.why is None),
            r.why == self.why,
            r.rel == self.rel,
    {
        Fin { done: self.done && self.why.is_none(), why: self.why, rel: self.rel }
    }

    /// Both: final when both are, with the first reason that it is not, relying on what either
    /// relies on.
    pub fn and(self, o: Fin) -> (r: Fin)
        ensures
            r.done == (self.done && o.done),
            r.why == (if self.why is Some {
                self.why
            } else {
                o.why
            }),
            forall|k: int| #[trigger] r.rel.uses(k) <==> self.rel.uses(k) || o.rel.uses(k),
            forall|h: Hyp, env: Env| #[trigger]
                r.rel.admits(h, env) <==> self.rel.admits(h, env) && o.rel.admits(h, env),
    {
        Fin {
            done: self.done && o.done,
            why: match self.why {
                Some(e) => Some(e),
                None => o.why,
            },
            rel: self.rel.or(o.rel),
        }
    }
}

/// Stops a phase.
#[derive(Clone, Copy, Debug, PartialEq, Eq, Structural)]
pub enum Stop {
    /// A limit was reached.
    Exhausted(Exhausted),
}

/// A node's fate at a step, with what its declined candidates contribute.
#[derive(Clone, Copy, Debug, PartialEq, Eq, Structural)]
pub enum Step {
    /// Replaced.
    To(u32, Fin),
    /// Left as it is.
    Normal(Fin),
}

/// Nodes `a` and `b` have one width, and one value wherever the constraints relied on hold.
pub open spec fn equal_under(terms: Seq<Term>, h: Hyp, rel: Reliance, a: int, b: int) -> bool {
    &&& term::twidth(terms[a]) == term::twidth(terms[b])
    &&& forall|env: Env|
        #![trigger term::value(terms[a], env)]
        #![trigger term::value(terms[b], env)]
        rel.admits(h, env) ==> term::value(terms[a], env) == term::value(terms[b], env)
}

/// A step keeps the value of the node.
pub open spec fn step_keeps(s: Step, terms: Seq<Term>, h: Hyp, n: int) -> bool {
    match s {
        Step::To(e, fin) => e < terms.len() && term::twidth(terms[e as int]) == term::twidth(terms[n])
            && equal_under(terms, h, fin.rel, n, e as int),
        Step::Normal(_) => true,
    }
}

} // verus!
