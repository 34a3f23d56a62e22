//! The soundness checker: evidence that every rule is a valid rewrite, and the proof ledger.
//!
//! **Obligation.** For every width assignment satisfying the rule's constraints at which the
//! pattern can match, and every value of the parameters: if the guard holds, the pattern and
//! the template evaluate to the same value. Guards may only talk about facts through positive
//! proof predicates (`proves`, `zero_bits`, `one_bits`, `nonzero`, `disjoint`), which are
//! monotone in fact precision; so evaluating them on the concrete values (the most precise
//! facts possible) proves the rule sound for every sound fact engine.
//!
//! **Evidence** is derived, never declared: exhaustive enumeration over every width
//! assignment up to `max_exhaustive_width` whose parameter space fits in
//! `max_exhaustive_bits`, plus boundary-biased random sampling at wide widths, half of it
//! steered toward values that satisfy the guard.
//!
//! Above the exhaustive widths a rule is only sampled. A rule therefore passes only if the guard
//! held in *both* tiers (unless every width at which the rule applies was covered exhaustively),
//! so one whose guard only holds at unsampled values cannot pass.

pub mod verdict;
pub mod random;
pub mod widths;
pub mod tuples;
pub mod steering;
pub mod rules;
pub mod ledger;
pub mod examples;
pub mod host;
