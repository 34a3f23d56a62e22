//! Rewrite rules: a pattern, a guard and a template over width variables and parameters.

pub mod rule;
pub mod meaning;
pub mod eval;
pub mod corpus;
pub mod heads;
pub mod structure;
pub mod matcher;
