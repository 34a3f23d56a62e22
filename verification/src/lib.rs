//! Bit-vector expressions of 1 to 512 bits with total SMT-LIB semantics, and a simplifier for
//! them: budgets, facts, rewrite rules, and normal-form passes that only ever replace an
//! expression by an equal one.

pub mod bits;
pub mod ops;
pub mod algebra;
pub mod bitvec;
pub mod text;
pub mod term;
pub mod dfs;
pub mod reach;
pub mod eval;
pub mod expr;
pub mod make;
pub mod api;
pub mod modular;
pub mod facts;
pub mod engine;
pub mod rules;
pub mod check;
pub mod laws;
