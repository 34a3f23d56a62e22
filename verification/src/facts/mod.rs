//! What is known about values: constraints, known bits, and the facts of expressions.

pub mod reliance;
pub mod floor;
pub mod known;
pub mod transfer;
pub mod store;
