//! The simplifier.

pub mod memo;
pub mod budget;
pub mod stats;
pub mod strategy;
pub mod pass;
pub mod runner;
pub mod commit;
pub mod accept;
pub mod rebuild;
pub mod fin;
pub mod apply;
pub mod dispatch;
pub mod results;
pub mod link;
pub mod builder;
pub mod rest;
pub mod rewrite;
pub mod walk;
pub mod run;
pub mod host;
pub mod alone;
pub mod evidence;
