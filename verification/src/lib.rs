//! Verified core of the POKER GOAT solver command line: card codes, range notation, job
//! validation, suit isomorphism, the solution blob format, the export of a solved game and the
//! decisions of the solving loop.

mod le;

pub mod action_laws;
pub mod apportion;
pub mod arith;
pub mod blob;
pub mod blob_laws;
pub mod cards;
pub mod cli;
pub mod config;
pub mod count;
pub mod count_laws;
pub mod deal_laws;
pub mod difference;
pub mod error;
pub mod ev;
pub mod export;
pub mod export_laws;
pub mod files;
pub mod ieee;
pub mod job;
pub mod job_laws;
pub mod layout_laws;
pub mod money_laws;
pub mod number_laws;
pub mod packing;
pub mod plan;
pub mod range;
pub mod range_laws;
pub mod rounding;
pub mod signed;
pub mod sizes;
pub mod solution;
pub mod solve;
pub mod strategy;
pub mod strategy_laws;
pub mod subtree_laws;
pub mod suit_laws;
pub mod summary_laws;
pub mod sums;
pub mod text;
pub mod toy_laws;
pub mod tree;
pub mod validate;
pub mod walk_laws;
pub mod weights;

pub use crate::job::{ENGINE_REV, SOLVER_VERSION};
