//! Search for addition chains of a given length whose elements add up to a
//! given total, by depth-first search with bound pruning.

pub mod arith;
pub mod chain;
pub mod model;

pub use arith::{pow, sum_n_2};
pub use chain::{solve, try_chain, Chain};
