use vstd::prelude::*;

pub mod binomial;
pub mod driver;
pub mod engine;
pub mod strategies;
pub mod strategy;

verus! {

/// Number of slots on a board.
pub const NUM_SLOTS: usize = 20;

/// Sentinel lower bound: every drawn number is greater than this.
pub const LOWER_BOUND: i32 = -1;

/// Sentinel upper bound: every drawn number is less than this.
pub const UPPER_BOUND: i32 = 1000;

} // verus!
