//! Simulation of the stochastic multi-armed bandit problem and four arm
//! selection policies (epsilon-greedy, optimistic initial values, UCB1 and
//! Thompson sampling), in integer and fixed-point arithmetic.
use vstd::prelude::*;

pub mod estimate;
pub mod select;
pub mod environment;
mod draw;
pub mod fixed;
pub mod ucb;
pub mod thompson;
pub mod policies;

verus! {

/// Number of fixed-point units in one: probabilities and uniform draws are
/// integers in `[0, SCALE)` standing for values in `[0, 1)`.
pub const SCALE: u64 = 4294967296;

} // verus!
