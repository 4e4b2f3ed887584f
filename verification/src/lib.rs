//! Missionaries and cannibals: a verified search for a safe sequence of boat
//! trips that carries everyone from the left bank of a river to the right.
//!
//! A bank, or the boat, is safe when the cannibals there do not outnumber the
//! missionaries, or when no missionary is there. [`solve`] explores the
//! configurations that legal trips reach, in the order its frontier dictates,
//! and returns a sequence of trips exactly when one exists.
//!
//! - [`state`]: configurations, trips and the balance rule;
//! - [`puzzle`]: legal trips, paths and what it means to solve the puzzle;
//! - [`frontier`] and [`priority`]: the stack and the priority discipline;
//! - [`visited`]: the histories of the discovered configurations;
//! - [`search`]: the search itself.

pub mod frontier;
pub mod priority;
pub mod puzzle;
pub mod search;
pub mod state;
pub mod visited;

pub use frontier::StateQueue;
pub use priority::MinScoreQueue;
pub use puzzle::{successors, Puzzle};
pub use search::{expand, solve, solve_both};
pub use state::{
    score, update_counts, validate_cannibal_missionary_balance, BoatMovement, State,
    ValidateCannibalMissionaryBalanceProp,
};
pub use visited::Visited;
