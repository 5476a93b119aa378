//! Exact 0/1 knapsack solving by branch and bound, under a time budget.
//!
//! Values and weights are integers in whatever smallest unit the caller
//! works in, so every sum the solver reports is exact.

pub mod model;
pub mod order;
pub mod optimum;
pub mod bound;
pub mod search;
pub mod transfer;
pub mod clock;
pub mod solver;
pub mod laws;

pub use model::{Item, Problem, Solution, Status};
pub use search::Search;
pub use solver::{out_of_time, solve, solve_exhaustively, solve_within, POLL_INTERVAL};
