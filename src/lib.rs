//! Optimal play advisor for a three-track refinement game.
//!
//! Each attempt on a track consumes one slot of that track and succeeds with
//! the probability of the current chance level. A success lowers the level, a
//! failure raises it. [`solution::Solution`] computes, for every reachable
//! state, the tracks ranked by expected final score, and rolls out that policy
//! to estimate the most likely final outcomes.

mod outside;

pub mod chance;
pub mod game;
pub mod outcomes;
pub mod state;
pub mod policy;
pub mod scoring;
pub mod service;
pub mod solution;
