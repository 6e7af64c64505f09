//! A checkers (English draughts) engine: a rules-complete board model with
//! forced-capture move generation, and a Monte Carlo tree search planner that
//! picks a move under a fixed simulation budget.

pub mod board;
pub mod list;
pub mod montecarlo;
pub mod moves;
pub mod piece;
pub mod rng;
pub mod uct;
