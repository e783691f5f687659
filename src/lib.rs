//! A solver for "flow" connection puzzles: a grid model with its legality
//! rules and text format, a single search state that makes forced and
//! branching moves, a depth-first driver that backtracks over suspended
//! search states, and the editing session in which a player draws the paths
//! by hand.

pub mod board;
pub mod game;
pub mod palette;
pub mod solver;
pub mod solver_stack;
pub mod text;
