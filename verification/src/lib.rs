//! A verified library for solving the n-queens problem.
//!
//! `utils::generate_bitset_columns` turns a set of pre-placed queens into
//! per-column attack masks (detecting mutually attacking inputs), and
//! `Solver` runs a bitmask-pruned backtracking search whose contract pins
//! down the exact, lexicographically ordered list of solutions.

pub mod bits;
pub mod board;
pub mod utils;
pub mod solver;

pub use solver::Solver;
