//! Verified solvers for a set of small daily text puzzles.
//!
//! Each module holds the parsing and scoring logic of one puzzle, with
//! contracts that state what every function computes. Reading input and
//! printing answers stay outside the library.

pub mod day_four;
pub mod day_one;
pub mod day_three;
pub mod day_two;
pub mod text;
