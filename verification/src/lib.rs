//! Verified solvers for a series of daily text puzzles. Each day module
//! reads one plain-text input and computes two numeric answers; every
//! solver's result is pinned by a contract over the byte sequence of its
//! input.
pub mod arith;
pub mod day1;
pub mod day2;
pub mod day3;
pub mod day4;
pub mod day5;
pub mod day6;
pub mod day7;
pub mod day8;
pub mod text;
