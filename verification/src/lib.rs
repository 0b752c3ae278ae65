//! Verified solutions to a collection of small daily text puzzles.
//!
//! Each module solves one puzzle: it parses a constrained line format into
//! plain values and runs a small simulation or combinatorial computation.
//! All parsing and all puzzle logic is verified; reading input and printing
//! answers is left to the callers.  A few puzzles exist in two revisions
//! (`day6`/`day06`, and so on), kept side by side as separate modules.

pub mod day01;
pub mod day04;
pub mod day06;
pub mod day07;
pub mod day08;
pub mod day10;
pub mod day11;
pub mod day2;
pub mod day3;
pub mod day3_part2;
pub mod day4;
pub mod day5;
pub mod day6;
pub mod day7;
pub mod day8;
pub mod day9;
pub mod day9_part2;
pub mod text;

use vstd::prelude::*;

verus! {

/// Chebyshev distance on one axis: how far two coordinates are apart.
pub open spec fn axis_gap(a: int, b: int) -> int {
    if a >= b {
        a - b
    } else {
        b - a
    }
}

} // verus!
