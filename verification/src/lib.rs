//! Verified solutions to a set of daily text-puzzle exercises.
//!
//! Each `dayNN` module holds the algorithmic core of one puzzle: parsing of
//! the fixed-format text it reads and the computation it performs, with
//! contracts stating what each function returns. File reading and printing
//! live outside the library.

pub mod day01_part1;
pub mod day01_part2;
pub mod day02_part1;
pub mod day02_part2;
pub mod day04_part1;
pub mod day04_part2;
pub mod day05_input;
pub mod day05_part1;
pub mod day05_part2;
pub mod day06_part1;
pub mod day06_part2;
pub mod day07;
pub mod day08;
pub mod day09;
pub mod day10;
pub mod day11_part2;
pub mod day12_part1;
pub mod text;
pub mod util;

use vstd::prelude::*;

verus! {

/// The error conditions shared by the day modules.
#[derive(Clone, Copy, Debug, PartialEq, Eq, Structural)]
pub enum Error {
    /// An interval was constructed with `start > end`.
    InvalidInterval,
    /// A query needs at least one seed value or interval and got none.
    EmptyInput,
    /// The text being parsed does not match the expected format.
    BadInput,
    /// A walk over the input did not terminate within its bound.
    NoProgress,
}

} // verus!
