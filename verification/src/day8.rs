//! Tree visibility, first iteration: row parsing for the height grid.

use vstd::prelude::*;
use crate::day08::digits_of;

verus! {

/// The command-line options of this puzzle's program: the input path
/// (`-` for standard input) and the alternate-part switch.
#[derive(Debug)]
pub struct Args {
    pub fin: String,
    pub part2: bool,
}

/// Reads one grid row: each digit is a tree height.
pub fn line_to_values(line: String) -> (r: Vec<u32>)
    ensures
        r@ == digits_of(line@),
{
    crate::day08::line_to_values(line)
}

} // verus!
