//! Section-range overlaps, second iteration: the program around the range
//! logic takes only an input path.

use vstd::prelude::*;

verus! {

/// The command-line options of this puzzle's program: the input path,
/// with `-` for standard input.
#[derive(Debug)]
pub struct Args {
    pub fin: String,
}

} // verus!
