//! Start-of-packet marker search: the four-character case of the
//! datastream marker search.

use vstd::prelude::*;
use crate::day06::first_distinct_start;

verus! {

/// Position just past the first window of four pairwise-distinct
/// characters, or 4 when no such window exists.
pub fn find_marker(buffer: &str) -> (r: usize)
    ensures
        r == match first_distinct_start(buffer@, 4, 0) {
            Some(i) => i + 4,
            None => 4int,
        },
{
    crate::day06::find_marker(buffer, 4)
}

} // verus!
