//! Start-of-message marker search in a datastream buffer.
//!
//! The marker is the first window of `n` consecutive characters that are
//! pairwise distinct; the answer is the position just past that window.

use vstd::prelude::*;

verus! {

/// Whether the characters of `s` at positions `from` up to `to` are
/// pairwise distinct.
pub open spec fn distinct_range(s: Seq<char>, from: int, to: int) -> bool {
    forall|a: int, b: int| #![trigger s[a], s[b]] from <= a < b < to ==> s[a] != s[b]
}

/// The first position `i` at or after `from` whose window of `n`
/// characters is pairwise distinct, if any window fits.
pub open spec fn first_distinct_start(s: Seq<char>, n: int, from: int) -> Option<int>
    decreases s.len() - from,
{
    if from < 0 || from + n > s.len() || n <= 0 {
        None
    } else if distinct_range(s, from, from + n) {
        Some(from)
    } else {
        first_distinct_start(s, n, from + 1)
    }
}

/// Whether the window `cs[from..from + n]` is pairwise distinct.
fn window_distinct(cs: &Vec<char>, from: usize, n: usize) -> (r: bool)
    requires
        from + n <= cs.len(),
    ensures
        r == distinct_range(cs@, from as int, from + n),
{
    let mut a: usize = from;
    while a < from + n
        invariant
            from <= a <= from + n <= cs.len(),
            forall|x: int, y: int| #![trigger cs@[x], cs@[y]] from <= x < y < from + n && x < a ==> cs@[x] != cs@[y],
        decreases from + n - a,
    {
        let mut b: usize = a + 1;
        while b < from + n
            invariant
                from <= a < b <= from + n <= cs.len(),
                forall|y: int| a < y < b ==> cs@[a as int] != #[trigger] cs@[y],
            decreases from + n - b,
        {
            if cs[a] == cs[b] {
                return false;
            }
            b = b + 1;
        }
        a = a + 1;
    }
    true
}

/// Position just past the first distinct window of width `n`, or `n` when
/// no window of the buffer is distinct.
pub fn find_marker(buffer: &str, n: usize) -> (r: usize)
    requires
        n >= 1,
    ensures
        r == match first_distinct_start(buffer@, n as int, 0) {
            Some(i) => i + n,
            None => n as int,
        },
{
    let cs = crate::text::to_chars(buffer);
    if cs.len() < n {
        return n;
    }
    let last: usize = cs.len() - n;
    let mut i: usize = 0;
    while i <= last
        invariant
            0 <= i <= last + 1,
            last + n == cs.len(),
            n >= 1,
            cs@ == buffer@,
            first_distinct_start(cs@, n as int, 0) == first_distinct_start(cs@, n as int, i as int),
        decreases last + 1 - i,
    {
        if window_distinct(&cs, i, n) {
            return i + n;
        }
        i = i + 1;
    }
    n
}

/// The command-line options of this puzzle's program: the input path
/// (`-` for standard input) and the alternate-part switch.
#[derive(Debug)]
pub struct Args {
    pub fin: String,
    pub part2: bool,
}

} // verus!
