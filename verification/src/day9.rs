//! Two-knot rope simulation: a head dragging a single tail.
//!
//! The head moves one square at a time; when the tail is no longer
//! touching it, the tail snaps to the square just behind the head along
//! the direction of motion.

use vstd::prelude::*;
use crate::day9_part2::ParseError;
use crate::day9_part2::pos_of;
use crate::day9_part2::touching_p;
use crate::text::i32_val;
use crate::text::split_ws;
use crate::text::tokens_of;
use crate::text::to_chars;

verus! {

broadcast use vstd::array::group_array_axioms;

/// The valid direction letters.
pub open spec fn valid_dir(c: char) -> bool {
    c == 'R' || c == 'L' || c == 'U' || c == 'D'
}

/// The unit move of a direction letter.
pub open spec fn dir_delta(c: char) -> (int, int) {
    if c == 'R' {
        (1, 0)
    } else if c == 'L' {
        (-1, 0)
    } else if c == 'U' {
        (0, 1)
    } else if c == 'D' {
        (0, -1)
    } else {
        (0, 0)
    }
}

/// Where the tail lands when it snaps behind a head that just moved in
/// direction `c`: one square behind the head along that direction.
pub open spec fn snapped_tail(c: char, h: (int, int)) -> (int, int) {
    if c == 'R' {
        (h.0 - 1, h.1)
    } else if c == 'L' {
        (h.0 + 1, h.1)
    } else if c == 'U' {
        (h.0, h.1 - 1)
    } else {
        (h.0, h.1 + 1)
    }
}

/// One unit step: the head moves one square; the tail snaps behind it
/// when no longer touching.
pub open spec fn step2(h: (int, int), t: (int, int), c: char) -> ((int, int), (int, int)) {
    let h2 = (h.0 + dir_delta(c).0, h.1 + dir_delta(c).1);
    if touching_p(h2, t) {
        (h2, t)
    } else {
        (h2, snapped_tail(c, h2))
    }
}

/// `n` unit steps in direction `c`.
pub open spec fn mv_spec(h: (int, int), t: (int, int), c: char, n: nat) -> (
    (int, int),
    (int, int),
)
    decreases n,
{
    if n == 0 {
        (h, t)
    } else {
        let prev = mv_spec(h, t, c, (n - 1) as nat);
        step2(prev.0, prev.1, c)
    }
}

/// The command encoded by one line: a direction letter (judged by the
/// first character of the first token) and a non-negative distance.
pub open spec fn parse_line_spec(s: Seq<char>) -> Result<(char, i32), ParseError> {
    let toks = split_ws(s);
    if toks.len() < 2 {
        Err(ParseError::MissingToken)
    } else if !valid_dir(toks[0][0]) {
        Err(ParseError::BadDirection)
    } else {
        match i32_val(toks[1]) {
            Some(v) => if v >= 0 {
                Ok((toks[0][0], v))
            } else {
                Err(ParseError::BadDistance)
            },
            None => Err(ParseError::BadDistance),
        }
    }
}

/// Reads one command line: a direction letter and a distance.
pub fn parse_line(line: &str) -> (r: Result<(char, i32), ParseError>)
    ensures
        r == parse_line_spec(line@),
{
    let cs = to_chars(line);
    let toks = tokens_of(&cs);
    proof {
        crate::day9_part2::lemma_split_ws_tokens_nonempty(cs@);
    }
    if toks.len() < 2 {
        return Err(ParseError::MissingToken);
    }
    proof {
        assert(toks.deep_view()[0] == toks@[0].deep_view());
        assert(toks@[0].deep_view() =~= toks@[0]@);
        assert(toks.deep_view()[1] == toks@[1].deep_view());
        assert(toks@[1].deep_view() =~= toks@[1]@);
        assert(split_ws(cs@)[0].len() >= 1);
    }
    let first = &toks[0];
    let dir_char = first[0];
    if !(dir_char == 'R' || dir_char == 'L' || dir_char == 'U' || dir_char == 'D') {
        return Err(ParseError::BadDirection);
    }
    let second = &toks[1];
    proof {
        assert(second@.subrange(0, second@.len() as int) =~= second@);
    }
    match crate::text::parse_i32_range(second, 0, second.len()) {
        Some(v) => {
            if v >= 0 {
                Ok((dir_char, v))
            } else {
                Err(ParseError::BadDistance)
            }
        },
        None => Err(ParseError::BadDistance),
    }
}

/// A head and the single tail that follows it.
pub struct Rope {
    pub head: [i32; 2],
    pub tail: [i32; 2],
}

impl Rope {
    /// The head position as an unbounded pair.
    pub open spec fn head_view(self) -> (int, int) {
        pos_of(self.head)
    }

    /// The tail position as an unbounded pair.
    pub open spec fn tail_view(self) -> (int, int) {
        pos_of(self.tail)
    }

    /// Whether head and tail are touching: Chebyshev distance at most one.
    pub fn is_touching(&self) -> (r: bool)
        requires
            i32::MIN <= self.head_view().0 - self.tail_view().0 <= i32::MAX,
            i32::MIN <= self.head_view().1 - self.tail_view().1 <= i32::MAX,
        ensures
            r == touching_p(self.head_view(), self.tail_view()),
    {
        let dx = self.head[0] - self.tail[0];
        let dy = self.head[1] - self.tail[1];
        -1 <= dx && dx <= 1 && -1 <= dy && dy <= 1
    }

    /// Snaps the tail to the square just behind the head along `direction`.
    pub fn move_tail(&mut self, direction: char)
        requires
            valid_dir(direction),
            i32::MIN + 1 <= old(self).head_view().0 <= i32::MAX - 1,
            i32::MIN + 1 <= old(self).head_view().1 <= i32::MAX - 1,
        ensures
            final(self).tail_view() == snapped_tail(direction, old(self).head_view()),
            final(self).head == old(self).head,
    {
        let h = self.head;
        if direction == 'R' {
            self.tail = pair(h[0] - 1, h[1]);
        } else if direction == 'L' {
            self.tail = pair(h[0] + 1, h[1]);
        } else if direction == 'U' {
            self.tail = pair(h[0], h[1] - 1);
        } else {
            self.tail = pair(h[0], h[1] + 1);
        }
    }

    /// One unit step: moves the head one square in `direction` and snaps
    /// the tail behind it when no longer touching.
    pub fn move_head(&mut self, direction: char)
        requires
            valid_dir(direction),
            i32::MIN + 2 <= old(self).head_view().0 <= i32::MAX - 2,
            i32::MIN + 2 <= old(self).head_view().1 <= i32::MAX - 2,
            i32::MIN + 1 <= old(self).head_view().0 - old(self).tail_view().0 <= i32::MAX - 1,
            i32::MIN + 1 <= old(self).head_view().1 - old(self).tail_view().1 <= i32::MAX - 1,
        ensures
            (final(self).head_view(), final(self).tail_view()) == step2(
                old(self).head_view(),
                old(self).tail_view(),
                direction,
            ),
    {
        let h = self.head;
        if direction == 'R' {
            self.head = pair(h[0] + 1, h[1]);
        } else if direction == 'L' {
            self.head = pair(h[0] - 1, h[1]);
        } else if direction == 'U' {
            self.head = pair(h[0], h[1] + 1);
        } else {
            self.head = pair(h[0], h[1] - 1);
        }
        if !self.is_touching() {
            self.move_tail(direction);
        }
    }

    /// Pulls the head `dist` squares in `direction`, one unit step at a
    /// time.  A non-positive distance changes nothing.
    pub fn mv(&mut self, direction: char, dist: i32)
        requires
            valid_dir(direction),
            ({
                let n = if dist >= 0 {
                    dist as int
                } else {
                    0
                };
                &&& i32::MIN + n + 2 <= old(self).head_view().0 <= i32::MAX - n - 2
                &&& i32::MIN + n + 2 <= old(self).head_view().1 <= i32::MAX - n - 2
                &&& i32::MIN + n + 2 <= old(self).head_view().0 - old(self).tail_view().0
                    <= i32::MAX - n - 2
                &&& i32::MIN + n + 2 <= old(self).head_view().1 - old(self).tail_view().1
                    <= i32::MAX - n - 2
            }),
        ensures
            ({
                let n = (if dist >= 0 {
                    dist as int
                } else {
                    0
                }) as nat;
                (final(self).head_view(), final(self).tail_view()) == mv_spec(
                    old(self).head_view(),
                    old(self).tail_view(),
                    direction,
                    n,
                )
            }),
            ({
                let n = if dist >= 0 {
                    dist as int
                } else {
                    0
                };
                crate::axis_gap(final(self).head_view().0, old(self).head_view().0) <= n
                    && crate::axis_gap(final(self).head_view().1, old(self).head_view().1) <= n
            }),
            final(self).tail_view() == old(self).tail_view() || touching_p(
                final(self).head_view(),
                final(self).tail_view(),
            ),
    {
        let ghost n: int = if dist >= 0 {
            dist as int
        } else {
            0
        };
        let ghost h0 = old(self).head_view();
        let ghost t0 = old(self).tail_view();
        let mut step: i32 = 0;
        while step < dist
            invariant
                0 <= step <= n,
                n == if dist >= 0 {
                    dist as int
                } else {
                    0
                },
                valid_dir(direction),
                h0 == old(self).head_view(),
                t0 == old(self).tail_view(),
                i32::MIN + n + 2 <= h0.0 <= i32::MAX - n - 2,
                i32::MIN + n + 2 <= h0.1 <= i32::MAX - n - 2,
                i32::MIN + n + 2 <= h0.0 - t0.0 <= i32::MAX - n - 2,
                i32::MIN + n + 2 <= h0.1 - t0.1 <= i32::MAX - n - 2,
                (self.head_view(), self.tail_view()) == mv_spec(h0, t0, direction, step as nat),
                crate::axis_gap(self.head_view().0, h0.0) <= step,
                crate::axis_gap(self.head_view().1, h0.1) <= step,
                self.tail_view() == t0 || touching_p(self.head_view(), self.tail_view()),
            decreases dist - step,
        {
            self.move_head(direction);
            step = step + 1;
        }
    }
}

/// A grid cell with the given coordinates.
fn pair(x: i32, y: i32) -> (r: [i32; 2])
    ensures
        pos_of(r) == (x as int, y as int),
{
    let mut r: [i32; 2] = [x; 2];
    r[1] = y;
    r
}

/// The command-line options of this puzzle's program: the input path
/// (`-` for standard input) and the alternate-part switch.
#[derive(Debug)]
pub struct Args {
    pub fin: String,
    pub part2: bool,
}

} // verus!
