//! Simulation of a ten-knot rope on an integer grid.
//!
//! Pulling the head one square at a time drags the knots behind it: a knot
//! that is no longer touching its predecessor (Chebyshev distance above
//! one) steps toward it, one square per axis.  The cells the last knot
//! occupies are recorded, and the answer is how many distinct cells were
//! ever visited.

use vstd::prelude::*;
use crate::axis_gap;
use crate::text::i32_val;
use crate::text::is_space;
use crate::text::split_ws;
use crate::text::tokens_of;
use crate::text::to_chars;

verus! {

broadcast use vstd::array::group_array_axioms;

#[derive(Debug, PartialEq, Eq, Structural, Clone, Copy)]
pub enum Direction {
    Up,
    Down,
    Left,
    Right,
}

/// Reasons a command line is rejected.
#[derive(Debug, PartialEq, Eq, Structural, Clone, Copy)]
pub enum ParseError {
    /// The line has fewer than two whitespace-separated tokens.
    MissingToken,
    /// The direction letter is not one of `R`, `L`, `U`, `D`.
    BadDirection,
    /// The distance token is not a non-negative integer.
    BadDistance,
}

impl Direction {
    /// The direction encoded by one letter, if any.
    pub open spec fn of_char(c: char) -> Option<Direction> {
        if c == 'R' {
            Some(Direction::Right)
        } else if c == 'L' {
            Some(Direction::Left)
        } else if c == 'U' {
            Some(Direction::Up)
        } else if c == 'D' {
            Some(Direction::Down)
        } else {
            None
        }
    }

    /// Builds the direction named by a valid letter.
    pub fn new(dir: char) -> (r: Direction)
        requires
            Direction::of_char(dir) is Some,
        ensures
            Some(r) == Direction::of_char(dir),
    {
        if dir == 'R' {
            Direction::Right
        } else if dir == 'L' {
            Direction::Left
        } else if dir == 'U' {
            Direction::Up
        } else {
            Direction::Down
        }
    }

    /// The unit move of each direction.
    pub open spec fn delta(self) -> (int, int) {
        match self {
            Direction::Right => (1, 0),
            Direction::Left => (-1, 0),
            Direction::Up => (0, 1),
            Direction::Down => (0, -1),
        }
    }
}

/// Every token produced by `split_ws` has at least one character.
pub proof fn lemma_split_ws_tokens_nonempty(s: Seq<char>)
    ensures
        forall|j: int| 0 <= j < split_ws(s).len() ==> #[trigger] split_ws(s)[j].len() >= 1,
    decreases s.len(),
{
    if s.len() > 0 {
        lemma_split_ws_tokens_nonempty(s.skip(1));
        if !is_space(s[0]) && s.len() > 1 && !is_space(s[1]) {
            assert(s.skip(1)[0] == s[1]);
            crate::text::lemma_split_ws_head(s.skip(1));
        }
    }
}

/// The command encoded by one line: a direction letter (judged by the first
/// character of the first token) and a non-negative distance.
pub open spec fn parse_line_spec(s: Seq<char>) -> Result<(Direction, i32), ParseError> {
    let toks = split_ws(s);
    if toks.len() < 2 {
        Err(ParseError::MissingToken)
    } else {
        match Direction::of_char(toks[0][0]) {
            Some(d) => match i32_val(toks[1]) {
                Some(v) => if v >= 0 {
                    Ok((d, v))
                } else {
                    Err(ParseError::BadDistance)
                },
                None => Err(ParseError::BadDistance),
            },
            None => Err(ParseError::BadDirection),
        }
    }
}

/// Reads one command line: a direction letter and a distance.
pub fn parse_line(line: &str) -> (r: Result<(Direction, i32), ParseError>)
    ensures
        r == parse_line_spec(line@),
{
    let cs = to_chars(line);
    let toks = tokens_of(&cs);
    proof {
        lemma_split_ws_tokens_nonempty(cs@);
    }
    if toks.len() < 2 {
        return Err(ParseError::MissingToken);
    }
    proof {
        assert(toks.deep_view()[0] == toks@[0].deep_view());
        assert(toks@[0].deep_view() =~= toks@[0]@);
        assert(toks.deep_view()[1] == toks@[1].deep_view());
        assert(toks@[1].deep_view() =~= toks@[1]@);
        assert(split_ws(cs@)[0].len() >= 1);
    }
    let first = &toks[0];
    let dir_char = first[0];
    if !(dir_char == 'R' || dir_char == 'L' || dir_char == 'U' || dir_char == 'D') {
        return Err(ParseError::BadDirection);
    }
    let direction = Direction::new(dir_char);
    let second = &toks[1];
    proof {
        assert(second@.subrange(0, second@.len() as int) =~= second@);
    }
    match crate::text::parse_i32_range(second, 0, second.len()) {
        Some(v) => {
            if v >= 0 {
                Ok((direction, v))
            } else {
                Err(ParseError::BadDistance)
            }
        },
        None => Err(ParseError::BadDistance),
    }
}

/// A knot position as a pair of unbounded coordinates.
pub open spec fn pos_of(p: [i32; 2]) -> (int, int) {
    (p@[0] as int, p@[1] as int)
}

/// The positions of a list of cells.
pub open spec fn pts_view(v: Seq<[i32; 2]>) -> Seq<(int, int)> {
    Seq::new(v.len(), |i: int| pos_of(v[i]))
}

/// Whether two cells are touching: Chebyshev distance at most one.
pub open spec fn touching_p(a: (int, int), b: (int, int)) -> bool {
    axis_gap(a.0, b.0) <= 1 && axis_gap(a.1, b.1) <= 1
}

/// Whether two cells are within distance `d` on each axis.
pub open spec fn within(a: (int, int), b: (int, int), d: int) -> bool {
    axis_gap(a.0, b.0) <= d && axis_gap(a.1, b.1) <= d
}

/// The catch-up rule on one axis: a knot two squares away steps to the
/// midpoint; otherwise its coordinate snaps to the predecessor's.
pub open spec fn catch_up_axis(prev: int, knot: int) -> int {
    if knot - prev == 2 {
        prev + 1
    } else if knot - prev == -2 {
        prev - 1
    } else {
        prev
    }
}

/// The catch-up rule applied to both axes at once.
pub open spec fn catch_up_p(prev: (int, int), knot: (int, int)) -> (int, int) {
    (catch_up_axis(prev.0, knot.0), catch_up_axis(prev.1, knot.1))
}

/// Every adjacent pair of the chain is touching.
pub open spec fn chain_wf(ks: Seq<(int, int)>) -> bool {
    forall|j: int| 0 <= j && j + 1 < ks.len() ==> touching_p(#[trigger] ks[j], ks[j + 1])
}

/// Propagates motion down the chain from link `i`: while a knot no longer
/// touches its predecessor it catches up, and the first touching link
/// stops the propagation.
pub open spec fn settle(ks: Seq<(int, int)>, i: int) -> Seq<(int, int)>
    decreases ks.len() - i,
{
    if i < 1 || i >= ks.len() {
        ks
    } else if touching_p(ks[i - 1], ks[i]) {
        ks
    } else {
        settle(ks.update(i, catch_up_p(ks[i - 1], ks[i])), i + 1)
    }
}

/// One unit step of the chain: the head moves one square and the rest of
/// the chain settles.
pub open spec fn chain_step(ks: Seq<(int, int)>, d: Direction) -> Seq<(int, int)> {
    settle(ks.update(0, (ks[0].0 + d.delta().0, ks[0].1 + d.delta().1)), 1)
}

/// Records a cell: already-seen cells are not added again.
pub open spec fn record(vs: Seq<(int, int)>, p: (int, int)) -> Seq<(int, int)> {
    if vs.contains(p) {
        vs
    } else {
        vs.push(p)
    }
}

/// One unit step of the whole simulation: the chain steps and the new tail
/// cell is recorded.
pub open spec fn rope_step(ks: Seq<(int, int)>, vs: Seq<(int, int)>, d: Direction) -> (
    Seq<(int, int)>,
    Seq<(int, int)>,
) {
    let ks2 = chain_step(ks, d);
    (ks2, record(vs, ks2[ks2.len() - 1]))
}

/// `n` unit steps in direction `d`.
pub open spec fn rope_pull(
    ks: Seq<(int, int)>,
    vs: Seq<(int, int)>,
    d: Direction,
    n: nat,
) -> (Seq<(int, int)>, Seq<(int, int)>)
    decreases n,
{
    if n == 0 {
        (ks, vs)
    } else {
        let prev = rope_pull(ks, vs, d, (n - 1) as nat);
        rope_step(prev.0, prev.1, d)
    }
}

/// The catch-up result always touches the predecessor.
proof fn lemma_catch_up_touches(prev: (int, int), knot: (int, int))
    ensures
        touching_p(prev, catch_up_p(prev, knot)),
{
}

/// Under a per-axis gap of at most two, catching up moves the knot at most
/// one square per axis.
proof fn lemma_catch_up_near(prev: (int, int), knot: (int, int))
    requires
        within(prev, knot, 2),
    ensures
        within(knot, catch_up_p(prev, knot), 1),
{
}

/// Settling from link `i` restores the touching invariant, moves no knot
/// more than one square per axis, and leaves knots before `i` in place.
pub proof fn lemma_settle(ks: Seq<(int, int)>, i: int)
    requires
        ks.len() == 10,
        1 <= i <= 10,
        forall|j: int| 0 <= j && j + 1 < i ==> touching_p(#[trigger] ks[j], ks[j + 1]),
        i < 10 ==> within(ks[i - 1], ks[i], 2),
        forall|j: int| i <= j && j + 1 < 10 ==> touching_p(#[trigger] ks[j], ks[j + 1]),
    ensures
        settle(ks, i).len() == 10,
        chain_wf(settle(ks, i)),
        forall|j: int| 0 <= j < 10 ==> within(#[trigger] settle(ks, i)[j], ks[j], 1),
        forall|j: int| 0 <= j < i ==> #[trigger] settle(ks, i)[j] == ks[j],
    decreases 10 - i,
{
    if i >= 10 {
        assert(chain_wf(ks));
    } else if touching_p(ks[i - 1], ks[i]) {
        assert forall|j: int| 0 <= j && j + 1 < ks.len() implies touching_p(
            #[trigger] ks[j],
            ks[j + 1],
        ) by {
            if j + 1 < i {
            } else if j + 1 == i {
            } else {
            }
        }
    } else {
        let moved = catch_up_p(ks[i - 1], ks[i]);
        let ks2 = ks.update(i, moved);
        lemma_catch_up_touches(ks[i - 1], ks[i]);
        lemma_catch_up_near(ks[i - 1], ks[i]);
        assert forall|j: int| 0 <= j && j + 1 < i + 1 implies touching_p(
            #[trigger] ks2[j],
            ks2[j + 1],
        ) by {
            if j + 1 < i {
                assert(ks2[j] == ks[j] && ks2[j + 1] == ks[j + 1]);
            } else {
                assert(ks2[j] == ks[i - 1] && ks2[j + 1] == moved);
            }
        }
        if i + 1 < 10 {
            assert(touching_p(ks[i], ks[i + 1]));
            assert(within(ks2[i], ks2[i + 1], 2));
        }
        lemma_settle(ks2, i + 1);
        assert(settle(ks, i) == settle(ks2, i + 1));
        assert forall|j: int| 0 <= j < 10 implies within(#[trigger] settle(ks, i)[j], ks[j], 1) by {
            if j == i {
                assert(settle(ks2, i + 1)[j] == ks2[j]);
            } else {
                assert(ks2[j] == ks[j]);
            }
        }
    }
}

/// One unit step of a well-formed chain keeps it well formed and moves
/// every knot at most one square per axis.
pub proof fn lemma_chain_step(ks: Seq<(int, int)>, d: Direction)
    requires
        ks.len() == 10,
        chain_wf(ks),
    ensures
        chain_step(ks, d).len() == 10,
        chain_wf(chain_step(ks, d)),
        forall|j: int| 0 <= j < 10 ==> within(#[trigger] chain_step(ks, d)[j], ks[j], 1),
{
    let ks1 = ks.update(0, (ks[0].0 + d.delta().0, ks[0].1 + d.delta().1));
    assert(touching_p(ks[0], ks[1]));
    assert(within(ks1[0], ks1[1], 2));
    assert forall|j: int| 1 <= j && j + 1 < 10 implies touching_p(
        #[trigger] ks1[j],
        ks1[j + 1],
    ) by {
        assert(ks1[j] == ks[j] && ks1[j + 1] == ks[j + 1]);
    }
    lemma_settle(ks1, 1);
    assert forall|j: int| 0 <= j < 10 implies within(#[trigger] chain_step(ks, d)[j], ks[j], 1) by {
        assert(within(settle(ks1, 1)[j], ks1[j], 1));
        if j == 0 {
            assert(settle(ks1, 1)[0] == ks1[0]);
        }
    }
}

/// Any number of unit steps keeps the chain well formed: every adjacent
/// pair of knots stays within Chebyshev distance one.
pub proof fn lemma_pull_preserves_wf(
    ks: Seq<(int, int)>,
    vs: Seq<(int, int)>,
    d: Direction,
    n: nat,
)
    requires
        ks.len() == 10,
        chain_wf(ks),
    ensures
        rope_pull(ks, vs, d, n).0.len() == 10,
        chain_wf(rope_pull(ks, vs, d, n).0),
    decreases n,
{
    if n > 0 {
        lemma_pull_preserves_wf(ks, vs, d, (n - 1) as nat);
        let prev = rope_pull(ks, vs, d, (n - 1) as nat);
        lemma_chain_step(prev.0, d);
    }
}

/// One unit step keeps every visited cell and adds at most one new cell.
pub proof fn lemma_step_visited(ks: Seq<(int, int)>, vs: Seq<(int, int)>, d: Direction)
    ensures
        vs.len() <= rope_step(ks, vs, d).1.len() <= vs.len() + 1,
        forall|p: (int, int)| vs.contains(p) ==> rope_step(ks, vs, d).1.contains(p),
{
    let q = chain_step(ks, d)[chain_step(ks, d).len() - 1];
    if !vs.contains(q) {
        assert forall|p: (int, int)| vs.contains(p) implies vs.push(q).contains(p) by {
            let w = choose|w: int| 0 <= w < vs.len() && vs[w] == p;
            assert(vs.push(q)[w] == p);
        }
    }
}

/// Over any pull, visited cells are never lost and at most one new cell
/// is added per unit step.
pub proof fn lemma_pull_visited(ks: Seq<(int, int)>, vs: Seq<(int, int)>, d: Direction, n: nat)
    ensures
        vs.len() <= rope_pull(ks, vs, d, n).1.len() <= vs.len() + n,
        forall|p: (int, int)| vs.contains(p) ==> rope_pull(ks, vs, d, n).1.contains(p),
    decreases n,
{
    if n > 0 {
        lemma_pull_visited(ks, vs, d, (n - 1) as nat);
        let prev = rope_pull(ks, vs, d, (n - 1) as nat);
        lemma_step_visited(prev.0, prev.1, d);
    }
}

/// The origin cell, once recorded, stays visited after any pull.
pub proof fn lemma_origin_stays_visited(
    ks: Seq<(int, int)>,
    vs: Seq<(int, int)>,
    d: Direction,
    n: nat,
)
    requires
        vs.contains((0int, 0int)),
    ensures
        rope_pull(ks, vs, d, n).1.contains((0int, 0int)),
{
    lemma_pull_visited(ks, vs, d, n);
}

/// A pull of zero steps changes neither the chain nor the visited cells.
pub proof fn lemma_pull_zero(ks: Seq<(int, int)>, vs: Seq<(int, int)>, d: Direction)
    ensures
        rope_pull(ks, vs, d, 0) == (ks, vs),
{
}

/// Tracks the positions of all ten knots and the cells the tail has
/// visited.
pub struct Rope {
    pub knots: [[i32; 2]; 10],
    pub tail_positions: Vec<[i32; 2]>,
}

impl Rope {
    /// The knot positions as unbounded pairs, head first.
    pub open spec fn knots_view(self) -> Seq<(int, int)> {
        Seq::new(10, |i: int| pos_of(self.knots@[i]))
    }

    /// The recorded tail cells, in the order first visited.
    pub open spec fn visited_view(self) -> Seq<(int, int)> {
        pts_view(self.tail_positions@)
    }

    /// Adjacent knots are touching.
    pub open spec fn wf(self) -> bool {
        chain_wf(self.knots_view())
    }

    /// No tail cell is recorded twice.
    pub open spec fn visited_distinct(self) -> bool {
        forall|a: int, b: int|
            0 <= a < b < self.visited_view().len() ==> #[trigger] self.visited_view()[a]
                != #[trigger] self.visited_view()[b]
    }

    /// Every coordinate is at least `m` away from the representable
    /// extremes.
    pub open spec fn headroom(self, m: int) -> bool {
        forall|j: int|
            0 <= j < 10 ==> i32::MIN + m <= (#[trigger] self.knots_view()[j]).0 <= i32::MAX - m
                && i32::MIN + m <= self.knots_view()[j].1 <= i32::MAX - m
    }

    /// A fresh rope: all knots at the origin, which is already recorded as
    /// a visited tail cell.
    pub fn new() -> (r: Rope)
        ensures
            r.knots_view() == Seq::new(10, |i: int| (0int, 0int)),
            r.visited_view() == seq![(0int, 0int)],
            r.wf(),
            r.visited_distinct(),
    {
        let origin: [i32; 2] = [0, 0];
        let mut seen: Vec<[i32; 2]> = Vec::new();
        seen.push(origin);
        let r = Rope { knots: [origin; 10], tail_positions: seen };
        proof {
            assert(r.knots_view() =~= Seq::new(10, |i: int| (0int, 0int)));
            assert(r.visited_view() =~= seq![(0int, 0int)]);
        }
        r
    }

    /// How many distinct cells the tail has visited.
    pub fn visited_count(&self) -> (r: usize)
        ensures
            r == self.visited_view().len(),
    {
        self.tail_positions.len()
    }

    /// Whether knot `idx` is touching the knot before it.
    pub fn is_touching(&self, idx: usize) -> (r: bool)
        requires
            1 <= idx <= 9,
            i32::MIN <= self.knots_view()[idx as int].0 - self.knots_view()[idx - 1].0
                <= i32::MAX,
            i32::MIN <= self.knots_view()[idx as int].1 - self.knots_view()[idx - 1].1
                <= i32::MAX,
        ensures
            r == touching_p(self.knots_view()[idx - 1], self.knots_view()[idx as int]),
    {
        let a = self.knots[idx];
        let b = self.knots[idx - 1];
        let dx = a[0] - b[0];
        let dy = a[1] - b[1];
        -1 <= dx && dx <= 1 && -1 <= dy && dy <= 1
    }

    /// Moves knot `idx` one square toward the knot before it, by the
    /// catch-up rule.
    pub fn move_knot(&mut self, idx: usize)
        requires
            1 <= idx <= 9,
            within(old(self).knots_view()[idx - 1], old(self).knots_view()[idx as int], 2),
        ensures
            final(self).knots_view() == old(self).knots_view().update(
                idx as int,
                catch_up_p(old(self).knots_view()[idx - 1], old(self).knots_view()[idx as int]),
            ),
            final(self).tail_positions == old(self).tail_positions,
    {
        let prev = self.knots[idx - 1];
        let knot = self.knots[idx];
        let nx = new_knot_pos(prev[0], knot[0]);
        let ny = new_knot_pos(prev[1], knot[1]);
        self.knots[idx] = pair(nx, ny);
        proof {
            assert(final(self).knots_view() =~= old(self).knots_view().update(
                idx as int,
                catch_up_p(old(self).knots_view()[idx - 1], old(self).knots_view()[idx as int]),
            ));
        }
    }

    /// Moves the head one square in `direction` and lets the chain settle
    /// behind it.
    pub fn move_head(&mut self, direction: &Direction)
        requires
            old(self).wf(),
            old(self).headroom(1),
        ensures
            final(self).knots_view() == chain_step(old(self).knots_view(), *direction),
            final(self).tail_positions == old(self).tail_positions,
            final(self).wf(),
            forall|j: int|
                0 <= j < 10 ==> within(
                    #[trigger] final(self).knots_view()[j],
                    old(self).knots_view()[j],
                    1,
                ),
    {
        let ghost orig = self.knots_view();
        let p = self.knots[0];
        proof {
            assert(self.knots_view()[0] == pos_of(p));
            assert(i32::MIN + 1 <= pos_of(p).0 <= i32::MAX - 1);
            assert(i32::MIN + 1 <= pos_of(p).1 <= i32::MAX - 1);
        }
        let q: [i32; 2] = match direction {
            Direction::Right => pair(p[0] + 1, p[1]),
            Direction::Left => pair(p[0] - 1, p[1]),
            Direction::Up => pair(p[0], p[1] + 1),
            Direction::Down => pair(p[0], p[1] - 1),
        };
        self.knots[0] = q;
        let ghost ks1 = orig.update(
            0,
            (orig[0].0 + direction.delta().0, orig[0].1 + direction.delta().1),
        );
        proof {
            assert(self.knots_view() =~= ks1);
            assert(touching_p(orig[0], orig[1]));
            assert(within(ks1[0], ks1[1], 2));
            lemma_settle(ks1, 1);
        }
        let mut i: usize = 1;
        while i < 10 && !self.is_touching(i)
            invariant
                1 <= i <= 10,
                old(self).wf(),
                old(self).headroom(1),
                orig == old(self).knots_view(),
                ks1 == orig.update(
                    0,
                    (orig[0].0 + direction.delta().0, orig[0].1 + direction.delta().1),
                ),
                self.tail_positions == old(self).tail_positions,
                settle(ks1, 1) == settle(self.knots_view(), i as int),
                forall|j: int| i <= j < 10 ==> #[trigger] self.knots_view()[j] == ks1[j],
                forall|j: int|
                    0 <= j < i ==> within(#[trigger] self.knots_view()[j], orig[j], 1),
                forall|j: int|
                    1 <= j < i ==> touching_p(
                        #[trigger] self.knots_view()[j - 1],
                        self.knots_view()[j],
                    ),
                i < 10 ==> within(self.knots_view()[i - 1], self.knots_view()[i as int], 2),
            decreases 10 - i,
        {
            let ghost cur = self.knots_view();
            self.move_knot(i);
            proof {
                lemma_catch_up_touches(cur[i - 1], cur[i as int]);
                lemma_catch_up_near(cur[i - 1], cur[i as int]);
                if i + 1 < 10 {
                    assert(ks1[i as int] == orig[i as int]);
                    assert(ks1[i + 1] == orig[i + 1]);
                    assert(touching_p(orig[i as int], orig[i + 1]));
                    assert(within(self.knots_view()[i as int], self.knots_view()[i + 1], 2));
                }
            }
            i = i + 1;
        }
        proof {
            assert(settle(self.knots_view(), i as int) == self.knots_view());
            assert(final(self).knots_view() == chain_step(orig, *direction));
            assert forall|j: int|
                0 <= j < 10 implies within(#[trigger] final(self).knots_view()[j], orig[j], 1) by {
                assert(within(settle(ks1, 1)[j], ks1[j], 1));
                if j == 0 {
                    assert(settle(ks1, 1)[0] == ks1[0]);
                }
            }
        }
    }

    /// Pulls the head `dist` squares in `direction`, one unit step at a
    /// time, recording the tail cell after each step.  A non-positive
    /// distance changes nothing.
    pub fn pull(&mut self, direction: Direction, dist: i32)
        requires
            old(self).wf(),
            old(self).visited_distinct(),
            old(self).headroom(
                if dist >= 0 {
                    dist as int
                } else {
                    0
                },
            ),
        ensures
            ({
                let n = (if dist >= 0 {
                    dist as int
                } else {
                    0
                }) as nat;
                let r = rope_pull(
                    old(self).knots_view(),
                    old(self).visited_view(),
                    direction,
                    n,
                );
                final(self).knots_view() == r.0 && final(self).visited_view() == r.1
            }),
            final(self).wf(),
            final(self).visited_distinct(),
            old(self).visited_view().len() <= final(self).visited_view().len(),
            dist >= 0 ==> final(self).visited_view().len() <= old(self).visited_view().len()
                + dist,
            forall|p: (int, int)|
                old(self).visited_view().contains(p) ==> final(self).visited_view().contains(p),
            forall|j: int|
                0 <= j < 10 ==> within(
                    #[trigger] final(self).knots_view()[j],
                    old(self).knots_view()[j],
                    if dist >= 0 {
                        dist as int
                    } else {
                        0
                    },
                ),
            dist <= 0 ==> final(self).knots == old(self).knots && final(self).tail_positions
                == old(self).tail_positions,
    {
        let ghost n: int = if dist >= 0 {
            dist as int
        } else {
            0
        };
        let ghost ks0 = old(self).knots_view();
        let ghost vs0 = old(self).visited_view();
        let mut step: i32 = 0;
        while step < dist
            invariant
                0 <= step <= n,
                n == if dist >= 0 {
                    dist as int
                } else {
                    0
                },
                ks0 == old(self).knots_view(),
                vs0 == old(self).visited_view(),
                old(self).wf(),
                old(self).headroom(n),
                self.wf(),
                self.visited_distinct(),
                self.knots_view() == rope_pull(ks0, vs0, direction, step as nat).0,
                self.visited_view() == rope_pull(ks0, vs0, direction, step as nat).1,
                forall|j: int|
                    0 <= j < 10 ==> within(#[trigger] self.knots_view()[j], ks0[j], step as int),
                step == 0 ==> self.knots == old(self).knots && self.tail_positions == old(
                    self,
                ).tail_positions,
            decreases dist - step,
        {
            proof {
                assert forall|j: int|
                    0 <= j < 10 implies i32::MIN + 1 <= (#[trigger] self.knots_view()[j]).0
                    <= i32::MAX - 1 && i32::MIN + 1 <= self.knots_view()[j].1 <= i32::MAX - 1 by {
                    assert(within(self.knots_view()[j], ks0[j], step as int));
                    assert(i32::MIN + n <= ks0[j].0 <= i32::MAX - n);
                    assert(i32::MIN + n <= ks0[j].1 <= i32::MAX - n);
                }
                assert(self.headroom(1));
            }
            let ghost ks_pre = self.knots_view();
            let ghost vs_pre = self.visited_view();
            self.move_head(&direction);
            proof {
                lemma_chain_step(ks_pre, direction);
            }
            let tail = self.knots[9];
            proof {
                assert(pos_of(tail) == self.knots_view()[9]);
            }
            let dup = contains_pos(&self.tail_positions, tail);
            if !dup {
                self.tail_positions.push(tail);
                proof {
                    assert(self.visited_view() =~= vs_pre.push(pos_of(tail)));
                }
            }
            proof {
                assert(self.visited_view() == record(vs_pre, self.knots_view()[9]));
                assert(rope_pull(ks0, vs0, direction, (step + 1) as nat) == rope_step(
                    ks_pre,
                    vs_pre,
                    direction,
                ));
                assert forall|j: int|
                    0 <= j < 10 implies within(
                    #[trigger] self.knots_view()[j],
                    ks0[j],
                    step + 1,
                ) by {
                    assert(within(self.knots_view()[j], ks_pre[j], 1));
                    assert(within(ks_pre[j], ks0[j], step as int));
                }
            }
            step = step + 1;
        }
        proof {
            lemma_pull_visited(ks0, vs0, direction, n as nat);
        }
    }
}

/// A grid cell with the given coordinates.
fn pair(x: i32, y: i32) -> (r: [i32; 2])
    ensures
        pos_of(r) == (x as int, y as int),
{
    let mut r: [i32; 2] = [x; 2];
    r[1] = y;
    r
}

/// The catch-up rule on one coordinate.
fn new_knot_pos(prev: i32, knot: i32) -> (r: i32)
    requires
        axis_gap(prev as int, knot as int) <= 2,
    ensures
        r as int == catch_up_axis(prev as int, knot as int),
{
    let diff = knot - prev;
    if diff == 2 {
        prev + 1
    } else if diff == -2 {
        prev - 1
    } else {
        prev
    }
}

/// Whether `p` is among the recorded cells.
fn contains_pos(v: &Vec<[i32; 2]>, p: [i32; 2]) -> (r: bool)
    ensures
        r == pts_view(v@).contains(pos_of(p)),
{
    let mut i: usize = 0;
    while i < v.len()
        invariant
            i <= v.len(),
            forall|j: int| 0 <= j < i ==> #[trigger] pts_view(v@)[j] != pos_of(p),
        decreases v.len() - i,
    {
        let q = v[i];
        if q[0] == p[0] && q[1] == p[1] {
            proof {
                assert(pts_view(v@)[i as int] == pos_of(p));
            }
            return true;
        }
        proof {
            assert(pts_view(v@)[i as int] == pos_of(v@[i as int]));
        }
        i = i + 1;
    }
    proof {
        if pts_view(v@).contains(pos_of(p)) {
            let w = choose|w: int| 0 <= w < pts_view(v@).len() && pts_view(v@)[w] == pos_of(p);
            assert(pts_view(v@)[w] != pos_of(p));
        }
    }
    false
}

/// The command-line options of this puzzle's program: the input path
/// (`-` for standard input) and the alternate-part switch.
#[derive(Debug)]
pub struct Args {
    pub fin: String,
    pub part2: bool,
}

} // verus!
