//! Tree visibility in a square grid of heights.
//!
//! A tree is visible when it stands on the border or is strictly taller
//! than everything between it and some border; a tree's scenic score is
//! the product of its viewing distances in the four directions.

use vstd::prelude::*;
use crate::text::to_chars;

verus! {

/// The digit values of a line, non-digit characters dropped.
pub open spec fn digits_of(s: Seq<char>) -> Seq<u32>
    decreases s.len(),
{
    if s.len() == 0 {
        Seq::empty()
    } else {
        digits_of(s.drop_last()) + if crate::text::is_digit(s.last()) {
            seq![(s.last() as u32 - 48) as u32]
        } else {
            Seq::<u32>::empty()
        }
    }
}

/// Reads one grid row: each digit is a tree height.
pub fn line_to_values(line: String) -> (r: Vec<u32>)
    ensures
        r@ == digits_of(line@),
{
    let cs = to_chars(line.as_str());
    let mut r: Vec<u32> = Vec::new();
    let mut i: usize = 0;
    proof {
        assert(cs@.take(0) =~= Seq::<char>::empty());
    }
    while i < cs.len()
        invariant
            i <= cs@.len(),
            cs@ == line@,
            r@ == digits_of(cs@.take(i as int)),
        decreases cs.len() - i,
    {
        let ghost prev = cs@.take(i as int);
        let ghost cur = cs@.take(i + 1 as int);
        proof {
            assert(cur.drop_last() =~= prev);
            assert(cur.last() == cs@[i as int]);
        }
        let c = cs[i];
        let u = c as u32;
        if 48 <= u && u <= 57 {
            r.push(u - 48);
            proof {
                assert(r@ =~= digits_of(cur));
            }
        } else {
            proof {
                assert(r@ =~= digits_of(cur));
            }
        }
        i = i + 1;
    }
    proof {
        assert(cs@.take(cs@.len() as int) =~= cs@);
    }
    r
}

/// Every row reaches at least as far as the grid is tall.
pub open spec fn grid_ok(g: Seq<Seq<u32>>) -> bool {
    forall|i: int| 0 <= i < g.len() ==> (#[trigger] g[i]).len() >= g.len()
}

/// Whether the tree at `(i, j)` is strictly taller than everything to its
/// left in its row.
pub open spec fn vis_left(g: Seq<Seq<u32>>, i: int, j: int) -> bool {
    forall|k: int| 0 <= k < j ==> #[trigger] g[i][k] < g[i][j]
}

/// ... to its right, within the square grid.
pub open spec fn vis_right(g: Seq<Seq<u32>>, i: int, j: int) -> bool {
    forall|k: int| j < k < g.len() ==> #[trigger] g[i][k] < g[i][j]
}

/// ... above it in its column.
pub open spec fn vis_up(g: Seq<Seq<u32>>, i: int, j: int) -> bool {
    forall|k: int| 0 <= k < i ==> #[trigger] g[k][j] < g[i][j]
}

/// ... below it in its column.
pub open spec fn vis_down(g: Seq<Seq<u32>>, i: int, j: int) -> bool {
    forall|k: int| i < k < g.len() ==> #[trigger] g[k][j] < g[i][j]
}

/// Whether the tree at `(i, j)` is visible from outside the grid.
pub open spec fn visible(g: Seq<Seq<u32>>, i: int, j: int) -> bool {
    ||| i == 0
    ||| i == g.len() - 1
    ||| j == 0
    ||| j == g.len() - 1
    ||| vis_left(g, i, j)
    ||| vis_right(g, i, j)
    ||| vis_up(g, i, j)
    ||| vis_down(g, i, j)
}

/// How many of the first `j` trees of row `i` are visible.
pub open spec fn row_vis_count(g: Seq<Seq<u32>>, i: int, j: int) -> int
    decreases j,
{
    if j <= 0 {
        0
    } else {
        row_vis_count(g, i, j - 1) + if visible(g, i, j - 1) {
            1int
        } else {
            0int
        }
    }
}

/// How many trees of the first `i` rows are visible.
pub open spec fn grid_vis_count(g: Seq<Seq<u32>>, i: int) -> int
    decreases i,
{
    if i <= 0 {
        0
    } else {
        grid_vis_count(g, i - 1) + row_vis_count(g, i - 1, g.len() as int)
    }
}

/// Row and grid counts stay within the number of cells counted.
proof fn lemma_row_count_bound(g: Seq<Seq<u32>>, i: int, j: int)
    ensures
        0 <= row_vis_count(g, i, j) <= if j >= 0 {
            j
        } else {
            0
        },
    decreases j,
{
    if j > 0 {
        lemma_row_count_bound(g, i, j - 1);
    }
}

proof fn lemma_grid_count_bound(g: Seq<Seq<u32>>, i: int)
    ensures
        0 <= grid_vis_count(g, i) <= if i >= 0 {
            i * g.len()
        } else {
            0
        },
    decreases i,
{
    if i > 0 {
        lemma_grid_count_bound(g, i - 1);
        lemma_row_count_bound(g, i - 1, g.len() as int);
        assert((i - 1) * g.len() + g.len() == i * g.len()) by (nonlinear_arith);
    } else {
        assert(i <= 0 ==> grid_vis_count(g, i) == 0);
        if i >= 0 {
            assert(i * g.len() == 0) by (nonlinear_arith)
                requires
                    i == 0,
            ;
        }
    }
}

/// Whether the tree at `(i, j)` is visible from outside.
fn is_visible(heights: &Vec<Vec<u32>>, i: usize, j: usize) -> (r: bool)
    requires
        grid_ok(heights.deep_view()),
        i < heights.deep_view().len(),
        j < heights.deep_view().len(),
    ensures
        r == visible(heights.deep_view(), i as int, j as int),
{
    let ghost g = heights.deep_view();
    let n = heights.len();
    proof {
        assert(g.len() == heights@.len());
        assert forall|a: int| 0 <= a < g.len() implies (#[trigger] g[a]) == heights@[a]@ by {
            assert(g[a] == heights@[a].deep_view());
            assert(heights@[a].deep_view() =~= heights@[a]@);
        }
    }
    if i == 0 || i == n - 1 || j == 0 || j == n - 1 {
        return true;
    }
    proof {
        assert(g[i as int] == heights@[i as int]@);
        assert(g[i as int].len() >= n);
    }
    let h = heights[i][j];
    // from the left
    let mut ok: bool = true;
    let mut k: usize = 0;
    while k < j && ok
        invariant
            k <= j,
            j < n,
            i < n,
            n == g.len(),
            g == heights.deep_view(),
            grid_ok(g),
            forall|a: int| 0 <= a < g.len() ==> (#[trigger] g[a]) == heights@[a]@,
            h == g[i as int][j as int],
            ok ==> forall|a: int| 0 <= a < k ==> #[trigger] g[i as int][a] < h,
            !ok ==> !vis_left(g, i as int, j as int),
        decreases j - k,
    {
        if heights[i][k] >= h {
            ok = false;
        }
        k = k + 1;
    }
    if ok {
        return true;
    }
    // from the right
    ok = true;
    k = j + 1;
    while k < n && ok
        invariant
            j < k <= n,
            j < n,
            i < n,
            n == g.len(),
            g == heights.deep_view(),
            grid_ok(g),
            forall|a: int| 0 <= a < g.len() ==> (#[trigger] g[a]) == heights@[a]@,
            h == g[i as int][j as int],
            ok ==> forall|a: int| j < a < k ==> #[trigger] g[i as int][a] < h,
            !ok ==> !vis_right(g, i as int, j as int),
        decreases n - k,
    {
        if heights[i][k] >= h {
            ok = false;
        }
        k = k + 1;
    }
    if ok {
        return true;
    }
    // from above
    ok = true;
    k = 0;
    while k < i && ok
        invariant
            k <= i,
            j < n,
            i < n,
            n == g.len(),
            g == heights.deep_view(),
            grid_ok(g),
            forall|a: int| 0 <= a < g.len() ==> (#[trigger] g[a]) == heights@[a]@,
            h == g[i as int][j as int],
            ok ==> forall|a: int| 0 <= a < k ==> #[trigger] g[a][j as int] < h,
            !ok ==> !vis_up(g, i as int, j as int),
        decreases i - k,
    {
        proof {
            assert(g[k as int] == heights@[k as int]@);
            assert(g[k as int].len() >= n);
        }
        if heights[k][j] >= h {
            ok = false;
        }
        k = k + 1;
    }
    if ok {
        return true;
    }
    // from below
    ok = true;
    k = i + 1;
    while k < n && ok
        invariant
            i < k <= n,
            j < n,
            i < n,
            n == g.len(),
            g == heights.deep_view(),
            grid_ok(g),
            forall|a: int| 0 <= a < g.len() ==> (#[trigger] g[a]) == heights@[a]@,
            h == g[i as int][j as int],
            ok ==> forall|a: int| i < a < k ==> #[trigger] g[a][j as int] < h,
            !ok ==> !vis_down(g, i as int, j as int),
        decreases n - k,
    {
        proof {
            assert(g[k as int] == heights@[k as int]@);
            assert(g[k as int].len() >= n);
        }
        if heights[k][j] >= h {
            ok = false;
        }
        k = k + 1;
    }
    ok
}

/// Counts the visible trees of the grid.
pub fn part1(heights: Vec<Vec<u32>>) -> (r: u32)
    requires
        grid_ok(heights.deep_view()),
        heights.deep_view().len() <= 65535,
    ensures
        r == grid_vis_count(heights.deep_view(), heights.deep_view().len() as int),
{
    let ghost g = heights.deep_view();
    let n = heights.len();
    let mut count: u32 = 0;
    let mut i: usize = 0;
    while i < n
        invariant
            i <= n,
            n == g.len(),
            n <= 65535,
            g == heights.deep_view(),
            grid_ok(g),
            count == grid_vis_count(g, i as int),
        decreases n - i,
    {
        let mut j: usize = 0;
        while j < n
            invariant
                i < n,
                j <= n,
                n == g.len(),
                n <= 65535,
                g == heights.deep_view(),
                grid_ok(g),
                count == grid_vis_count(g, i as int) + row_vis_count(g, i as int, j as int),
            decreases n - j,
        {
            proof {
                lemma_grid_count_bound(g, i as int);
                lemma_row_count_bound(g, i as int, j as int);
                assert(i * g.len() + j < 65535 * 65536) by (nonlinear_arith)
                    requires
                        0 <= i < g.len() <= 65535,
                        0 <= j < g.len(),
                ;
            }
            if is_visible(&heights, i, j) {
                count = count + 1;
            }
            j = j + 1;
        }
        i = i + 1;
    }
    count
}

/// The viewing distance over `s`: how many trees are seen before one of
/// height `h` or more blocks the view.
pub open spec fn view_dist_spec(h: int, s: Seq<u32>) -> int
    decreases s.len(),
{
    if s.len() == 0 {
        0
    } else if s[0] >= h {
        1
    } else {
        1 + view_dist_spec(h, s.skip(1))
    }
}

/// The viewing distance never exceeds the trees in view.
pub proof fn lemma_view_dist_bounds(h: int, s: Seq<u32>)
    ensures
        0 <= view_dist_spec(h, s) <= s.len(),
    decreases s.len(),
{
    if s.len() > 0 && s[0] < h {
        lemma_view_dist_bounds(h, s.skip(1));
    }
}

/// A prefix of unblocked trees adds directly to the viewing distance.
proof fn lemma_view_dist_prefix(h: int, s: Seq<u32>, i: int)
    requires
        0 <= i <= s.len(),
        forall|a: int| 0 <= a < i ==> #[trigger] s[a] < h,
    ensures
        view_dist_spec(h, s) == i + view_dist_spec(h, s.skip(i)),
    decreases i,
{
    if i > 0 {
        assert(s[0] < h);
        assert forall|a: int| 0 <= a < i - 1 implies #[trigger] s.skip(1)[a] < h by {
            assert(s.skip(1)[a] == s[a + 1]);
        }
        lemma_view_dist_prefix(h, s.skip(1), i - 1);
        assert(s.skip(1).skip(i - 1) =~= s.skip(i));
    } else {
        assert(s.skip(0) =~= s);
    }
}

/// How far one can see over `others` before a tree of height `height` or
/// more blocks the view.
pub fn viewing_dist(height: u32, others: &[u32]) -> (r: u32)
    requires
        others@.len() <= u32::MAX,
    ensures
        r == view_dist_spec(height as int, others@),
{
    let n = others.len();
    let mut i: usize = 0;
    while i < n
        invariant
            i <= n,
            n == others@.len(),
            n <= u32::MAX,
            forall|a: int| 0 <= a < i ==> #[trigger] others@[a] < height,
        decreases n - i,
    {
        if others[i] >= height {
            proof {
                lemma_view_dist_prefix(height as int, others@, i as int);
                assert(others@.skip(i as int)[0] == others@[i as int]);
            }
            return (i as u32) + 1;
        }
        i = i + 1;
    }
    proof {
        lemma_view_dist_prefix(height as int, others@, n as int);
        assert(others@.skip(n as int) =~= Seq::<u32>::empty());
    }
    n as u32
}

/// The trees seen looking left from `(i, j)`, nearest first.
pub open spec fn left_of(g: Seq<Seq<u32>>, i: int, j: int) -> Seq<u32> {
    Seq::new(j as nat, |t: int| g[i][j - 1 - t])
}

/// ... looking right, within the square grid.
pub open spec fn right_of(g: Seq<Seq<u32>>, i: int, j: int) -> Seq<u32> {
    Seq::new((g.len() - 1 - j) as nat, |t: int| g[i][j + 1 + t])
}

/// ... looking up.
pub open spec fn up_of(g: Seq<Seq<u32>>, i: int, j: int) -> Seq<u32> {
    Seq::new(i as nat, |t: int| g[i - 1 - t][j])
}

/// ... looking down.
pub open spec fn down_of(g: Seq<Seq<u32>>, i: int, j: int) -> Seq<u32> {
    Seq::new((g.len() - 1 - i) as nat, |t: int| g[i + 1 + t][j])
}

/// The scenic score of `(i, j)`: the product of its four viewing
/// distances.
pub open spec fn score(g: Seq<Seq<u32>>, i: int, j: int) -> int {
    let h = g[i][j] as int;
    view_dist_spec(h, left_of(g, i, j)) * view_dist_spec(h, right_of(g, i, j)) * view_dist_spec(
        h,
        up_of(g, i, j),
    ) * view_dist_spec(h, down_of(g, i, j))
}

/// The best scenic score of any tree in the grid.
pub fn part2(heights: Vec<Vec<u32>>) -> (r: u32)
    requires
        grid_ok(heights.deep_view()),
        heights.deep_view().len() <= 256,
    ensures
        forall|a: int, b: int|
            0 <= a < heights.deep_view().len() && 0 <= b < heights.deep_view().len()
                ==> #[trigger] score(heights.deep_view(), a, b) <= r,
        r == 0 || exists|a: int, b: int|
            0 <= a < heights.deep_view().len() && 0 <= b < heights.deep_view().len()
                && #[trigger] score(heights.deep_view(), a, b) == r,
{
    let ghost g = heights.deep_view();
    let n = heights.len();
    proof {
        assert(g.len() == heights@.len());
        assert forall|a: int| 0 <= a < g.len() implies (#[trigger] g[a]) == heights@[a]@ by {
            assert(g[a] == heights@[a].deep_view());
            assert(heights@[a].deep_view() =~= heights@[a]@);
        }
    }
    let mut best: u32 = 0;
    let mut i: usize = 0;
    while i < n
        invariant
            i <= n,
            n == g.len(),
            n <= 256,
            g == heights.deep_view(),
            grid_ok(g),
            forall|a: int| 0 <= a < g.len() ==> (#[trigger] g[a]) == heights@[a]@,
            forall|a: int, b: int|
                0 <= a < i && 0 <= b < n ==> #[trigger] score(g, a, b) <= best,
            best == 0 || exists|a: int, b: int|
                0 <= a < i && 0 <= b < n && #[trigger] score(g, a, b) == best,
        decreases n - i,
    {
        let mut j: usize = 0;
        while j < n
            invariant
                i < n,
                j <= n,
                n == g.len(),
                n <= 256,
                g == heights.deep_view(),
                grid_ok(g),
                forall|a: int| 0 <= a < g.len() ==> (#[trigger] g[a]) == heights@[a]@,
                forall|a: int, b: int|
                    (0 <= a < i && 0 <= b < n) || (a == i && 0 <= b < j) ==> #[trigger] score(
                        g,
                        a,
                        b,
                    ) <= best,
                best == 0 || exists|a: int, b: int|
                    ((0 <= a < i && 0 <= b < n) || (a == i && 0 <= b < j)) && #[trigger] score(
                        g,
                        a,
                        b,
                    ) == best,
            decreases n - j,
        {
            let cell = cell_score(&heights, i, j);
            if cell > best {
                best = cell;
            }
            j = j + 1;
        }
        i = i + 1;
    }
    best
}

/// The scenic score of one tree.
fn cell_score(heights: &Vec<Vec<u32>>, i: usize, j: usize) -> (r: u32)
    requires
        grid_ok(heights.deep_view()),
        heights.deep_view().len() <= 256,
        i < heights.deep_view().len(),
        j < heights.deep_view().len(),
    ensures
        r == score(heights.deep_view(), i as int, j as int),
{
    let ghost g = heights.deep_view();
    let n = heights.len();
    proof {
        assert(g.len() == heights@.len());
        assert forall|a: int| 0 <= a < g.len() implies (#[trigger] g[a]) == heights@[a]@ by {
            assert(g[a] == heights@[a].deep_view());
            assert(heights@[a].deep_view() =~= heights@[a]@);
        }
        assert(g[i as int].len() >= n);
    }
    let h = heights[i][j];
    let ghost hh = g[i as int][j as int] as int;

    let mut left: Vec<u32> = Vec::new();
    let mut k: usize = 0;
    while k < j
        invariant
            k <= j,
            j < n,
            i < n,
            n == g.len(),
            g == heights.deep_view(),
            grid_ok(g),
            forall|a: int| 0 <= a < g.len() ==> (#[trigger] g[a]) == heights@[a]@,
            left@.len() == k,
            forall|t: int| 0 <= t < k ==> #[trigger] left@[t] == g[i as int][j - 1 - t],
        decreases j - k,
    {
        proof {
            assert(g[i as int].len() >= n);
        }
        left.push(heights[i][j - 1 - k]);
        k = k + 1;
    }
    proof {
        assert(left@ =~= left_of(g, i as int, j as int));
    }

    let mut right: Vec<u32> = Vec::new();
    k = 0;
    while k < n - 1 - j
        invariant
            k <= n - 1 - j,
            j < n,
            i < n,
            n == g.len(),
            g == heights.deep_view(),
            grid_ok(g),
            forall|a: int| 0 <= a < g.len() ==> (#[trigger] g[a]) == heights@[a]@,
            right@.len() == k,
            forall|t: int| 0 <= t < k ==> #[trigger] right@[t] == g[i as int][j + 1 + t],
        decreases n - 1 - j - k,
    {
        proof {
            assert(g[i as int].len() >= n);
        }
        right.push(heights[i][j + 1 + k]);
        k = k + 1;
    }
    proof {
        assert(right@ =~= right_of(g, i as int, j as int));
    }

    let mut up: Vec<u32> = Vec::new();
    k = 0;
    while k < i
        invariant
            k <= i,
            j < n,
            i < n,
            n == g.len(),
            g == heights.deep_view(),
            grid_ok(g),
            forall|a: int| 0 <= a < g.len() ==> (#[trigger] g[a]) == heights@[a]@,
            up@.len() == k,
            forall|t: int| 0 <= t < k ==> #[trigger] up@[t] == g[i - 1 - t][j as int],
        decreases i - k,
    {
        proof {
            assert(g[i - 1 - k as int].len() >= n);
        }
        up.push(heights[i - 1 - k][j]);
        k = k + 1;
    }
    proof {
        assert(up@ =~= up_of(g, i as int, j as int));
    }

    let mut down: Vec<u32> = Vec::new();
    k = 0;
    while k < n - 1 - i
        invariant
            k <= n - 1 - i,
            j < n,
            i < n,
            n == g.len(),
            g == heights.deep_view(),
            grid_ok(g),
            forall|a: int| 0 <= a < g.len() ==> (#[trigger] g[a]) == heights@[a]@,
            down@.len() == k,
            forall|t: int| 0 <= t < k ==> #[trigger] down@[t] == g[i + 1 + t][j as int],
        decreases n - 1 - i - k,
    {
        proof {
            assert(g[i + 1 + k as int].len() >= n);
        }
        down.push(heights[i + 1 + k][j]);
        k = k + 1;
    }
    proof {
        assert(down@ =~= down_of(g, i as int, j as int));
    }

    let d1 = viewing_dist(h, left.as_slice());
    let d2 = viewing_dist(h, right.as_slice());
    let d3 = viewing_dist(h, up.as_slice());
    let d4 = viewing_dist(h, down.as_slice());
    proof {
        lemma_view_dist_bounds(hh, left_of(g, i as int, j as int));
        lemma_view_dist_bounds(hh, right_of(g, i as int, j as int));
        lemma_view_dist_bounds(hh, up_of(g, i as int, j as int));
        lemma_view_dist_bounds(hh, down_of(g, i as int, j as int));
        assert(d1 * d2 <= 255 * 255) by (nonlinear_arith)
            requires
                0 <= d1 <= 255,
                0 <= d2 <= 255,
        ;
        assert(d1 * d2 * d3 <= 255 * 255 * 255) by (nonlinear_arith)
            requires
                0 <= d1 * d2 <= 255 * 255,
                0 <= d3 <= 255,
                0 <= d1 <= 255,
                0 <= d2 <= 255,
        ;
        assert(d1 * d2 * d3 * d4 <= 255 * 255 * 255 * 255) by (nonlinear_arith)
            requires
                0 <= d1 * d2 * d3 <= 255 * 255 * 255,
                0 <= d4 <= 255,
                0 <= d1 * d2 <= 255 * 255,
                0 <= d3 <= 255,
        ;
        assert(d1 * d2 >= 0) by (nonlinear_arith)
            requires
                d1 >= 0,
                d2 >= 0,
        ;
        assert(d1 * d2 * d3 >= 0) by (nonlinear_arith)
            requires
                d1 * d2 >= 0,
                d3 >= 0,
        ;
    }
    let s1 = d1 * d2;
    let s2 = s1 * d3;
    let s3 = s2 * d4;
    s3
}

/// The command-line options of this puzzle's program: the input path
/// (`-` for standard input) and the alternate-part switch.
#[derive(Debug)]
pub struct Args {
    pub fin: String,
    pub part2: bool,
}

} // verus!
