//! Crate stacks: parsing the crate drawing and the move lines, and
//! rearranging stacks of crates.
//!
//! A drawing row lists one crate per four-character column; a move line
//! names a count and two one-based stack numbers.  Crates move one at a
//! time, or as a block under the second scheme.

use vstd::prelude::*;
use crate::text::split_ws;
use crate::text::to_chars;
use crate::text::tokens_of;
use crate::text::usize_val;

verus! {

/// The crates drawn on one row: every fourth character starts a column,
/// and a column holds a crate when it starts with `[`.
pub open spec fn crates_spec(s: Seq<char>) -> Seq<Option<char>> {
    Seq::new(
        (s.len() + 3) / 4,
        |k: int|
            if s[4 * k] == '[' {
                Some(s[4 * k + 1])
            } else {
                None
            },
    )
}

/// Reads the crates of one drawing row.
pub fn parse_crates(line: &str) -> (r: Vec<Option<char>>)
    requires
        line@.len() + 4 <= usize::MAX,
        !(line@.len() % 4 == 1 && line@[line@.len() - 1] == '['),
    ensures
        r@ == crates_spec(line@),
{
    let cs = to_chars(line);
    let n = cs.len();
    let mut r: Vec<Option<char>> = Vec::new();
    let mut i: usize = 0;
    while i < n
        invariant
            i % 4 == 0,
            i <= n + 3,
            n + 4 <= usize::MAX,
            n == cs@.len(),
            cs@ == line@,
            !(n % 4 == 1 && cs@[n - 1] == '['),
            r@.len() == i / 4,
            forall|k: int| 0 <= k < r@.len() ==> r@[k] == crates_spec(cs@)[k],
        decreases n + 4 - i,
    {
        if cs[i] == '[' {
            proof {
                assert(4 * ((i / 4) as int) == i as int);
                if i + 1 >= n {
                    assert(n % 4 == 1 && cs@[n - 1] == '[');
                }
            }
            r.push(Some(cs[i + 1]));
        } else {
            proof {
                assert(4 * ((i / 4) as int) == i as int);
            }
            r.push(None);
        }
        i = i + 4;
    }
    proof {
        assert(r@ =~= crates_spec(line@));
    }
    r
}

/// A crate move: how many crates to take and the zero-based source and
/// target stacks.
#[derive(Debug, PartialEq, Eq, Structural, Clone, Copy)]
pub struct Move {
    pub n: usize,
    pub src: usize,
    pub dst: usize,
}

/// The integer values of the tokens at odd positions `k`, `k + 2`, ...;
/// tokens that do not parse are dropped.
pub open spec fn odd_vals(toks: Seq<Seq<char>>, k: int) -> Seq<usize>
    decreases toks.len() + 1 - k,
{
    if k < 0 || k >= toks.len() {
        Seq::empty()
    } else {
        match usize_val(toks[k]) {
            Some(v) => seq![v] + odd_vals(toks, k + 2),
            None => odd_vals(toks, k + 2),
        }
    }
}

/// The move encoded by a line such as `move 1 from 3 to 5`: the first
/// three integers among the odd tokens, with the stack numbers made
/// zero-based.
pub open spec fn parse_move_spec(s: Seq<char>) -> Option<Move> {
    let vals = odd_vals(split_ws(s), 1);
    if vals.len() >= 3 && vals[1] >= 1 && vals[2] >= 1 {
        Some(Move { n: vals[0], src: (vals[1] - 1) as usize, dst: (vals[2] - 1) as usize })
    } else {
        None
    }
}

/// Reads one move line.
pub fn parse_move(line: &str) -> (r: Option<Move>)
    ensures
        r == parse_move_spec(line@),
{
    let cs = to_chars(line);
    let toks = tokens_of(&cs);
    let ghost all = toks.deep_view();
    let mut vals: Vec<usize> = Vec::new();
    let mut k: usize = 1;
    proof {
        assert(Seq::<usize>::empty() + odd_vals(all, 1) =~= odd_vals(all, 1));
    }
    while k < toks.len()
        invariant
            k % 2 == 1,
            all == toks.deep_view(),
            toks@.len() == all.len(),
            vals@ + odd_vals(all, k as int) == odd_vals(all, 1),
        decreases toks.len() + 2 - k,
    {
        proof {
            assert(all[k as int] == toks@[k as int].deep_view());
            assert(toks@[k as int].deep_view() =~= toks@[k as int]@);
        }
        let tok = &toks[k];
        proof {
            assert(tok@.subrange(0, tok@.len() as int) =~= tok@);
        }
        match crate::text::parse_usize_range(tok, 0, tok.len()) {
            Some(v) => {
                vals.push(v);
                proof {
                    assert(vals@ + odd_vals(all, k + 2) =~= odd_vals(all, 1));
                }
            },
            None => {},
        }
        k = k + 2;
    }
    proof {
        assert(odd_vals(all, k as int) == Seq::<usize>::empty());
        assert(vals@ + Seq::<usize>::empty() =~= vals@);
    }
    if vals.len() >= 3 && vals[1] >= 1 && vals[2] >= 1 {
        Some(Move { n: vals[0], src: vals[1] - 1, dst: vals[2] - 1 })
    } else {
        None
    }
}

/// The crates of column `i`, topmost row first, empty cells dropped.
pub open spec fn column(rows: Seq<Seq<Option<char>>>, i: int) -> Seq<char>
    decreases rows.len(),
{
    if rows.len() == 0 {
        Seq::empty()
    } else {
        (if 0 <= i < rows[0].len() {
            match rows[0][i] {
                Some(c) => seq![c],
                None => Seq::<char>::empty(),
            }
        } else {
            Seq::<char>::empty()
        }) + column(rows.skip(1), i)
    }
}

/// Turns drawing rows (topmost first) into stacks: stack `i` holds the
/// crates of column `i`, top at index 0.
pub fn build_stacks(rows: &Vec<Vec<Option<char>>>, n_stacks: usize) -> (r: Vec<Vec<char>>)
    requires
        forall|j: int| 0 <= j < rows@.len() ==> (#[trigger] rows.deep_view()[j]).len() <= n_stacks,
    ensures
        r@.len() == n_stacks,
        forall|i: int| 0 <= i < n_stacks ==> (#[trigger] r@[i])@ == column(rows.deep_view(), i),
{
    let ghost grid = rows.deep_view();
    let mut r: Vec<Vec<char>> = Vec::new();
    let mut i: usize = 0;
    while i < n_stacks
        invariant
            i <= n_stacks,
            r@.len() == i,
            forall|a: int| 0 <= a < i ==> (#[trigger] r@[a])@.len() == 0,
        decreases n_stacks - i,
    {
        r.push(Vec::new());
        i = i + 1;
    }
    let mut k: usize = 0;
    proof {
        assert forall|a: int| 0 <= a < n_stacks implies (#[trigger] r@[a])@ =~= column(
            grid.skip(grid.len() as int),
            a,
        ) by {
            assert(grid.skip(grid.len() as int) =~= Seq::<Seq<Option<char>>>::empty());
        }
    }
    let nrows = rows.len();
    let mut row_idx: usize = nrows;
    while row_idx > 0
        invariant
            row_idx <= nrows,
            nrows == grid.len(),
            grid == rows.deep_view(),
            r@.len() == n_stacks,
            forall|j: int| 0 <= j < grid.len() ==> (#[trigger] grid[j]).len() <= n_stacks,
            forall|a: int|
                0 <= a < n_stacks ==> (#[trigger] r@[a])@ == column(grid.skip(row_idx as int), a),
        decreases row_idx,
    {
        row_idx = row_idx - 1;
        proof {
            assert(grid[row_idx as int] == rows@[row_idx as int].deep_view());
            assert(rows@[row_idx as int].deep_view() =~= rows@[row_idx as int]@);
            assert(grid.skip(row_idx as int)[0] == grid[row_idx as int]);
            assert(grid.skip(row_idx as int).skip(1) =~= grid.skip(row_idx + 1 as int));
        }
        let row = &rows[row_idx];
        let m = row.len();
        let mut c: usize = m;
        while c > 0
            invariant
                c <= m,
                m == grid[row_idx as int].len(),
                row_idx < nrows,
                nrows == grid.len(),
                grid == rows.deep_view(),
                row@ == grid[row_idx as int],
                row@ == rows@[row_idx as int]@,
                m <= n_stacks,
                r@.len() == n_stacks,
                forall|a: int|
                    0 <= a < c ==> (#[trigger] r@[a])@ == column(grid.skip(row_idx + 1 as int), a),
                forall|a: int|
                    c <= a < n_stacks ==> (#[trigger] r@[a])@ == column(grid.skip(row_idx as int), a),
            decreases c,
        {
            c = c - 1;
            let ghost pre = r@[c as int]@;
            match row[c] {
                Some(ch) => {
                    r[c].insert(0, ch);
                    proof {
                        assert(r@[c as int]@ =~= seq![ch] + pre);
                    }
                },
                None => {
                    proof {
                        assert(Seq::<char>::empty() + pre =~= pre);
                    }
                },
            }
            proof {
                assert(grid.skip(row_idx as int)[0] == grid[row_idx as int]);
                assert(grid.skip(row_idx as int).skip(1) =~= grid.skip(row_idx + 1 as int));
                assert(r@[c as int]@ =~= column(grid.skip(row_idx as int), c as int));
            }
        }
        proof {
            assert forall|a: int|
                0 <= a < n_stacks implies (#[trigger] r@[a])@ == column(
                grid.skip(row_idx as int),
                a,
            ) by {
                if a >= m {
                    assert(r@[a]@ == column(grid.skip(row_idx + 1 as int), a));
                }
            }
        }
    }
    proof {
        assert(grid.skip(0) =~= grid);
    }
    r
}

/// Applies one move to the stacks; index 0 of a stack is its top crate.
///
/// Under the one-at-a-time scheme the moved crates end up reversed on the
/// target; under the block scheme they keep their order.  Moving a stack
/// onto itself leaves it unchanged one crate at a time, and drops the
/// moved crates under the block scheme.
pub fn apply_move(stacks: &mut Vec<Vec<char>>, mv: &Move, part2: bool)
    requires
        mv.src < old(stacks)@.len(),
        mv.dst < old(stacks)@.len(),
        mv.n <= old(stacks)@[mv.src as int]@.len(),
    ensures
        final(stacks)@.len() == old(stacks)@.len(),
        forall|k: int|
            0 <= k < old(stacks)@.len() && k != mv.src && k != mv.dst
                ==> (#[trigger] final(stacks)@[k])@ == old(stacks)@[k]@,
        mv.src == mv.dst ==> final(stacks)@[mv.dst as int]@ == (if part2 {
            old(stacks)@[mv.src as int]@.skip(mv.n as int)
        } else {
            old(stacks)@[mv.src as int]@
        }),
        mv.src != mv.dst ==> final(stacks)@[mv.src as int]@
            == old(stacks)@[mv.src as int]@.skip(mv.n as int),
        mv.src != mv.dst ==> final(stacks)@[mv.dst as int]@ == (if part2 {
            old(stacks)@[mv.src as int]@.take(mv.n as int)
        } else {
            old(stacks)@[mv.src as int]@.take(mv.n as int).reverse()
        }) + old(stacks)@[mv.dst as int]@,
{
    let ghost src_orig = old(stacks)@[mv.src as int]@;
    let ghost dst_orig = old(stacks)@[mv.dst as int]@;
    let mut i: usize = 0;
    if mv.src == mv.dst {
        if part2 {
            proof {
                assert(src_orig.skip(0) =~= src_orig);
            }
            while i < mv.n
                invariant
                    i <= mv.n,
                    mv.src < stacks@.len(),
                    mv.n <= src_orig.len(),
                    stacks@.len() == old(stacks)@.len(),
                    src_orig == old(stacks)@[mv.src as int]@,
                    stacks@[mv.src as int]@ == src_orig.skip(i as int),
                    forall|k: int|
                        0 <= k < stacks@.len() && k != mv.src ==> (#[trigger] stacks@[k])@ == old(
                            stacks,
                        )@[k]@,
                decreases mv.n - i,
            {
                let _ = stacks[mv.src].remove(0);
                proof {
                    assert(src_orig.skip(i as int).remove(0) =~= src_orig.skip(i + 1 as int));
                }
                i = i + 1;
            }
        } else {
            while i < mv.n
                invariant
                    i <= mv.n,
                    mv.src < stacks@.len(),
                    mv.n <= src_orig.len(),
                    stacks@.len() == old(stacks)@.len(),
                    src_orig == old(stacks)@[mv.src as int]@,
                    stacks@[mv.src as int]@ == src_orig,
                    forall|k: int|
                        0 <= k < stacks@.len() && k != mv.src ==> (#[trigger] stacks@[k])@ == old(
                            stacks,
                        )@[k]@,
                decreases mv.n - i,
            {
                let c = stacks[mv.src].remove(0);
                stacks[mv.src].insert(0, c);
                proof {
                    assert(src_orig.remove(0).insert(0, src_orig[0]) =~= src_orig);
                }
                i = i + 1;
            }
        }
    } else {
        proof {
            assert(src_orig.skip(0) =~= src_orig);
            assert(src_orig.take(0) =~= Seq::<char>::empty());
            assert(src_orig.take(0).reverse() =~= Seq::<char>::empty());
            assert(Seq::<char>::empty() + dst_orig =~= dst_orig);
        }
        while i < mv.n
            invariant
                i <= mv.n,
                mv.src < stacks@.len(),
                mv.dst < stacks@.len(),
                mv.src != mv.dst,
                mv.n <= src_orig.len(),
                stacks@.len() == old(stacks)@.len(),
                src_orig == old(stacks)@[mv.src as int]@,
                dst_orig == old(stacks)@[mv.dst as int]@,
                stacks@[mv.src as int]@ == src_orig.skip(i as int),
                stacks@[mv.dst as int]@ == (if part2 {
                    src_orig.take(i as int)
                } else {
                    src_orig.take(i as int).reverse()
                }) + dst_orig,
                forall|k: int|
                    0 <= k < stacks@.len() && k != mv.src && k != mv.dst ==> (
                    #[trigger] stacks@[k])@ == old(stacks)@[k]@,
            decreases mv.n - i,
        {
            let c = stacks[mv.src].remove(0);
            proof {
                assert(src_orig.skip(i as int)[0] == src_orig[i as int]);
                assert(src_orig.skip(i as int).remove(0) =~= src_orig.skip(i + 1 as int));
            }
            if part2 {
                stacks[mv.dst].insert(i, c);
                proof {
                    assert((src_orig.take(i as int) + dst_orig).insert(i as int, src_orig[i as int])
                        =~= src_orig.take(i + 1 as int) + dst_orig);
                }
            } else {
                stacks[mv.dst].insert(0, c);
                proof {
                    assert((src_orig.take(i as int).reverse() + dst_orig).insert(
                        0,
                        src_orig[i as int],
                    ) =~= src_orig.take(i + 1 as int).reverse() + dst_orig);
                }
            }
            i = i + 1;
        }
    }
}

/// The command-line options of this puzzle's program: the input path
/// (`-` for standard input) and the alternate-part switch.
#[derive(Debug)]
pub struct Args {
    pub fin: String,
    pub part2: bool,
}

} // verus!
