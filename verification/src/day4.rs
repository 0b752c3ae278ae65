//! Overlap checks between pairs of section ranges.
//!
//! A line such as `2-6,3-4` describes two inclusive ranges; the puzzle asks
//! whether one range of the pair fully holds the other.

use vstd::prelude::*;
use crate::text::i32_val;
use crate::text::split_on;
use crate::text::split_on_char;
use crate::text::parse_i32_range;
use crate::text::string_of;
use crate::text::to_chars;

verus! {

/// A half-open range of section numbers, `start` up to but not reaching
/// `end`.
#[derive(Debug, PartialEq, Eq, Structural, Clone, Copy)]
pub struct Span {
    pub start: i32,
    pub end: i32,
}

/// Whether `x` lies inside `r`.
pub open spec fn span_holds(r: Span, x: int) -> bool {
    r.start <= x < r.end
}

/// The integer values among `pieces`, in order; pieces that are not integer
/// tokens are dropped.
pub open spec fn parsed_vals(pieces: Seq<Seq<char>>) -> Seq<i32>
    decreases pieces.len(),
{
    if pieces.len() == 0 {
        Seq::empty()
    } else {
        let head = match i32_val(pieces[0]) {
            Some(v) => seq![v],
            None => Seq::<i32>::empty(),
        };
        head + parsed_vals(pieces.skip(1))
    }
}

/// The range written `a-b`: the first two integer values found, with the
/// upper bound made exclusive.  `None` when fewer than two values are
/// present or the upper bound cannot be raised by one.
pub open spec fn parse_range_spec(s: Seq<char>) -> Option<Span> {
    let vals = parsed_vals(split_on(s, '-'));
    if vals.len() >= 2 && vals[1] < i32::MAX {
        Some(Span { start: vals[0], end: (vals[1] + 1) as i32 })
    } else {
        None
    }
}

/// Reads one `a-b` range.
pub fn parse_range(s: &str) -> (r: Option<Span>)
    ensures
        r == parse_range_spec(s@),
{
    let cs = to_chars(s);
    let pieces = split_on_char(&cs, '-');
    let ghost all = pieces.deep_view();
    let mut vals: Vec<i32> = Vec::new();
    let mut i: usize = 0;
    proof {
        assert(all.skip(0) =~= all);
        assert(Seq::<i32>::empty() + parsed_vals(all) =~= parsed_vals(all));
    }
    while i < pieces.len()
        invariant
            i <= pieces.len(),
            all == pieces.deep_view(),
            pieces@.len() == all.len(),
            vals@ + parsed_vals(all.skip(i as int)) == parsed_vals(all),
        decreases pieces.len() - i,
    {
        proof {
            assert(all.skip(i as int)[0] == all[i as int]);
            assert(all.skip(i as int).skip(1) =~= all.skip(i + 1 as int));
            assert(all[i as int] == pieces@[i as int].deep_view());
            assert(pieces@[i as int].deep_view() =~= pieces@[i as int]@);
        }
        let piece = &pieces[i];
        proof {
            assert(piece@.subrange(0, piece@.len() as int) =~= piece@);
        }
        match parse_i32_range(piece, 0, piece.len()) {
            Some(v) => {
                vals.push(v);
            },
            None => {},
        }
        i = i + 1;
        proof {
            assert(vals@ + parsed_vals(all.skip(i as int)) =~= parsed_vals(all));
        }
    }
    proof {
        assert(all.skip(all.len() as int) =~= Seq::<Seq<char>>::empty());
        assert(vals@ + Seq::<i32>::empty() =~= vals@);
    }
    if vals.len() >= 2 && vals[1] < i32::MAX {
        Some(Span { start: vals[0], end: vals[1] + 1 })
    } else {
        None
    }
}

/// The ranges written on one comma-separated line, when every piece parses.
pub open spec fn parse_ranges_spec(s: Seq<char>) -> Option<Seq<Span>> {
    let pieces = split_on(s, ',');
    if forall|j: int| 0 <= j < pieces.len() ==> parse_range_spec(#[trigger] pieces[j]) is Some {
        Some(Seq::new(pieces.len(), |j: int| parse_range_spec(pieces[j]).unwrap()))
    } else {
        None
    }
}

/// Reads the comma-separated ranges of one line; `None` when any piece is
/// malformed.
pub fn parse_ranges(line: &str) -> (r: Option<Vec<Span>>)
    ensures
        match r {
            Some(spans) => Some(spans@) == parse_ranges_spec(line@),
            None => parse_ranges_spec(line@) is None,
        },
{
    let cs = to_chars(line);
    let pieces = split_on_char(&cs, ',');
    let ghost all = pieces.deep_view();
    let mut spans: Vec<Span> = Vec::new();
    let mut i: usize = 0;
    while i < pieces.len()
        invariant
            i <= pieces.len(),
            all == pieces.deep_view(),
            all == split_on(line@, ','),
            pieces@.len() == all.len(),
            spans@.len() == i,
            forall|j: int| 0 <= j < i ==> parse_range_spec(#[trigger] all[j]) == Some(spans@[j]),
        decreases pieces.len() - i,
    {
        proof {
            assert(all[i as int] == pieces@[i as int].deep_view());
            assert(pieces@[i as int].deep_view() =~= pieces@[i as int]@);
        }
        let piece = &pieces[i];
        let piece_str = string_of(piece);
        match parse_range(piece_str.as_str()) {
            Some(span) => {
                spans.push(span);
            },
            None => {
                proof {
                    assert(parse_range_spec(split_on(line@, ',')[i as int]) is None);
                }
                return None;
            },
        }
        i = i + 1;
    }
    proof {
        assert(spans@ =~= Seq::new(all.len(), |j: int| parse_range_spec(all[j]).unwrap()));
    }
    Some(spans)
}

/// Whether `r1` fully holds `r2`.
pub fn is_contained(r1: &Span, r2: &Span) -> (r: bool)
    requires
        r2.end > i32::MIN,
    ensures
        r == (span_holds(*r1, r2.start as int) && span_holds(*r1, r2.end - 1)),
{
    r1.start <= r2.start && r2.start < r1.end && r1.start <= r2.end - 1 && r2.end - 1 < r1.end
}

/// Whether either range of the pair fully holds the other.
pub fn either_contains(r1: &Span, r2: &Span) -> (r: bool)
    requires
        r1.end > i32::MIN,
        r2.end > i32::MIN,
    ensures
        r == ((span_holds(*r1, r2.start as int) && span_holds(*r1, r2.end - 1)) || (span_holds(
            *r2,
            r1.start as int,
        ) && span_holds(*r2, r1.end - 1))),
{
    is_contained(r1, r2) || is_contained(r2, r1)
}

/// The command-line options of this puzzle's program: the input path,
/// with `-` for standard input.
#[derive(Debug)]
pub struct Args {
    pub fin: String,
}

} // verus!
