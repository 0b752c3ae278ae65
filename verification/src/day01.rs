//! Calorie bookkeeping for the elf inventory lists.
//!
//! The input lists one calorie count per line, with blank lines separating
//! the inventories of different elves; the answers are the largest total
//! and the sum of the three largest totals.

use vstd::prelude::*;
use vstd::multiset::Multiset;
use vstd::relations::sorted_by;
use vstd::relations::total_ordering;
use vstd::seq_lib::lemma_sorted_unique;
use crate::text::to_chars;
use crate::text::trim_range;
use crate::text::trimmed;
use crate::text::u32_val;

verus! {

broadcast use vstd::seq_lib::group_to_multiset_ensures, vstd::multiset::group_multiset_axioms;

/// Descending order on calorie totals.
pub open spec fn descending() -> spec_fn(u32, u32) -> bool {
    |x: u32, y: u32| x >= y
}

/// The group totals encoded by `lines` starting with a running total of
/// `acc`: a blank line closes the current group, any other line adds its
/// trimmed value to it when that value parses, and a final unclosed group
/// is dropped.
pub open spec fn group_totals(lines: Seq<Seq<char>>, acc: int) -> Seq<int>
    decreases lines.len(),
{
    if lines.len() == 0 {
        Seq::empty()
    } else if lines[0].len() == 0 {
        seq![acc] + group_totals(lines.skip(1), 0)
    } else {
        match u32_val(trimmed(lines[0])) {
            Some(v) => group_totals(lines.skip(1), acc + v),
            None => group_totals(lines.skip(1), acc),
        }
    }
}

/// Whether every running total along `lines` stays within `u32`.
pub open spec fn groups_fit(lines: Seq<Seq<char>>, acc: int) -> bool
    decreases lines.len(),
{
    if lines.len() == 0 {
        true
    } else if lines[0].len() == 0 {
        groups_fit(lines.skip(1), 0)
    } else {
        match u32_val(trimmed(lines[0])) {
            Some(v) => acc + v <= u32::MAX && groups_fit(lines.skip(1), acc + v),
            None => groups_fit(lines.skip(1), acc),
        }
    }
}

/// Sums each blank-line-separated group of calorie lines.  Lines that do
/// not parse as a `u32` after trimming are skipped; a final group without
/// a closing blank line is dropped.
pub fn parse_totals(lines: &Vec<String>) -> (r: Vec<u32>)
    requires
        groups_fit(lines.deep_view(), 0),
    ensures
        r@.map_values(|x: u32| x as int) == group_totals(lines.deep_view(), 0),
{
    let ghost all = lines.deep_view();
    let mut r: Vec<u32> = Vec::new();
    let mut curr: u32 = 0;
    let mut i: usize = 0;
    proof {
        assert(all.skip(0) =~= all);
        assert(Seq::<int>::empty() + group_totals(all, 0) =~= group_totals(all, 0));
    }
    while i < lines.len()
        invariant
            i <= lines.len(),
            all == lines.deep_view(),
            lines@.len() == all.len(),
            r@.map_values(|x: u32| x as int) + group_totals(all.skip(i as int), curr as int)
                == group_totals(all, 0),
            groups_fit(all.skip(i as int), curr as int),
        decreases lines.len() - i,
    {
        let ghost before = all.skip(i as int);
        proof {
            assert(before.skip(1) =~= all.skip(i + 1 as int));
            assert(before[0] == all[i as int]);
            assert(all[i as int] == lines@[i as int]@);
        }
        let cs = to_chars(lines[i].as_str());
        if cs.len() == 0 {
            let ghost prev = r@;
            let closed = curr;
            r.push(curr);
            curr = 0;
            proof {
                assert(r@.map_values(|x: u32| x as int) =~= prev.map_values(|x: u32| x as int)
                    + seq![closed as int]);
            }
        } else {
            let bounds = trim_range(&cs);
            match crate::text::parse_u32_range(&cs, bounds.0, bounds.1) {
                Some(v) => {
                    curr = curr + v;
                },
                None => {},
            }
        }
        i = i + 1;
        proof {
            assert(r@.map_values(|x: u32| x as int) + group_totals(all.skip(i as int), curr as int)
                =~= group_totals(all, 0));
        }
    }
    proof {
        assert(all.skip(all.len() as int) =~= Seq::<Seq<char>>::empty());
        assert(r@.map_values(|x: u32| x as int) + Seq::<int>::empty() =~= r@.map_values(
            |x: u32| x as int,
        ));
    }
    r
}

/// The largest total carried by a single elf.
pub fn max_total(totals: &Vec<u32>) -> (r: u32)
    requires
        totals@.len() > 0,
    ensures
        totals@.contains(r),
        forall|j: int| 0 <= j < totals@.len() ==> totals@[j] <= r,
{
    let mut best = totals[0];
    let mut i: usize = 1;
    proof {
        assert(totals@[0] == best);
    }
    while i < totals.len()
        invariant
            1 <= i <= totals@.len(),
            totals@.contains(best),
            forall|j: int| 0 <= j < i ==> totals@[j] <= best,
        decreases totals.len() - i,
    {
        if totals[i] > best {
            best = totals[i];
            proof {
                assert(totals@[i as int] == best);
            }
        }
        i = i + 1;
    }
    best
}

/// Index of a maximal element.
fn max_index(v: &Vec<u32>) -> (r: usize)
    requires
        v@.len() > 0,
    ensures
        r < v@.len(),
        forall|j: int| 0 <= j < v@.len() ==> v@[j] <= v@[r as int],
{
    let mut best: usize = 0;
    let mut i: usize = 1;
    while i < v.len()
        invariant
            best < i <= v@.len(),
            forall|j: int| 0 <= j < i ==> v@[j] <= v@[best as int],
        decreases v.len() - i,
    {
        if v[i] > v[best] {
            best = i;
        }
        i = i + 1;
    }
    best
}

/// Sorts the totals into descending order and sums the three largest.
pub fn top3_total(totals: &mut Vec<u32>) -> (r: u32)
    requires
        old(totals)@.len() >= 3,
        ({
            let s = old(totals)@.sort_by(descending());
            s[0] + s[1] + s[2] <= u32::MAX
        }),
    ensures
        final(totals)@ == old(totals)@.sort_by(descending()),
        r == final(totals)@[0] + final(totals)@[1] + final(totals)@[2],
{
    let ghost orig = totals@;
    let mut rest: Vec<u32> = Vec::new();
    let mut k: usize = 0;
    while k < totals.len()
        invariant
            k <= totals@.len(),
            orig == totals@,
            rest@ == totals@.take(k as int),
        decreases totals.len() - k,
    {
        rest.push(totals[k]);
        proof {
            assert(totals@.take(k + 1 as int) =~= totals@.take(k as int).push(totals@[k as int]));
        }
        k = k + 1;
    }
    proof {
        assert(totals@.take(totals@.len() as int) =~= totals@);
    }
    let mut sorted: Vec<u32> = Vec::new();
    while rest.len() > 0
        invariant
            sorted@.to_multiset().add(rest@.to_multiset()) == orig.to_multiset(),
            sorted_by(sorted@, descending()),
            forall|j: int|
                0 <= j < rest@.len() && sorted@.len() > 0 ==> #[trigger] rest@[j]
                    <= sorted@.last(),
        decreases rest.len(),
    {
        let m = max_index(&rest);
        let ghost rest_pre = rest@;
        let ghost sorted_pre = sorted@;
        let x = rest.remove(m);
        sorted.push(x);
        proof {
            assert(rest_pre.remove(m as int).to_multiset() =~= rest_pre.to_multiset().remove(
                rest_pre[m as int],
            ));
            assert(sorted_pre.push(x).to_multiset() =~= sorted_pre.to_multiset().insert(x));
            assert(rest_pre.contains(rest_pre[m as int]));
            assert(rest_pre.to_multiset().count(x) >= 1);
            assert forall|y: u32|
                sorted@.to_multiset().add(rest@.to_multiset()).count(y) == orig.to_multiset().count(
                y,
            ) by {
                let sm = sorted_pre.to_multiset();
                let rm = rest_pre.to_multiset();
                if y == x {
                    assert(Multiset::<u32>::singleton(x).count(y) == 1);
                } else {
                    assert(Multiset::<u32>::singleton(x).count(y) == 0);
                }
                assert(sorted@.to_multiset().count(y) == sm.add(Multiset::singleton(x)).count(y));
                assert(rest@.to_multiset().count(y) == rm.sub(Multiset::singleton(x)).count(y));
                assert(sm.add(rm).count(y) == orig.to_multiset().count(y));
            }
            assert(sorted@.to_multiset().add(rest@.to_multiset()) =~= orig.to_multiset());
            assert forall|a: int, b: int|
                0 <= a < b < sorted@.len() implies (descending())(sorted@[a], sorted@[b]) by {
                assert(sorted@ == sorted_pre.push(x));
                assert(sorted@[a] == sorted_pre[a]);
                if b < sorted@.len() - 1 {
                    assert(sorted@[b] == sorted_pre[b]);
                    assert((descending())(sorted_pre[a], sorted_pre[b]));
                } else {
                    assert(sorted@[b] == x);
                    assert(rest_pre[m as int] <= sorted_pre.last());
                    if a < sorted_pre.len() - 1 {
                        assert((descending())(sorted_pre[a], sorted_pre.last()));
                    }
                }
            }
            assert(sorted_by(sorted@, descending()));
            assert forall|j: int|
                0 <= j < rest@.len() && sorted@.len() > 0 implies #[trigger] rest@[j]
                <= sorted@.last() by {
                if j < m {
                    assert(rest@[j] == rest_pre[j]);
                } else {
                    assert(rest@[j] == rest_pre[j + 1]);
                }
            }
        }
    }
    proof {
        assert(rest@.to_multiset() =~= Multiset::<u32>::empty());
        assert(sorted@.to_multiset().add(Multiset::<u32>::empty()) =~= sorted@.to_multiset());
        assert(sorted@.to_multiset() == orig.to_multiset());
        orig.lemma_sort_by_ensures(descending());
        assert(total_ordering(descending()));
        lemma_sorted_unique(sorted@, orig.sort_by(descending()), descending());
        assert(sorted@ == orig.sort_by(descending()));
        assert(sorted@.to_multiset().len() == sorted@.len());
        assert(orig.to_multiset().len() == orig.len());
        assert(sorted@.len() >= 3);
    }
    let r = sorted[0] + sorted[1] + sorted[2];
    *totals = sorted;
    r
}

} // verus!
