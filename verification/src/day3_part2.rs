//! Badge search: the one item type common to each group of rucksack
//! lines.
//!
//! Each line is reduced to its set of item characters; the badge is the
//! character shared by every line of the group.

use vstd::prelude::*;
use crate::text::to_chars;

verus! {

broadcast use vstd::set_lib::group_set_lib_default, vstd::set::group_set_axioms;

/// Computes the priority of an item character: `a`..`z` score 1..26,
/// `A`..`Z` score 27..52.
pub fn priority(c: char) -> (r: u32)
    requires
        crate::day3::is_letter(c),
    ensures
        r == crate::day3::priority_spec(c),
{
    crate::day3::priority(c)
}

/// A set of characters, kept as a vector of distinct elements in the
/// order first seen.
#[derive(Debug)]
pub struct CharSet {
    elems: Vec<char>,
}

impl CharSet {
    /// The set this collection holds.
    pub closed spec fn view(self) -> Set<char> {
        self.elems@.to_set()
    }

    /// No element occurs twice.
    pub closed spec fn inv(self) -> bool {
        forall|a: int, b: int|
            0 <= a < b < self.elems@.len() ==> #[trigger] self.elems@[a] != #[trigger] self.elems@[b]
    }

    /// How many elements the collection holds.
    pub closed spec fn spec_len(self) -> nat {
        self.elems@.len()
    }

    /// An empty set.
    pub fn new() -> (r: CharSet)
        ensures
            r.view() =~= Set::<char>::empty(),
            r.inv(),
            r.spec_len() == 0,
    {
        CharSet { elems: Vec::new() }
    }

    /// Whether `c` is an element.
    pub fn contains(&self, c: char) -> (r: bool)
        ensures
            r == self.view().contains(c),
    {
        contains_char(&self.elems, c)
    }

    /// Adds `c` to the set.
    pub fn insert(&mut self, c: char)
        requires
            old(self).inv(),
            old(self).spec_len() < usize::MAX,
        ensures
            final(self).view() == old(self).view().insert(c),
            final(self).inv(),
            final(self).spec_len() <= old(self).spec_len() + 1,
    {
        if !contains_char(&self.elems, c) {
            let ghost pre = self.elems@;
            self.elems.push(c);
            proof {
                assert forall|x: char| #![auto] self.elems@.to_set().contains(x) <==> pre.to_set(
                ).insert(c).contains(x) by {
                    if self.elems@.contains(x) {
                        let j = choose|j: int| 0 <= j < self.elems@.len() && self.elems@[j] == x;
                        if j < pre.len() {
                            assert(pre[j] == x);
                        }
                    }
                    if pre.contains(x) {
                        let j = choose|j: int| 0 <= j < pre.len() && pre[j] == x;
                        assert(self.elems@[j] == x);
                    }
                    if x == c {
                        assert(self.elems@[self.elems@.len() - 1] == x);
                    }
                }
                assert(self.view() =~= old(self).view().insert(c));
            }
        } else {
            proof {
                assert(self.view() =~= old(self).view().insert(c));
            }
        }
    }

    /// How many distinct elements the set holds.
    pub fn len(&self) -> (r: usize)
        requires
            self.inv(),
        ensures
            r == self.view().len(),
    {
        proof {
            self.elems@.unique_seq_to_set();
        }
        self.elems.len()
    }

    /// Some element of a non-empty set: the one first inserted.
    pub fn first(&self) -> (r: char)
        requires
            self.spec_len() > 0,
        ensures
            self.view().contains(r),
    {
        let r = self.elems[0];
        proof {
            assert(self.elems@.contains(self.elems@[0]));
        }
        r
    }

    /// The elements of `self` that are also in `other`, keeping the order
    /// of `self`.
    pub fn intersect(&self, other: &CharSet) -> (r: CharSet)
        requires
            self.inv(),
        ensures
            r.view() == self.view().intersect(other.view()),
            r.inv(),
            r.spec_len() <= self.spec_len(),
    {
        let mut kept: Vec<char> = Vec::new();
        let n = self.elems.len();
        let mut i: usize = 0;
        while i < n
            invariant
                i <= n,
                n == self.elems@.len(),
                self.inv(),
                kept@.len() <= i,
                forall|a: int, b: int|
                    0 <= a < b < kept@.len() ==> #[trigger] kept@[a] != #[trigger] kept@[b],
                forall|x: char| #[trigger]
                    kept@.contains(x) <==> (self.elems@.take(i as int).contains(x)
                        && other.elems@.contains(x)),
            decreases n - i,
        {
            let c = self.elems[i];
            let ghost pre = kept@;
            if contains_char(&other.elems, c) {
                kept.push(c);
                proof {
                    assert forall|a: int, b: int|
                        0 <= a < b < kept@.len() implies #[trigger] kept@[a] != #[trigger] kept@[b] by {
                        if b == kept@.len() - 1 {
                            assert(pre.contains(pre[a]));
                            let j = choose|j: int|
                                0 <= j < self.elems@.take(i as int).len() && self.elems@.take(
                                    i as int,
                                )[j] == pre[a];
                            assert(self.elems@[j] == pre[a]);
                            assert(self.elems@[i as int] == c);
                        }
                    }
                }
            }
            proof {
                let ghost cur = self.elems@.take(i + 1 as int);
                assert forall|x: char| #[trigger]
                    kept@.contains(x) <==> (cur.contains(x) && other.elems@.contains(x)) by {
                    assert(cur.drop_last() =~= self.elems@.take(i as int));
                    assert(cur.last() == self.elems@[i as int]);
                    if kept@.contains(x) {
                        let j = choose|j: int| 0 <= j < kept@.len() && kept@[j] == x;
                        if j < pre.len() {
                            assert(pre[j] == x);
                            assert(pre.contains(x));
                            let j2 = choose|j2: int|
                                0 <= j2 < self.elems@.take(i as int).len() && self.elems@.take(
                                    i as int,
                                )[j2] == x;
                            assert(cur[j2] == x);
                        } else {
                            assert(x == c);
                            assert(cur[i as int] == x);
                        }
                    }
                    if cur.contains(x) && other.elems@.contains(x) {
                        let j = choose|j: int| 0 <= j < cur.len() && cur[j] == x;
                        if j < i {
                            assert(self.elems@.take(i as int)[j] == x);
                            assert(self.elems@.take(i as int).contains(x));
                            assert(pre.contains(x));
                            let j2 = choose|j2: int| 0 <= j2 < pre.len() && pre[j2] == x;
                            assert(kept@[j2] == x);
                        } else {
                            assert(x == c);
                            if !pre.contains(x) {
                                assert(kept@[kept@.len() - 1] == x);
                            } else {
                                let j2 = choose|j2: int| 0 <= j2 < pre.len() && pre[j2] == x;
                                assert(kept@[j2] == x);
                            }
                        }
                    }
                }
            }
            i = i + 1;
        }
        let r = CharSet { elems: kept };
        proof {
            assert(self.elems@.take(n as int) =~= self.elems@);
            assert(r.view() =~= self.view().intersect(other.view()));
        }
        r
    }
}

impl PartialEq for CharSet {
    /// Two sets are equal when they hold the same elements.
    fn eq(&self, other: &CharSet) -> (r: bool) {
        let fwd = all_in(&self.elems, &other.elems);
        let bwd = all_in(&other.elems, &self.elems);
        proof {
            if fwd && bwd {
                assert(self.view() =~= other.view());
            }
            if self.view() == other.view() {
                assert forall|x: char| self.elems@.contains(x) implies #[trigger] other.elems@.contains(
                    x,
                ) by {
                    assert(self.view().contains(x));
                }
                assert forall|x: char| other.elems@.contains(x) implies #[trigger] self.elems@.contains(
                    x,
                ) by {
                    assert(other.view().contains(x));
                }
            }
        }
        fwd && bwd
    }
}

impl Eq for CharSet {

}

impl vstd::std_specs::cmp::PartialEqSpecImpl for CharSet {
    open spec fn obeys_eq_spec() -> bool {
        true
    }

    open spec fn eq_spec(&self, other: &CharSet) -> bool {
        self.view() == other.view()
    }
}

/// Whether `c` occurs in `v`.
fn contains_char(v: &Vec<char>, c: char) -> (r: bool)
    ensures
        r == v@.contains(c),
{
    let n = v.len();
    let mut i: usize = 0;
    while i < n
        invariant
            i <= n,
            n == v@.len(),
            forall|j: int| 0 <= j < i ==> v@[j] != c,
        decreases n - i,
    {
        if v[i] == c {
            proof {
                assert(v@[i as int] == c);
            }
            return true;
        }
        i = i + 1;
    }
    proof {
        if v@.contains(c) {
            let j = choose|j: int| 0 <= j < v@.len() && v@[j] == c;
            assert(false);
        }
    }
    false
}

/// Whether every character of `a` occurs in `b`.
fn all_in(a: &Vec<char>, b: &Vec<char>) -> (r: bool)
    ensures
        r == forall|x: char| a@.contains(x) ==> #[trigger] b@.contains(x),
{
    let n = a.len();
    let mut i: usize = 0;
    while i < n
        invariant
            i <= n,
            n == a@.len(),
            forall|j: int| 0 <= j < i ==> #[trigger] b@.contains(a@[j]),
        decreases n - i,
    {
        let c = a[i];
        if !contains_char(b, c) {
            proof {
                assert(a@.contains(a@[i as int]));
            }
            return false;
        }
        i = i + 1;
    }
    proof {
        assert forall|x: char| a@.contains(x) implies #[trigger] b@.contains(x) by {
            let j = choose|j: int| 0 <= j < a@.len() && a@[j] == x;
            assert(b@.contains(a@[j]));
        }
    }
    true
}

/// The set of characters occurring in a string.
pub fn string_to_hashset(s: &str) -> (r: CharSet)
    ensures
        r.view() == s@.to_set(),
        r.inv(),
        r.spec_len() <= s@.len(),
{
    let cs = to_chars(s);
    let mut r = CharSet::new();
    let mut i: usize = 0;
    proof {
        assert(r.view() =~= cs@.take(0).to_set());
    }
    while i < cs.len()
        invariant
            i <= cs@.len(),
            cs@ == s@,
            r.inv(),
            r.spec_len() <= i,
            r.view() == cs@.take(i as int).to_set(),
        decreases cs.len() - i,
    {
        let ghost pre = cs@.take(i as int);
        let ghost cur = cs@.take(i + 1 as int);
        r.insert(cs[i]);
        proof {
            assert(cur.drop_last() =~= pre);
            assert(cur.last() == cs@[i as int]);
            assert forall|x: char| #![auto] cur.to_set().contains(x) <==> pre.to_set().insert(
                cs@[i as int],
            ).contains(x) by {
                if cur.contains(x) {
                    let j = choose|j: int| 0 <= j < cur.len() && cur[j] == x;
                    if j < pre.len() {
                        assert(pre[j] == x);
                    }
                }
                if pre.contains(x) {
                    let j = choose|j: int| 0 <= j < pre.len() && pre[j] == x;
                    assert(cur[j] == x);
                }
                if x == cs@[i as int] {
                    assert(cur[cur.len() - 1] == x);
                }
            }
            assert(r.view() =~= cur.to_set());
        }
        i = i + 1;
    }
    proof {
        assert(cs@.take(cs@.len() as int) =~= cs@);
    }
    r
}

/// Whether `c` occurs in every line.
pub open spec fn common(lines: Seq<Seq<char>>, c: char) -> bool {
    forall|i: int| 0 <= i < lines.len() ==> #[trigger] lines[i].contains(c)
}

/// The set of characters common to the first `k` lines.
pub open spec fn common_upto(lines: Seq<Seq<char>>, k: int) -> Set<char>
    decreases k,
{
    if k <= 1 {
        lines[0].to_set()
    } else {
        common_upto(lines, k - 1).intersect(lines[k - 1].to_set())
    }
}

/// Membership in `common_upto` means membership in each of those lines.
proof fn lemma_common_upto(lines: Seq<Seq<char>>, k: int, c: char)
    requires
        1 <= k <= lines.len(),
        common_upto(lines, k).contains(c),
    ensures
        forall|i: int| 0 <= i < k ==> #[trigger] lines[i].contains(c),
    decreases k,
{
    if k > 1 {
        lemma_common_upto(lines, k - 1, c);
    }
}

/// A character occurring in every line: the badge of the group.
pub fn find_common_character(lines: &Vec<String>) -> (r: char)
    requires
        lines@.len() > 0,
        exists|c: char| common(lines.deep_view(), c),
    ensures
        common(lines.deep_view(), r),
{
    let ghost all = lines.deep_view();
    proof {
        assert(all[0] == lines@[0]@);
    }
    let mut acc = string_to_hashset(lines[0].as_str());
    let mut i: usize = 1;
    while i < lines.len()
        invariant
            1 <= i <= lines@.len(),
            all == lines.deep_view(),
            lines@.len() == all.len(),
            acc.inv(),
            acc.view() == common_upto(all, i as int),
        decreases lines.len() - i,
    {
        proof {
            assert(all[i as int] == lines@[i as int]@);
        }
        let line_set = string_to_hashset(lines[i].as_str());
        acc = acc.intersect(&line_set);
        i = i + 1;
    }
    proof {
        let c = choose|c: char| common(all, c);
        assert forall|k: int| 1 <= k <= all.len() implies common_upto(all, k).contains(c) by {
            lemma_common_member(all, k, c);
        }
        assert(common_upto(all, all.len() as int).contains(c));
        assert(acc.view().contains(c));
        assert(acc.spec_len() > 0) by {
            if acc.spec_len() == 0 {
                lemma_empty_charset(acc);
            }
        }
    }
    let r = acc.first();
    proof {
        lemma_common_upto(all, all.len() as int, r);
    }
    r
}

/// The badge of the group, when one exists: a character occurring in
/// every line.
pub fn try_find_common_character(lines: &Vec<String>) -> (r: Option<char>)
    requires
        lines@.len() > 0,
    ensures
        match r {
            Some(c) => common(lines.deep_view(), c),
            None => !exists|c: char| common(lines.deep_view(), c),
        },
{
    let ghost all = lines.deep_view();
    proof {
        assert(all[0] == lines@[0]@);
    }
    let mut acc = string_to_hashset(lines[0].as_str());
    let mut i: usize = 1;
    while i < lines.len()
        invariant
            1 <= i <= lines@.len(),
            all == lines.deep_view(),
            lines@.len() == all.len(),
            acc.inv(),
            acc.view() == common_upto(all, i as int),
        decreases lines.len() - i,
    {
        proof {
            assert(all[i as int] == lines@[i as int]@);
        }
        let line_set = string_to_hashset(lines[i].as_str());
        acc = acc.intersect(&line_set);
        i = i + 1;
    }
    if acc.len() == 0 {
        proof {
            acc.elems@.unique_seq_to_set();
            lemma_empty_charset(acc);
            if exists|c: char| common(all, c) {
                let c = choose|c: char| common(all, c);
                lemma_common_member(all, all.len() as int, c);
            }
        }
        None
    } else {
        proof {
            acc.elems@.unique_seq_to_set();
        }
        let r = acc.first();
        proof {
            lemma_common_upto(all, all.len() as int, r);
        }
        Some(r)
    }
}

/// A set with no elements contains nothing.
proof fn lemma_empty_charset(s: CharSet)
    requires
        s.spec_len() == 0,
    ensures
        forall|c: char| !(#[trigger] s.view().contains(c)),
{
    assert forall|c: char| !(#[trigger] s.view().contains(c)) by {
        if s.view().contains(c) {
            let j = choose|j: int| 0 <= j < s.elems@.len() && s.elems@[j] == c;
        }
    }
}

/// A common character lies in every prefix intersection.
proof fn lemma_common_member(lines: Seq<Seq<char>>, k: int, c: char)
    requires
        1 <= k <= lines.len(),
        common(lines, c),
    ensures
        common_upto(lines, k).contains(c),
    decreases k,
{
    if k > 1 {
        lemma_common_member(lines, k - 1, c);
    }
}

} // verus!
