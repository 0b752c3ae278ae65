//! Rucksack reorganisation: item priorities and per-compartment item
//! counts.
//!
//! A rucksack line is split in half; each half is kept as a count of item
//! characters, and the item shared by both halves determines the answer.

use vstd::prelude::*;
use crate::text::to_chars;

verus! {

/// The priority of an item: `a`..`z` score 1..26, `A`..`Z` score 27..52.
pub open spec fn priority_spec(c: char) -> int {
    if 'A' <= c <= 'Z' {
        c as u32 - 38
    } else {
        c as u32 - 96
    }
}

/// Whether `c` is an ASCII letter.
pub open spec fn is_letter(c: char) -> bool {
    ('a' <= c <= 'z') || ('A' <= c <= 'Z')
}

/// Computes the priority of an item character.
pub fn priority(c: char) -> (r: u32)
    requires
        is_letter(c),
    ensures
        r == priority_spec(c),
{
    let u = c as u32;
    if 65 <= u && u <= 90 {
        u - 38
    } else {
        u - 96
    }
}

/// How many times `c` occurs in `s`.
pub open spec fn occurrences(s: Seq<char>, c: char) -> int
    decreases s.len(),
{
    if s.len() == 0 {
        0
    } else {
        occurrences(s.drop_last(), c) + if s.last() == c {
            1int
        } else {
            0int
        }
    }
}

/// Occurrence counts never exceed the length counted over.
pub proof fn lemma_occurrences_le_len(s: Seq<char>, c: char)
    ensures
        0 <= occurrences(s, c) <= s.len(),
    decreases s.len(),
{
    if s.len() > 0 {
        lemma_occurrences_le_len(s.drop_last(), c);
    }
}

/// Whether some entry of `es` carries the key `c`.
pub open spec fn has_key(es: Seq<(char, u32)>, c: char) -> bool {
    exists|j: int| 0 <= j < es.len() && (#[trigger] es[j]).0 == c
}

/// The value of the entry carrying `c`.
pub open spec fn val_of(es: Seq<(char, u32)>, c: char) -> u32 {
    es[choose|j: int| 0 <= j < es.len() && (#[trigger] es[j]).0 == c].1
}

/// A count per character, kept as an association list with distinct keys.
pub struct CharCounts {
    entries: Vec<(char, u32)>,
}

impl CharCounts {
    /// The map this collection holds.
    pub closed spec fn view(self) -> Map<char, u32> {
        Map::new(|c: char| has_key(self.entries@, c), |c: char| val_of(self.entries@, c))
    }

    /// How many distinct keys the collection holds.
    pub closed spec fn spec_len(self) -> nat {
        self.entries@.len()
    }

    /// Keys occur at most once.
    pub closed spec fn inv(self) -> bool {
        forall|a: int, b: int|
            0 <= a < b < self.entries@.len() ==> (#[trigger] self.entries@[a]).0 != (
            #[trigger] self.entries@[b]).0
    }

    /// An empty collection.
    pub fn new() -> (r: CharCounts)
        ensures
            r.view() =~= Map::<char, u32>::empty(),
            r.inv(),
            r.spec_len() == 0,
    {
        CharCounts { entries: Vec::new() }
    }

    /// Sets the count of `key` to `value`, as a map insertion.
    pub fn insert(&mut self, key: char, value: u32)
        requires
            old(self).inv(),
            old(self).spec_len() < usize::MAX,
        ensures
            final(self).view() == old(self).view().insert(key, value),
            final(self).inv(),
            final(self).spec_len() <= old(self).spec_len() + 1,
    {
        let ghost pre = self.entries@;
        let n = self.entries.len();
        let mut i: usize = 0;
        while i < n
            invariant
                i <= n,
                n == self.entries@.len(),
                self.entries@ == pre,
                pre == old(self).entries@,
                old(self).inv(),
                old(self).spec_len() < usize::MAX,
                forall|j: int| 0 <= j < i ==> (#[trigger] pre[j]).0 != key,
            decreases n - i,
        {
            if self.entries[i].0 == key {
                self.entries[i] = (key, value);
                proof {
                    let post = self.entries@;
                    assert(post == pre.update(i as int, (key, value)));
                    assert(self.view() =~= old(self).view().insert(key, value)) by {
                        assert forall|c: char| #![auto] has_key(post, c) <==> (has_key(pre, c) || c
                            == key) by {
                            if has_key(post, c) {
                                let j = choose|j: int|
                                    0 <= j < post.len() && (#[trigger] post[j]).0 == c;
                                if j != i {
                                    assert(pre[j].0 == c);
                                }
                            }
                            if has_key(pre, c) && c != key {
                                let j = choose|j: int|
                                    0 <= j < pre.len() && (#[trigger] pre[j]).0 == c;
                                assert(post[j].0 == c);
                            }
                            if c == key {
                                assert(post[i as int].0 == c);
                            }
                        }
                        assert forall|c: char| has_key(post, c) implies val_of(post, c) == (if c
                            == key {
                            value
                        } else {
                            val_of(pre, c)
                        }) by {
                            let j = choose|j: int|
                                0 <= j < post.len() && (#[trigger] post[j]).0 == c;
                            if c == key {
                                assert(pre[i as int].0 == key);
                                if j != i {
                                    assert(pre[j].0 == key);
                                    assert(false);
                                }
                            } else {
                                assert(j != i);
                                assert(pre[j].0 == c);
                                let j2 = choose|j2: int|
                                    0 <= j2 < pre.len() && (#[trigger] pre[j2]).0 == c;
                                assert(pre[j2].0 == c);
                                if j2 != j {
                                    assert(false);
                                }
                            }
                        }
                    }
                }
                return ;
            }
            i = i + 1;
        }
        self.entries.push((key, value));
        proof {
            let post = self.entries@;
            assert(post == pre.push((key, value)));
            assert(self.view() =~= old(self).view().insert(key, value)) by {
                assert forall|c: char| #![auto] has_key(post, c) <==> (has_key(pre, c) || c
                    == key) by {
                    if has_key(post, c) {
                        let j = choose|j: int| 0 <= j < post.len() && (#[trigger] post[j]).0 == c;
                        if j < pre.len() {
                            assert(pre[j].0 == c);
                        }
                    }
                    if has_key(pre, c) {
                        let j = choose|j: int| 0 <= j < pre.len() && (#[trigger] pre[j]).0 == c;
                        assert(post[j].0 == c);
                    }
                    if c == key {
                        assert(post[post.len() - 1].0 == c);
                    }
                }
                assert forall|c: char| has_key(post, c) implies val_of(post, c) == (if c == key {
                    value
                } else {
                    val_of(pre, c)
                }) by {
                    let j = choose|j: int| 0 <= j < post.len() && (#[trigger] post[j]).0 == c;
                    if c == key {
                        if j < pre.len() {
                            assert(pre[j].0 == key);
                            assert(false);
                        }
                    } else {
                        assert(j < pre.len());
                        assert(pre[j].0 == c);
                        let j2 = choose|j2: int| 0 <= j2 < pre.len() && (#[trigger] pre[j2]).0 == c;
                        if j2 != j {
                            assert(false);
                        }
                    }
                }
            }
            assert forall|a: int, b: int|
                0 <= a < b < post.len() implies (#[trigger] post[a]).0 != (
            #[trigger] post[b]).0 by {
                if b < pre.len() {
                } else {
                    assert(pre[a].0 != key);
                }
            }
        }
    }

    /// The count recorded for `c`, or zero when `c` is absent.
    pub fn get(&self, c: char) -> (r: u32)
        requires
            self.inv(),
        ensures
            r == if self.view().contains_key(c) {
                self.view()[c]
            } else {
                0
            },
    {
        let n = self.entries.len();
        let mut i: usize = 0;
        while i < n
            invariant
                i <= n,
                n == self.entries@.len(),
                self.inv(),
                forall|j: int| 0 <= j < i ==> (#[trigger] self.entries@[j]).0 != c,
            decreases n - i,
        {
            let e = self.entries[i];
            if e.0 == c {
                proof {
                    let es = self.entries@;
                    assert(es[i as int].0 == c);
                    let j = choose|j: int| 0 <= j < es.len() && (#[trigger] es[j]).0 == c;
                    if j != i {
                        assert(false);
                    }
                }
                return e.1;
            }
            i = i + 1;
        }
        proof {
            if has_key(self.entries@, c) {
                let j = choose|j: int|
                    0 <= j < self.entries@.len() && (#[trigger] self.entries@[j]).0 == c;
                assert(false);
            }
        }
        0
    }

    /// Whether `c` has an entry.
    pub fn contains_key(&self, c: char) -> (r: bool)
        ensures
            r == self.view().contains_key(c),
    {
        let n = self.entries.len();
        let mut i: usize = 0;
        while i < n
            invariant
                i <= n,
                n == self.entries@.len(),
                forall|j: int| 0 <= j < i ==> (#[trigger] self.entries@[j]).0 != c,
            decreases n - i,
        {
            if self.entries[i].0 == c {
                proof {
                    assert(self.entries@[i as int].0 == c);
                }
                return true;
            }
            i = i + 1;
        }
        proof {
            if has_key(self.entries@, c) {
                let j = choose|j: int|
                    0 <= j < self.entries@.len() && (#[trigger] self.entries@[j]).0 == c;
                assert(false);
            }
        }
        false
    }
}

/// Whether `m` holds exactly the occurrence counts of the characters of
/// `s`.
pub open spec fn counts(m: CharCounts, s: Seq<char>) -> bool {
    &&& m.inv()
    &&& forall|c: char| #[trigger] m.view().contains_key(c) <==> s.contains(c)
    &&& forall|c: char| s.contains(c) ==> #[trigger] m.view()[c] == occurrences(s, c)
}

/// Counts the characters `cs[from..to]`.
fn count_range(cs: &Vec<char>, from: usize, to: usize) -> (r: CharCounts)
    requires
        from <= to <= cs@.len(),
        to - from <= u32::MAX,
    ensures
        counts(r, cs@.subrange(from as int, to as int)),
{
    let ghost whole = cs@.subrange(from as int, to as int);
    let mut m = CharCounts::new();
    let mut i: usize = from;
    proof {
        assert(cs@.subrange(from as int, from as int) =~= Seq::<char>::empty());
    }
    while i < to
        invariant
            from <= i <= to <= cs@.len(),
            to - from <= u32::MAX,
            counts(m, cs@.subrange(from as int, i as int)),
            m.spec_len() <= i - from,
        decreases to - i,
    {
        let ghost prev = cs@.subrange(from as int, i as int);
        let ghost cur = cs@.subrange(from as int, i + 1 as int);
        proof {
            assert(cur.drop_last() =~= prev);
            assert(cur.last() == cs@[i as int]);
        }
        let c = cs[i];
        let count = m.get(c);
        proof {
            if prev.contains(c) {
                lemma_occurrences_le_len(prev, c);
            }
        }
        m.insert(c, count + 1);
        proof {
            assert forall|x: char| #![auto] cur.contains(x) <==> (prev.contains(x) || x == c) by {
                if cur.contains(x) {
                    let j = choose|j: int| 0 <= j < cur.len() && cur[j] == x;
                    if j < prev.len() {
                        assert(prev[j] == x);
                        assert(prev.contains(x));
                    }
                }
                if prev.contains(x) {
                    let j = choose|j: int| 0 <= j < prev.len() && prev[j] == x;
                    assert(cur[j] == x);
                }
                if x == c {
                    assert(cur[cur.len() - 1] == x);
                }
            }
            assert forall|x: char| cur.contains(x) implies #[trigger] m.view()[x] == occurrences(
                cur,
                x,
            ) by {
                assert(occurrences(cur, x) == occurrences(prev, x) + if x == c {
                    1int
                } else {
                    0int
                });
                if x != c {
                    assert(m.view()[x] == occurrences(prev, x));
                } else {
                    if !prev.contains(c) {
                        lemma_no_occurrences(prev, c);
                    }
                }
            }
        }
        i = i + 1;
    }
    m
}

/// A character that never occurs has no occurrences.
proof fn lemma_no_occurrences(s: Seq<char>, c: char)
    requires
        !s.contains(c),
    ensures
        occurrences(s, c) == 0,
    decreases s.len(),
{
    if s.len() > 0 {
        assert(forall|j: int| 0 <= j < s.len() - 1 ==> s.drop_last()[j] == s[j]);
        if s.drop_last().contains(c) {
            let j = choose|j: int| 0 <= j < s.len() - 1 && s.drop_last()[j] == c;
            assert(s[j] == c);
        }
        lemma_no_occurrences(s.drop_last(), c);
        assert(s.last() != c);
    }
}

/// Counts the characters of a whole string.
pub fn string_to_hashmap(s: &str) -> (r: CharCounts)
    requires
        s@.len() <= u32::MAX,
    ensures
        counts(r, s@),
{
    let cs = to_chars(s);
    let r = count_range(&cs, 0, cs.len());
    proof {
        assert(cs@.subrange(0, cs@.len() as int) =~= s@);
    }
    r
}

/// A rucksack: the item counts of its two equal compartments.
pub struct Rucksack {
    pub compartment1: CharCounts,
    pub compartment2: CharCounts,
}

impl Rucksack {
    /// Splits the contents in half and counts the items of each side.
    pub fn from_contents(contents: &str) -> (r: Rucksack)
        requires
            contents@.len() <= u32::MAX,
        ensures
            counts(r.compartment1, contents@.take(contents@.len() as int / 2)),
            counts(r.compartment2, contents@.skip(contents@.len() as int / 2)),
    {
        let cs = to_chars(contents);
        let median = cs.len() / 2;
        let compartment1 = count_range(&cs, 0, median);
        let compartment2 = count_range(&cs, median, cs.len());
        proof {
            assert(cs@.subrange(0, median as int) =~= contents@.take(contents@.len() as int / 2));
            assert(cs@.subrange(median as int, cs@.len() as int) =~= contents@.skip(
                contents@.len() as int / 2,
            ));
        }
        Rucksack { compartment1, compartment2 }
    }
}

/// The first key of `m1`, in entry order, that `m2` also holds.
pub fn find_shared_key(m1: &CharCounts, m2: &CharCounts) -> (r: Option<char>)
    ensures
        match r {
            Some(k) => m1.view().contains_key(k) && m2.view().contains_key(k),
            None => forall|c: char|
                !(#[trigger] m1.view().contains_key(c) && m2.view().contains_key(c)),
        },
{
    let n = m1.entries.len();
    let mut i: usize = 0;
    while i < n
        invariant
            i <= n,
            n == m1.entries@.len(),
            forall|j: int| 0 <= j < i ==> !m2.view().contains_key((#[trigger] m1.entries@[j]).0),
        decreases n - i,
    {
        let k = m1.entries[i].0;
        if m2.contains_key(k) {
            proof {
                assert(m1.entries@[i as int].0 == k);
            }
            return Some(k);
        }
        i = i + 1;
    }
    proof {
        assert forall|c: char|
            !(#[trigger] m1.view().contains_key(c) && m2.view().contains_key(c)) by {
            if m1.view().contains_key(c) && m2.view().contains_key(c) {
                let j = choose|j: int|
                    0 <= j < m1.entries@.len() && (#[trigger] m1.entries@[j]).0 == c;
                assert(!m2.view().contains_key(m1.entries@[j].0));
            }
        }
    }
    None
}

/// One rucksack per line.
pub fn parse_rucksacks(lines: &Vec<String>) -> (r: Vec<Rucksack>)
    requires
        forall|i: int| 0 <= i < lines@.len() ==> (#[trigger] lines.deep_view()[i]).len()
            <= u32::MAX,
    ensures
        r@.len() == lines@.len(),
        forall|i: int|
            0 <= i < r@.len() ==> counts(
                (#[trigger] r@[i]).compartment1,
                lines.deep_view()[i].take(lines.deep_view()[i].len() as int / 2),
            ) && counts(
                r@[i].compartment2,
                lines.deep_view()[i].skip(lines.deep_view()[i].len() as int / 2),
            ),
{
    let mut r: Vec<Rucksack> = Vec::new();
    let mut i: usize = 0;
    while i < lines.len()
        invariant
            i <= lines@.len(),
            r@.len() == i,
            forall|j: int| 0 <= j < lines@.len() ==> (#[trigger] lines.deep_view()[j]).len()
                <= u32::MAX,
            forall|j: int|
                0 <= j < i ==> counts(
                    (#[trigger] r@[j]).compartment1,
                    lines.deep_view()[j].take(lines.deep_view()[j].len() as int / 2),
                ) && counts(
                    r@[j].compartment2,
                    lines.deep_view()[j].skip(lines.deep_view()[j].len() as int / 2),
                ),
        decreases lines.len() - i,
    {
        proof {
            assert(lines.deep_view()[i as int] == lines@[i as int]@);
        }
        let sack = Rucksack::from_contents(lines[i].as_str());
        r.push(sack);
        i = i + 1;
    }
    r
}

} // verus!
