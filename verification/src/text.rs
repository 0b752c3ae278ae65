//! Character-level parsing helpers shared by the puzzle modules.
//!
//! Every parser in this crate works on a vector of characters obtained from
//! the input text; the specification functions here define exactly how lines
//! are cut into tokens and how numeric tokens are read.

use vstd::prelude::*;

verus! {

/// The whitespace characters recognised by this crate's tokenisers.
pub open spec fn is_space(c: char) -> bool {
    c == ' ' || c == '\t' || c == '\n' || c == '\r'
}

/// The decimal digits.
pub open spec fn is_digit(c: char) -> bool {
    48 <= c as u32 <= 57
}

/// Numeric value of a decimal digit.
pub open spec fn digit_val(c: char) -> int {
    c as u32 - 48
}

/// Whether every character of `s` is a decimal digit.
pub open spec fn all_digits(s: Seq<char>) -> bool {
    forall|i: int| 0 <= i < s.len() ==> is_digit(#[trigger] s[i])
}

/// Value of a sequence of decimal digits, most significant first.
pub open spec fn digits_val(s: Seq<char>) -> int
    decreases s.len(),
{
    if s.len() == 0 {
        0
    } else {
        10 * digits_val(s.drop_last()) + digit_val(s.last())
    }
}

/// Value of an integer token: an optional sign followed by one or more
/// digits, as `str::parse` accepts for the built-in integer types.
pub open spec fn int_val(s: Seq<char>) -> Option<int> {
    if s.len() >= 1 && (s[0] == '+' || s[0] == '-') {
        if s.len() >= 2 && all_digits(s.skip(1)) {
            if s[0] == '-' {
                Some(-digits_val(s.skip(1)))
            } else {
                Some(digits_val(s.skip(1)))
            }
        } else {
            None
        }
    } else if s.len() >= 1 && all_digits(s) {
        Some(digits_val(s))
    } else {
        None
    }
}

/// Value of an unsigned integer token: an optional `+` followed by one or
/// more digits; a `-` sign is never accepted, as for the unsigned types of
/// `str::parse`.
pub open spec fn uint_val(s: Seq<char>) -> Option<int> {
    if s.len() >= 1 && s[0] == '+' {
        if s.len() >= 2 && all_digits(s.skip(1)) {
            Some(digits_val(s.skip(1)))
        } else {
            None
        }
    } else if s.len() >= 1 && all_digits(s) {
        Some(digits_val(s))
    } else {
        None
    }
}

/// `uint_val` restricted to values that fit in `u32`.
pub open spec fn u32_val(s: Seq<char>) -> Option<u32> {
    match uint_val(s) {
        Some(v) => if v <= u32::MAX {
            Some(v as u32)
        } else {
            None
        },
        None => None,
    }
}

/// `uint_val` restricted to values that fit in `usize`.
pub open spec fn usize_val(s: Seq<char>) -> Option<usize> {
    match uint_val(s) {
        Some(v) => if v <= usize::MAX {
            Some(v as usize)
        } else {
            None
        },
        None => None,
    }
}

/// `int_val` restricted to values that fit in `i32`.
pub open spec fn i32_val(s: Seq<char>) -> Option<i32> {
    match int_val(s) {
        Some(v) => if i32::MIN <= v <= i32::MAX {
            Some(v as i32)
        } else {
            None
        },
        None => None,
    }
}

/// `int_val` restricted to values that fit in `isize`.
pub open spec fn isize_val(s: Seq<char>) -> Option<isize> {
    match int_val(s) {
        Some(v) => if isize::MIN <= v <= isize::MAX {
            Some(v as isize)
        } else {
            None
        },
        None => None,
    }
}

/// `s` cut at maximal runs of non-space characters; space characters are
/// dropped and the tokens keep their order.
pub open spec fn split_ws(s: Seq<char>) -> Seq<Seq<char>>
    decreases s.len(),
{
    if s.len() == 0 {
        Seq::empty()
    } else if is_space(s[0]) {
        split_ws(s.skip(1))
    } else {
        let rest = split_ws(s.skip(1));
        if s.len() > 1 && !is_space(s[1]) {
            rest.update(0, seq![s[0]] + rest[0])
        } else {
            seq![seq![s[0]]] + rest
        }
    }
}

/// `s` cut at every occurrence of `sep`, keeping empty pieces, as
/// `str::split` does for a single-character pattern.
pub open spec fn split_on(s: Seq<char>, sep: char) -> Seq<Seq<char>>
    decreases s.len(),
{
    if s.len() == 0 {
        seq![Seq::empty()]
    } else {
        let rest = split_on(s.skip(1), sep);
        if s[0] == sep {
            seq![Seq::<char>::empty()] + rest
        } else {
            rest.update(0, seq![s[0]] + rest[0])
        }
    }
}

/// A sequence that starts with a non-space character has a first token.
pub proof fn lemma_split_ws_head(s: Seq<char>)
    requires
        s.len() > 0,
        !is_space(s[0]),
    ensures
        split_ws(s).len() >= 1,
    decreases s.len(),
{
    if s.len() > 1 && !is_space(s[1]) {
        lemma_split_ws_head(s.skip(1));
    }
}

/// `s` without its leading space characters.
pub open spec fn ltrim(s: Seq<char>) -> Seq<char>
    decreases s.len(),
{
    if s.len() > 0 && is_space(s[0]) {
        ltrim(s.skip(1))
    } else {
        s
    }
}

/// `s` without its trailing space characters.
pub open spec fn rtrim(s: Seq<char>) -> Seq<char>
    decreases s.len(),
{
    if s.len() > 0 && is_space(s.last()) {
        rtrim(s.drop_last())
    } else {
        s
    }
}

/// `s` without leading and trailing space characters.
pub open spec fn trimmed(s: Seq<char>) -> Seq<char> {
    rtrim(ltrim(s))
}

proof fn lemma_ltrim_skip(s: Seq<char>, k: int)
    requires
        0 <= k <= s.len(),
        forall|j: int| 0 <= j < k ==> is_space(#[trigger] s[j]),
        k == s.len() || !is_space(s[k]),
    ensures
        ltrim(s) == s.skip(k),
    decreases k,
{
    if k == 0 {
        assert(s.skip(0) =~= s);
    } else {
        assert(is_space(s[0]));
        lemma_ltrim_skip(s.skip(1), k - 1);
        assert(s.skip(1).skip(k - 1) =~= s.skip(k));
    }
}

proof fn lemma_rtrim_take(s: Seq<char>, k: int)
    requires
        0 <= k <= s.len(),
        forall|j: int| k <= j < s.len() ==> is_space(#[trigger] s[j]),
        k == 0 || !is_space(s[k - 1]),
    ensures
        rtrim(s) == s.take(k),
    decreases s.len(),
{
    if k == s.len() {
        assert(s.take(k) =~= s);
    } else {
        assert(is_space(s.last()));
        lemma_rtrim_take(s.drop_last(), k);
        assert(s.drop_last().take(k) =~= s.take(k));
    }
}

/// The bounds of `cs` with leading and trailing spaces removed.
pub fn trim_range(cs: &Vec<char>) -> (r: (usize, usize))
    ensures
        r.0 <= r.1 <= cs@.len(),
        cs@.subrange(r.0 as int, r.1 as int) == trimmed(cs@),
{
    let n = cs.len();
    let mut lo: usize = 0;
    while lo < n && is_space_exec(cs[lo])
        invariant
            lo <= n,
            n == cs@.len(),
            forall|j: int| 0 <= j < lo ==> is_space(#[trigger] cs@[j]),
        decreases n - lo,
    {
        lo = lo + 1;
    }
    if lo == n {
        proof {
            lemma_ltrim_skip(cs@, n as int);
            assert(cs@.skip(n as int) =~= Seq::<char>::empty());
            assert(cs@.subrange(n as int, n as int) =~= Seq::<char>::empty());
        }
        return (n, n);
    }
    let mut hi: usize = n;
    while hi > lo + 1 && is_space_exec(cs[hi - 1])
        invariant
            lo < hi <= n,
            n == cs@.len(),
            forall|j: int| 0 <= j < lo ==> is_space(#[trigger] cs@[j]),
            !is_space(cs@[lo as int]),
            forall|j: int| hi <= j < n ==> is_space(#[trigger] cs@[j]),
        decreases hi,
    {
        hi = hi - 1;
    }
    proof {
        lemma_ltrim_skip(cs@, lo as int);
        lemma_rtrim_take(cs@.skip(lo as int), hi - lo as int);
        assert(cs@.skip(lo as int).take(hi - lo as int) =~= cs@.subrange(lo as int, hi as int));
    }
    (lo, hi)
}

/// Appends one character to a string.
///
/// Relies on `String::push`, which appends exactly the given character.
#[verifier::external_body]
fn push_char(s: &mut String, c: char)
    ensures
        final(s)@ == old(s)@.push(c),
{
    s.push(c);
}

/// A `String` holding exactly the characters of `cs`.
pub fn string_of(cs: &Vec<char>) -> (r: String)
    ensures
        r@ == cs@,
{
    let mut r = String::new();
    let mut i: usize = 0;
    while i < cs.len()
        invariant
            i <= cs.len(),
            r@ == cs@.take(i as int),
        decreases cs.len() - i,
    {
        push_char(&mut r, cs[i]);
        proof {
            assert(cs@.take(i + 1 as int) =~= cs@.take(i as int).push(cs@[i as int]));
        }
        i = i + 1;
    }
    proof {
        assert(cs@.take(cs@.len() as int) =~= cs@);
    }
    r
}

/// The characters of `s`, in order.
pub fn to_chars(s: &str) -> (r: Vec<char>)
    ensures
        r@ == s@,
{
    let n: usize = s.unicode_len();
    let mut r: Vec<char> = Vec::new();
    let mut i: usize = 0;
    while i < n
        invariant
            i <= n,
            n == s@.len(),
            r@ == s@.take(i as int),
        decreases n - i,
    {
        let c = s.get_char(i);
        r.push(c);
        proof {
            assert(s@.take(i + 1 as int) =~= s@.take(i as int).push(s@[i as int]));
        }
        i = i + 1;
    }
    proof {
        assert(s@.take(n as int) =~= s@);
    }
    r
}

/// Whether the characters of `cs` spell exactly `pat`.
pub fn chars_eq_str(cs: &Vec<char>, pat: &str) -> (r: bool)
    ensures
        r == (cs@ == pat@),
{
    let n: usize = pat.unicode_len();
    if cs.len() != n {
        return false;
    }
    let mut i: usize = 0;
    while i < n
        invariant
            i <= n,
            n == pat@.len(),
            cs@.len() == n,
            forall|j: int| 0 <= j < i ==> cs@[j] == pat@[j],
        decreases n - i,
    {
        if cs[i] != pat.get_char(i) {
            return false;
        }
        i = i + 1;
    }
    proof {
        assert(cs@ =~= pat@);
    }
    true
}

/// `s` cut at maximal runs of non-space characters, as owned vectors.
pub fn tokens_of(cs: &Vec<char>) -> (r: Vec<Vec<char>>)
    ensures
        r.deep_view() == split_ws(cs@),
{
    let mut r: Vec<Vec<char>> = Vec::new();
    let mut i: usize = cs.len();
    while i > 0
        invariant
            i <= cs.len(),
            r.deep_view() == split_ws(cs@.skip(i as int)),
        decreases i,
    {
        i = i - 1;
        let c = cs[i];
        let ghost pre = r.deep_view();
        proof {
            assert(cs@.skip(i as int).skip(1) =~= cs@.skip(i + 1 as int));
            assert(cs@.skip(i as int)[0] == cs@[i as int]);
        }
        if c == ' ' || c == '\t' || c == '\n' || c == '\r' {
            // a space: the suffix tokens are unchanged
        } else if i + 1 < cs.len() && !is_space_exec(cs[i + 1]) {
            // extends the token that starts right after it
            proof {
                assert(cs@.skip(i as int).len() > 1);
                assert(cs@.skip(i as int)[1] == cs@[i + 1 as int]);
                assert(cs@.skip(i + 1 as int)[0] == cs@[i + 1 as int]);
                lemma_split_ws_head(cs@.skip(i + 1 as int));
            }
            let mut first = r.remove(0);
            first.insert(0, c);
            r.insert(0, first);
            proof {
                assert(r.deep_view() =~~= pre.update(0, seq![c] + pre[0]));
            }
        } else {
            let mut first: Vec<char> = Vec::new();
            first.push(c);
            r.insert(0, first);
            proof {
                assert(r.deep_view() =~~= seq![seq![c]] + pre);
            }
        }
    }
    proof {
        assert(cs@.skip(0) =~= cs@);
    }
    r
}

/// Whether `c` is one of the whitespace characters of `is_space`.
pub fn is_space_exec(c: char) -> (r: bool)
    ensures
        r == is_space(c),
{
    c == ' ' || c == '\t' || c == '\n' || c == '\r'
}

/// `s` cut at every occurrence of `sep`, as owned vectors.
pub fn split_on_char(cs: &Vec<char>, sep: char) -> (r: Vec<Vec<char>>)
    ensures
        r.deep_view() == split_on(cs@, sep),
        r.len() >= 1,
{
    let mut r: Vec<Vec<char>> = Vec::new();
    r.push(Vec::new());
    proof {
        assert(r.deep_view() =~~= split_on(cs@.skip(cs@.len() as int), sep));
    }
    let mut i: usize = cs.len();
    while i > 0
        invariant
            i <= cs.len(),
            r.len() >= 1,
            r.deep_view() == split_on(cs@.skip(i as int), sep),
        decreases i,
    {
        i = i - 1;
        let c = cs[i];
        let ghost pre = r.deep_view();
        proof {
            assert(cs@.skip(i as int).skip(1) =~= cs@.skip(i + 1 as int));
            assert(cs@.skip(i as int)[0] == cs@[i as int]);
        }
        if c == sep {
            r.insert(0, Vec::new());
            proof {
                assert(r.deep_view() =~~= seq![Seq::<char>::empty()] + pre);
            }
        } else {
            let mut first = r.remove(0);
            first.insert(0, c);
            r.insert(0, first);
            proof {
                assert(r.deep_view() =~~= pre.update(0, seq![c] + pre[0]));
            }
        }
    }
    proof {
        assert(cs@.skip(0) =~= cs@);
    }
    r
}

/// Digit sequences have a non-negative value.
pub proof fn lemma_digits_val_nonneg(s: Seq<char>)
    requires
        all_digits(s),
    ensures
        digits_val(s) >= 0,
    decreases s.len(),
{
    if s.len() > 0 {
        lemma_digits_val_nonneg(s.drop_last());
    }
}

/// Reads the digits `cs[from..to]` as a value, up to `u64::MAX`.
fn parse_digits(cs: &Vec<char>, from: usize, to: usize) -> (r: Option<u64>)
    requires
        from <= to <= cs.len(),
    ensures
        match r {
            Some(v) => to - from >= 1 && all_digits(cs@.subrange(from as int, to as int))
                && v == digits_val(cs@.subrange(from as int, to as int)),
            None => to == from || !all_digits(cs@.subrange(from as int, to as int))
                || digits_val(cs@.subrange(from as int, to as int)) > u64::MAX,
        },
{
    if from == to {
        return None;
    }
    let ghost whole = cs@.subrange(from as int, to as int);
    let mut acc: u64 = 0;
    let mut over: bool = false;
    let mut i: usize = from;
    while i < to
        invariant
            from <= i <= to <= cs.len(),
            whole == cs@.subrange(from as int, to as int),
            all_digits(cs@.subrange(from as int, i as int)),
            !over ==> acc == digits_val(cs@.subrange(from as int, i as int)),
            over ==> digits_val(cs@.subrange(from as int, i as int)) > u64::MAX,
        decreases to - i,
    {
        let c = cs[i];
        let u: u32 = c as u32;
        if !(48 <= u && u <= 57) {
            proof {
                assert(cs@.subrange(from as int, to as int)[i - from] == cs@[i as int]);
            }
            return None;
        }
        let d: u64 = (u - 48) as u64;
        let ghost prev = cs@.subrange(from as int, i as int);
        let ghost cur = cs@.subrange(from as int, i + 1 as int);
        proof {
            assert(cur.drop_last() =~= prev);
            assert(cur.last() == cs@[i as int]);
            lemma_digits_val_nonneg(prev);
        }
        if !over {
            if acc <= (u64::MAX - d) / 10 {
                acc = acc * 10 + d;
            } else {
                over = true;
                proof {
                    assert(digits_val(cur) == 10 * digits_val(prev) + digit_val(cs@[i as int]));
                    assert(digits_val(cur) > u64::MAX) by (nonlinear_arith)
                        requires
                            digits_val(cur) == 10 * digits_val(prev) + digit_val(cs@[i as int]),
                            digits_val(prev) == acc,
                            acc > (u64::MAX - digit_val(cs@[i as int])) / 10,
                            0 <= digit_val(cs@[i as int]) <= 9,
                            acc >= 0,
                    ;
                }
            }
        } else {
            proof {
                lemma_digits_val_nonneg(prev);
                assert(digits_val(cur) == 10 * digits_val(prev) + digit_val(cs@[i as int]));
            }
        }
        i = i + 1;
    }
    if over {
        None
    } else {
        Some(acc)
    }
}

/// Reads `cs[from..to]` as `str::parse::<usize>` would: an optional sign,
/// digits, and a range check.
pub fn parse_usize_range(cs: &Vec<char>, from: usize, to: usize) -> (r: Option<usize>)
    requires
        from <= to <= cs.len(),
    ensures
        r == usize_val(cs@.subrange(from as int, to as int)),
{
    let ghost seg = cs@.subrange(from as int, to as int);
    if from == to {
        return None;
    }
    let c0 = cs[from];
    let start: usize = if c0 == '+' {
        from + 1
    } else {
        from
    };
    proof {
        assert(seg[0] == cs@[from as int]);
        if c0 == '+' {
            assert(seg.skip(1) =~= cs@.subrange(from + 1 as int, to as int));
        } else {
            assert(seg =~= cs@.subrange(from as int, to as int));
        }
        if uint_val(seg) is Some {
            lemma_digits_val_nonneg(cs@.subrange(start as int, to as int));
        }
    }
    match parse_digits(cs, start, to) {
        Some(v) => {
            if v <= usize::MAX as u64 {
                Some(v as usize)
            } else {
                None
            }
        },
        None => None,
    }
}

/// Reads `cs[from..to]` as `str::parse::<u32>` would.
pub fn parse_u32_range(cs: &Vec<char>, from: usize, to: usize) -> (r: Option<u32>)
    requires
        from <= to <= cs.len(),
    ensures
        r == u32_val(cs@.subrange(from as int, to as int)),
{
    let ghost seg = cs@.subrange(from as int, to as int);
    if from == to {
        return None;
    }
    let c0 = cs[from];
    let start: usize = if c0 == '+' {
        from + 1
    } else {
        from
    };
    proof {
        assert(seg[0] == cs@[from as int]);
        if c0 == '+' {
            assert(seg.skip(1) =~= cs@.subrange(from + 1 as int, to as int));
        } else {
            assert(seg =~= cs@.subrange(from as int, to as int));
        }
        if uint_val(seg) is Some {
            lemma_digits_val_nonneg(cs@.subrange(start as int, to as int));
        }
    }
    match parse_digits(cs, start, to) {
        Some(v) => {
            if v <= u32::MAX as u64 {
                Some(v as u32)
            } else {
                None
            }
        },
        None => None,
    }
}

/// Reads the magnitude `cs[from..to]` and applies sign and range checks for
/// a signed type with minimum `-bound - 1` and maximum `bound`.
fn parse_signed_core(cs: &Vec<char>, from: usize, to: usize, neg: bool, bound: u64) -> (r: Option<
    u64,
>)
    requires
        from <= to <= cs.len(),
        bound < u64::MAX,
    ensures
        match r {
            Some(v) => to - from >= 1 && all_digits(cs@.subrange(from as int, to as int))
                && v == digits_val(cs@.subrange(from as int, to as int)) && (if neg {
                v <= bound + 1
            } else {
                v <= bound
            }),
            None => to == from || !all_digits(cs@.subrange(from as int, to as int))
                || digits_val(cs@.subrange(from as int, to as int)) > (if neg {
                bound + 1
            } else {
                bound as int
            }),
        },
{
    proof {
        if to - from >= 1 && all_digits(cs@.subrange(from as int, to as int)) {
            lemma_digits_val_nonneg(cs@.subrange(from as int, to as int));
        }
    }
    match parse_digits(cs, from, to) {
        Some(v) => {
            let lim: u64 = if neg {
                bound + 1
            } else {
                bound
            };
            if v <= lim {
                Some(v)
            } else {
                None
            }
        },
        None => None,
    }
}

/// Reads `cs[from..to]` as `str::parse::<i32>` would.
pub fn parse_i32_range(cs: &Vec<char>, from: usize, to: usize) -> (r: Option<i32>)
    requires
        from <= to <= cs.len(),
    ensures
        r == i32_val(cs@.subrange(from as int, to as int)),
{
    let ghost seg = cs@.subrange(from as int, to as int);
    if from == to {
        return None;
    }
    let c0 = cs[from];
    let signed: bool = c0 == '+' || c0 == '-';
    let neg: bool = c0 == '-';
    let start: usize = if signed {
        from + 1
    } else {
        from
    };
    proof {
        assert(seg[0] == cs@[from as int]);
        if signed {
            assert(seg.skip(1) =~= cs@.subrange(from + 1 as int, to as int));
        } else {
            assert(seg =~= cs@.subrange(from as int, to as int));
        }
    }
    match parse_signed_core(cs, start, to, neg, i32::MAX as u64) {
        Some(v) => {
            if neg {
                Some((-(v as i64)) as i32)
            } else {
                Some(v as i32)
            }
        },
        None => None,
    }
}

/// Reads `cs[from..to]` as `str::parse::<isize>` would.
pub fn parse_isize_range(cs: &Vec<char>, from: usize, to: usize) -> (r: Option<isize>)
    requires
        from <= to <= cs.len(),
    ensures
        r == isize_val(cs@.subrange(from as int, to as int)),
{
    let ghost seg = cs@.subrange(from as int, to as int);
    if from == to {
        return None;
    }
    let c0 = cs[from];
    let signed: bool = c0 == '+' || c0 == '-';
    let neg: bool = c0 == '-';
    let start: usize = if signed {
        from + 1
    } else {
        from
    };
    proof {
        assert(seg[0] == cs@[from as int]);
        if signed {
            assert(seg.skip(1) =~= cs@.subrange(from + 1 as int, to as int));
        } else {
            assert(seg =~= cs@.subrange(from as int, to as int));
        }
    }
    match parse_signed_core(cs, start, to, neg, i64::MAX as u64) {
        Some(v) => {
            let w: i128 = if neg {
                -(v as i128)
            } else {
                v as i128
            };
            if isize::MIN as i128 <= w && w <= isize::MAX as i128 {
                Some(w as isize)
            } else {
                None
            }
        },
        None => None,
    }
}

} // verus!
