//! Monkey keep-away: worry-level arithmetic and the monkey description
//! parser.
//!
//! Each monkey holds worry levels, applies its operation to the item it
//! inspects, and throws the item to one of two targets depending on
//! divisibility.  Worry levels are kept bounded by working modulo a
//! common multiple of all divisors.

use vstd::prelude::*;
use crate::text::split_on;
use crate::text::split_on_char;
use crate::text::split_ws;
use crate::text::to_chars;
use crate::text::tokens_of;
use crate::text::trim_range;
use crate::text::trimmed;
use crate::text::usize_val;

verus! {

/// The divisor applied to a worry level after an inspection.
pub const RELIEF_FACTOR: usize = 3;

#[derive(Debug, PartialEq, Eq, Structural, Clone, Copy)]
pub enum Operator {
    Add,
    Mult,
}

/// A worry-level update: `old + operand` or `old * operand`, where a
/// missing operand stands for `old` itself.
#[derive(Debug, PartialEq, Eq, Structural, Clone, Copy)]
pub struct Operation {
    pub operator: Operator,
    pub operand: Option<usize>,
}

/// The unbounded value of applying `op` to `old`.
pub open spec fn apply_spec(op: Operation, old: int) -> int {
    let operand = match op.operand {
        Some(v) => v as int,
        None => old,
    };
    match op.operator {
        Operator::Add => old + operand,
        Operator::Mult => old * operand,
    }
}

impl Operation {
    /// Applies the operation to a worry level.
    pub fn apply(&self, old: usize) -> (r: usize)
        requires
            apply_spec(*self, old as int) <= usize::MAX,
        ensures
            r == apply_spec(*self, old as int),
    {
        let operand = match self.operand {
            Some(val) => val,
            None => old,
        };
        match self.operator {
            Operator::Add => old + operand,
            Operator::Mult => {
                proof {
                    assert(old * operand >= 0) by (nonlinear_arith);
                }
                old * operand
            },
        }
    }
}

/// A monkey: its held worry levels, its operation, and where it throws.
#[derive(Debug)]
pub struct Monkey {
    pub id: usize,
    pub items: Vec<usize>,
    pub operation: Operation,
    pub divisor: usize,
    pub true_dst: usize,
    pub false_dst: usize,
}

impl Monkey {
    /// Hands this monkey one more item.
    pub fn add(&mut self, item: usize)
        ensures
            final(self).items@ == old(self).items@.push(item),
            final(self).id == old(self).id,
            final(self).operation == old(self).operation,
            final(self).divisor == old(self).divisor,
            final(self).true_dst == old(self).true_dst,
            final(self).false_dst == old(self).false_dst,
    {
        self.items.push(item);
    }
}

/// Where an inspected item lands and its new worry level, after relief.
pub open spec fn inspect_spec(m: Monkey, item: int) -> (int, int) {
    let worry = apply_spec(m.operation, item) / (RELIEF_FACTOR as int);
    let dst = if worry % (m.divisor as int) == 0 {
        m.true_dst as int
    } else {
        m.false_dst as int
    };
    (dst, worry)
}

/// Inspects one item: applies the monkey's operation, divides the worry
/// by the relief factor, and picks the target by divisibility.
pub fn inspect_item(monkey: &Monkey, item: usize) -> (r: (usize, usize))
    requires
        apply_spec(monkey.operation, item as int) <= usize::MAX,
        monkey.divisor != 0,
    ensures
        (r.0 as int, r.1 as int) == inspect_spec(*monkey, item as int),
{
    let worry_level = monkey.operation.apply(item) / RELIEF_FACTOR;
    let dst = if worry_level % monkey.divisor == 0 {
        monkey.true_dst
    } else {
        monkey.false_dst
    };
    (dst, worry_level)
}

/// Reasons a monkey description is rejected.
#[derive(Debug, PartialEq, Eq, Structural, Clone, Copy)]
pub enum ParseError {
    /// The text does not fit the six-line monkey format.
    BadFormat,
}

/// `l` with the leading text `p` removed, when it starts with `p`.
pub open spec fn after_prefix(l: Seq<char>, p: Seq<char>) -> Option<Seq<char>> {
    if l.len() >= p.len() && l.take(p.len() as int) == p {
        Some(l.skip(p.len() as int))
    } else {
        None
    }
}

/// The operation encoded by text such as `new = old * 19`; an operand of
/// `old` or one that is not a number stands for the old value.
pub open spec fn parse_operation_spec(s: Seq<char>) -> Result<Operation, ParseError> {
    let toks = split_ws(s);
    if toks.len() >= 5 && toks[0] == "new"@ && toks[1] == "="@ && toks[2] == "old"@ && (toks[3]
        == "+"@ || toks[3] == "*"@) {
        Ok(
            Operation {
                operator: if toks[3] == "+"@ {
                    Operator::Add
                } else {
                    Operator::Mult
                },
                operand: if toks.len() == 5 {
                    usize_val(toks[4])
                } else {
                    None
                },
            },
        )
    } else {
        Err(ParseError::BadFormat)
    }
}

/// Reads an operation line's right-hand side.
pub fn parse_operation(op_str: &str) -> (r: Result<Operation, ParseError>)
    ensures
        r == parse_operation_spec(op_str@),
{
    let cs = to_chars(op_str);
    let toks = tokens_of(&cs);
    proof {
        assert forall|j: int| 0 <= j < toks@.len() implies #[trigger] toks.deep_view()[j]
            == toks@[j]@ by {
            assert(toks.deep_view()[j] == toks@[j].deep_view());
            assert(toks@[j].deep_view() =~= toks@[j]@);
        }
    }
    if toks.len() < 5 {
        return Err(ParseError::BadFormat);
    }
    let shape_ok = crate::text::chars_eq_str(&toks[0], "new") && crate::text::chars_eq_str(
        &toks[1],
        "=",
    ) && crate::text::chars_eq_str(&toks[2], "old");
    if !shape_ok {
        return Err(ParseError::BadFormat);
    }
    let plus = crate::text::chars_eq_str(&toks[3], "+");
    let star = crate::text::chars_eq_str(&toks[3], "*");
    if !(plus || star) {
        return Err(ParseError::BadFormat);
    }
    let operand: Option<usize> = if toks.len() == 5 {
        let tok = &toks[4];
        proof {
            assert(tok@.subrange(0, tok@.len() as int) =~= tok@);
        }
        crate::text::parse_usize_range(tok, 0, tok.len())
    } else {
        None
    };
    let operator = if plus {
        Operator::Add
    } else {
        Operator::Mult
    };
    Ok(Operation { operator, operand })
}

/// The comma-separated worry levels of an items line; pieces that do not
/// parse after trimming are dropped.
pub open spec fn items_spec(pieces: Seq<Seq<char>>) -> Seq<usize>
    decreases pieces.len(),
{
    if pieces.len() == 0 {
        Seq::empty()
    } else {
        (match usize_val(trimmed(pieces[0])) {
            Some(v) => seq![v],
            None => Seq::<usize>::empty(),
        }) + items_spec(pieces.skip(1))
    }
}

/// Whether a monkey description has the six expected lines with the
/// expected leading text.
pub open spec fn monkey_shape_ok(s: Seq<char>) -> bool {
    let lines = split_on(s, '\n');
    &&& lines.len() >= 6
    &&& after_prefix(lines[0], "Monkey "@) matches Some(rest) && rest.len() >= 1 && rest.last()
        == ':' && usize_val(rest.drop_last()) is Some
    &&& after_prefix(lines[1], "  Starting items: "@) is Some
    &&& after_prefix(lines[2], "  Operation: "@) matches Some(rest) && parse_operation_spec(
        rest,
    ) is Ok
    &&& after_prefix(lines[3], "  Test: divisible by "@) matches Some(rest) && usize_val(
        rest,
    ) is Some
    &&& after_prefix(lines[4], "    If true: throw to monkey "@) matches Some(rest) && usize_val(
        rest,
    ) is Some
    &&& after_prefix(lines[5], "    If false: throw to monkey "@) matches Some(rest) && usize_val(
        rest,
    ) is Some
}

/// Reads one six-line monkey description.
pub fn parse_monkey(monkey_str: &str) -> (r: Result<Monkey, ParseError>)
    ensures
        match r {
            Ok(m) => {
                let lines = split_on(monkey_str@, '\n');
                &&& monkey_shape_ok(monkey_str@)
                &&& Some(m.id) == usize_val(
                    after_prefix(lines[0], "Monkey "@).unwrap().drop_last(),
                )
                &&& m.items@ == items_spec(
                    split_on(after_prefix(lines[1], "  Starting items: "@).unwrap(), ','),
                )
                &&& Ok::<Operation, ParseError>(m.operation) == parse_operation_spec(
                    after_prefix(lines[2], "  Operation: "@).unwrap(),
                )
                &&& Some(m.divisor) == usize_val(
                    after_prefix(lines[3], "  Test: divisible by "@).unwrap(),
                )
                &&& Some(m.true_dst) == usize_val(
                    after_prefix(lines[4], "    If true: throw to monkey "@).unwrap(),
                )
                &&& Some(m.false_dst) == usize_val(
                    after_prefix(lines[5], "    If false: throw to monkey "@).unwrap(),
                )
            },
            Err(_) => !monkey_shape_ok(monkey_str@),
        },
{
    let cs = to_chars(monkey_str);
    let lines = split_on_char(&cs, '\n');
    proof {
        assert forall|j: int| 0 <= j < lines@.len() implies #[trigger] lines.deep_view()[j]
            == lines@[j]@ by {
            assert(lines.deep_view()[j] == lines@[j].deep_view());
            assert(lines@[j].deep_view() =~= lines@[j]@);
        }
    }
    if lines.len() < 6 {
        return Err(ParseError::BadFormat);
    }
    // line 0: "Monkey <id>:"
    let id_end = match match_prefix(&lines[0], "Monkey ") {
        Some(k) => k,
        None => {
            return Err(ParseError::BadFormat);
        },
    };
    let line0 = &lines[0];
    if line0.len() == id_end || line0[line0.len() - 1] != ':' {
        proof {
            let rest = after_prefix(lines.deep_view()[0], "Monkey "@).unwrap();
            if lines.deep_view()[0].len() > id_end {
                assert(rest.last() == lines.deep_view()[0].last());
            }
        }
        return Err(ParseError::BadFormat);
    }
    proof {
        let rest = after_prefix(lines.deep_view()[0], "Monkey "@).unwrap();
        assert(rest.drop_last() =~= lines@[0]@.subrange(id_end as int, lines@[0]@.len() - 1));
        assert(rest.last() == lines@[0]@[lines@[0]@.len() - 1]);
    }
    let id = match crate::text::parse_usize_range(line0, id_end, line0.len() - 1) {
        Some(v) => v,
        None => {
            return Err(ParseError::BadFormat);
        },
    };
    // line 1: the starting items
    let items_start = match match_prefix(&lines[1], "  Starting items: ") {
        Some(k) => k,
        None => {
            return Err(ParseError::BadFormat);
        },
    };
    let line1 = &lines[1];
    let mut rest1: Vec<char> = Vec::new();
    let mut t: usize = items_start;
    while t < line1.len()
        invariant
            items_start <= t <= line1@.len(),
            rest1@ == line1@.subrange(items_start as int, t as int),
        decreases line1@.len() - t,
    {
        rest1.push(line1[t]);
        proof {
            assert(line1@.subrange(items_start as int, t + 1 as int) =~= line1@.subrange(
                items_start as int,
                t as int,
            ).push(line1@[t as int]));
        }
        t = t + 1;
    }
    proof {
        assert(rest1@ =~= after_prefix(lines.deep_view()[1], "  Starting items: "@).unwrap());
    }
    let pieces = split_on_char(&rest1, ',');
    proof {
        assert forall|j: int| 0 <= j < pieces@.len() implies #[trigger] pieces.deep_view()[j]
            == pieces@[j]@ by {
            assert(pieces.deep_view()[j] == pieces@[j].deep_view());
            assert(pieces@[j].deep_view() =~= pieces@[j]@);
        }
    }
    let ghost all_pieces = pieces.deep_view();
    let mut items: Vec<usize> = Vec::new();
    let mut pi: usize = 0;
    proof {
        assert(all_pieces.skip(0) =~= all_pieces);
        assert(Seq::<usize>::empty() + items_spec(all_pieces) =~= items_spec(all_pieces));
    }
    while pi < pieces.len()
        invariant
            pi <= pieces@.len(),
            all_pieces == pieces.deep_view(),
            pieces@.len() == all_pieces.len(),
            items@ + items_spec(all_pieces.skip(pi as int)) == items_spec(all_pieces),
        decreases pieces.len() - pi,
    {
        proof {
            assert(all_pieces.skip(pi as int)[0] == all_pieces[pi as int]);
            assert(all_pieces.skip(pi as int).skip(1) =~= all_pieces.skip(pi + 1 as int));
            assert(all_pieces[pi as int] == pieces@[pi as int].deep_view());
            assert(pieces@[pi as int].deep_view() =~= pieces@[pi as int]@);
        }
        let piece = &pieces[pi];
        let bounds = trim_range(piece);
        match crate::text::parse_usize_range(piece, bounds.0, bounds.1) {
            Some(v) => {
                items.push(v);
            },
            None => {},
        }
        pi = pi + 1;
        proof {
            assert(items@ + items_spec(all_pieces.skip(pi as int)) =~= items_spec(all_pieces));
        }
    }
    proof {
        assert(all_pieces.skip(all_pieces.len() as int) =~= Seq::<Seq<char>>::empty());
        assert(items@ + Seq::<usize>::empty() =~= items@);
    }
    // line 2: the operation
    let op_start = match match_prefix(&lines[2], "  Operation: ") {
        Some(k) => k,
        None => {
            return Err(ParseError::BadFormat);
        },
    };
    let line2 = &lines[2];
    let mut rest2: Vec<char> = Vec::new();
    t = op_start;
    while t < line2.len()
        invariant
            op_start <= t <= line2@.len(),
            rest2@ == line2@.subrange(op_start as int, t as int),
        decreases line2@.len() - t,
    {
        rest2.push(line2[t]);
        proof {
            assert(line2@.subrange(op_start as int, t + 1 as int) =~= line2@.subrange(
                op_start as int,
                t as int,
            ).push(line2@[t as int]));
        }
        t = t + 1;
    }
    proof {
        assert(rest2@ =~= after_prefix(lines.deep_view()[2], "  Operation: "@).unwrap());
    }
    let rest2_str = crate::text::string_of(&rest2);
    let operation = match parse_operation(rest2_str.as_str()) {
        Ok(op) => op,
        Err(_) => {
            return Err(ParseError::BadFormat);
        },
    };
    // line 3: the divisor
    let divisor = match num_after_prefix(&lines[3], "  Test: divisible by ") {
        Some(v) => v,
        None => {
            return Err(ParseError::BadFormat);
        },
    };
    // lines 4 and 5: the throw targets
    let true_dst = match num_after_prefix(&lines[4], "    If true: throw to monkey ") {
        Some(v) => v,
        None => {
            return Err(ParseError::BadFormat);
        },
    };
    let false_dst = match num_after_prefix(&lines[5], "    If false: throw to monkey ") {
        Some(v) => v,
        None => {
            return Err(ParseError::BadFormat);
        },
    };
    Ok(Monkey { id, items, operation, divisor, true_dst, false_dst })
}

/// The position just after `pat` when `cs` starts with it.
fn match_prefix(cs: &Vec<char>, pat: &str) -> (r: Option<usize>)
    ensures
        match r {
            Some(k) => k == pat@.len() && after_prefix(cs@, pat@) == Some(cs@.skip(k as int)),
            None => after_prefix(cs@, pat@) is None,
        },
{
    let n: usize = pat.unicode_len();
    if cs.len() < n {
        return None;
    }
    let mut i: usize = 0;
    while i < n
        invariant
            i <= n,
            n == pat@.len(),
            n <= cs@.len(),
            forall|j: int| 0 <= j < i ==> cs@[j] == pat@[j],
        decreases n - i,
    {
        if cs[i] != pat.get_char(i) {
            proof {
                assert(cs@.take(n as int)[i as int] != pat@[i as int]);
            }
            return None;
        }
        i = i + 1;
    }
    proof {
        assert(cs@.take(n as int) =~= pat@);
    }
    Some(n)
}

/// The number after `pat`, reaching to the end of the line.
fn num_after_prefix(cs: &Vec<char>, pat: &str) -> (r: Option<usize>)
    ensures
        match r {
            Some(v) => after_prefix(cs@, pat@) matches Some(rest) && usize_val(rest) == Some(v),
            None => after_prefix(cs@, pat@) is None || (after_prefix(cs@, pat@) matches Some(rest)
                && usize_val(rest) is None),
        },
{
    match match_prefix(cs, pat) {
        Some(k) => {
            proof {
                assert(cs@.skip(k as int) =~= cs@.subrange(k as int, cs@.len() as int));
            }
            crate::text::parse_usize_range(cs, k, cs.len())
        },
        None => None,
    }
}

/// The command-line options of this puzzle's program: the input path,
/// with `-` for standard input.
#[derive(Debug)]
pub struct Args {
    pub fin: String,
}

/// Relies on `num::Integer::lcm` for `usize`: it returns the least common
/// multiple of its arguments, computed as `a * (b / gcd(a, b))`.
#[verifier::external_body]
fn lcm_usize(a: usize, b: usize) -> (r: usize)
    requires
        1 <= a,
        1 <= b,
        a * b <= usize::MAX,
    ensures
        1 <= r <= a * b,
        (r as int) % (a as int) == 0,
        (r as int) % (b as int) == 0,
        forall|m: int| 1 <= m < r ==> !(#[trigger] (m % (a as int)) == 0 && m % (b as int) == 0),
{
    num::Integer::lcm(&a, &b)
}

/// The product of the divisors of the first `k` monkeys.
pub open spec fn div_prod(ms: Seq<Monkey>, k: int) -> int
    decreases k,
{
    if k <= 0 {
        1
    } else {
        div_prod(ms, k - 1) * ms[k - 1].divisor
    }
}

/// Every divisor is at least one.
pub open spec fn divisors_ok(ms: Seq<Monkey>) -> bool {
    forall|i: int| 0 <= i < ms.len() ==> (#[trigger] ms[i]).divisor >= 1
}

proof fn lemma_div_prod_pos(ms: Seq<Monkey>, k: int)
    requires
        divisors_ok(ms),
        k <= ms.len(),
    ensures
        div_prod(ms, k) >= 1,
    decreases k,
{
    if k > 0 {
        lemma_div_prod_pos(ms, k - 1);
        assert(div_prod(ms, k - 1) * ms[k - 1].divisor >= 1) by (nonlinear_arith)
            requires
                div_prod(ms, k - 1) >= 1,
                ms[k - 1].divisor >= 1,
        ;
    }
}

proof fn lemma_div_prod_mono(ms: Seq<Monkey>, k: int)
    requires
        divisors_ok(ms),
        0 <= k <= ms.len(),
    ensures
        div_prod(ms, k) <= div_prod(ms, ms.len() as int),
    decreases ms.len() - k,
{
    if k < ms.len() {
        lemma_div_prod_pos(ms, k);
        assert(div_prod(ms, k) <= div_prod(ms, k) * ms[k].divisor) by (nonlinear_arith)
            requires
                div_prod(ms, k) >= 1,
                ms[k].divisor >= 1,
        ;
        lemma_div_prod_mono(ms, k + 1);
    }
}

/// Divisibility carries through a chain: a multiple of a multiple of `a`
/// is a multiple of `a`.
proof fn lemma_divides_trans(a: int, b: int, c: int)
    requires
        a >= 1,
        b >= 1,
        b % a == 0,
        c % b == 0,
    ensures
        c % a == 0,
{
    let kb = c / b;
    let ka = b / a;
    vstd::arithmetic::div_mod::lemma_fundamental_div_mod(c, b);
    vstd::arithmetic::div_mod::lemma_fundamental_div_mod(b, a);
    assert(c == kb * (ka * a)) by (nonlinear_arith)
        requires
            c == b * kb,
            b == a * ka,
    ;
    assert(c == (kb * ka) * a) by (nonlinear_arith)
        requires
            c == kb * (ka * a),
    ;
    vstd::arithmetic::div_mod::lemma_mod_multiples_basic(kb * ka, a);
}

/// A positive value every monkey's divisor divides: the running least
/// common multiple of the divisors.  An empty troop has none.
pub fn common_modulus(monkeys: &Vec<Monkey>) -> (r: Option<usize>)
    requires
        divisors_ok(monkeys@),
        div_prod(monkeys@, monkeys@.len() as int) <= usize::MAX,
    ensures
        match r {
            Some(v) => 1 <= v <= div_prod(monkeys@, monkeys@.len() as int) && forall|i: int|
                0 <= i < monkeys@.len() ==> (v as int) % ((#[trigger] monkeys@[i]).divisor as int) == 0,
            None => monkeys@.len() == 0,
        },
{
    let ghost ms = monkeys@;
    let n = monkeys.len();
    if n == 0 {
        return None;
    }
    let mut acc: usize = monkeys[0].divisor;
    let mut i: usize = 1;
    proof {
        assert(div_prod(ms, 1) == div_prod(ms, 0) * ms[0].divisor);
        assert((acc as int) % (ms[0].divisor as int) == 0) by (nonlinear_arith)
            requires
                acc == ms[0].divisor,
                acc >= 1,
        ;
    }
    while i < n
        invariant
            1 <= i <= n,
            n == ms.len(),
            ms == monkeys@,
            divisors_ok(ms),
            div_prod(ms, ms.len() as int) <= usize::MAX,
            1 <= acc <= div_prod(ms, i as int),
            forall|j: int| 0 <= j < i ==> (acc as int) % ((#[trigger] ms[j]).divisor as int) == 0,
        decreases n - i,
    {
        let d = monkeys[i].divisor;
        proof {
            lemma_div_prod_pos(ms, i as int);
            lemma_div_prod_mono(ms, i + 1);
            assert(div_prod(ms, i + 1) == div_prod(ms, i as int) * ms[i as int].divisor);
            assert(acc * d <= div_prod(ms, i as int) * d) by (nonlinear_arith)
                requires
                    1 <= acc <= div_prod(ms, i as int),
                    d >= 1,
            ;
        }
        let ghost prev = acc;
        let next = lcm_usize(acc, d);
        proof {
            assert forall|j: int| 0 <= j < i + 1 implies (next as int) % ((#[trigger] ms[j]).divisor as int)
                == 0 by {
                if j < i {
                    lemma_divides_trans(ms[j].divisor as int, prev as int, next as int);
                }
            }
        }
        acc = next;
        i = i + 1;
    }
    Some(acc)
}

/// The items each monkey holds.
pub open spec fn items_of(ms: Seq<Monkey>) -> Seq<Seq<usize>> {
    Seq::new(ms.len(), |i: int| ms[i].items@)
}

/// Divisors are positive and every throw lands on a different monkey.
pub open spec fn targets_ok(ms: Seq<Monkey>) -> bool {
    forall|i: int|
        0 <= i < ms.len() ==> (#[trigger] ms[i]).divisor >= 1 && ms[i].true_dst < ms.len()
            && ms[i].false_dst < ms.len() && ms[i].true_dst != i && ms[i].false_dst != i
}

/// Whether `op` stays within `usize` on every worry level up to `bound`.
pub open spec fn op_fits(op: Operation, bound: int) -> bool {
    match op.operand {
        Some(c) => match op.operator {
            Operator::Add => bound + c <= usize::MAX,
            Operator::Mult => bound * c <= usize::MAX,
        },
        None => match op.operator {
            Operator::Add => bound + bound <= usize::MAX,
            Operator::Mult => bound * bound <= usize::MAX,
        },
    }
}

/// Whether every monkey's operation fits up to `bound`.
pub open spec fn ops_fit(ms: Seq<Monkey>, bound: int) -> bool {
    forall|i: int| 0 <= i < ms.len() ==> op_fits((#[trigger] ms[i]).operation, bound)
}

/// Whether every held worry level is at most `bound`.
pub open spec fn items_bounded(items: Seq<Seq<usize>>, bound: int) -> bool {
    forall|i: int, j: int|
        0 <= i < items.len() && 0 <= j < items[i].len() ==> #[trigger] items[i][j] <= bound
}

proof fn lemma_apply_fits(op: Operation, bound: int, v: int)
    requires
        op_fits(op, bound),
        0 <= v <= bound,
    ensures
        0 <= apply_spec(op, v) <= usize::MAX,
{
    match op.operand {
        Some(c) => {
            if op.operator is Mult {
                assert(0 <= v * c <= bound * c) by (nonlinear_arith)
                    requires
                        0 <= v <= bound,
                        c >= 0,
                ;
            }
        },
        None => {
            if op.operator is Mult {
                assert(0 <= v * v <= bound * bound) by (nonlinear_arith)
                    requires
                        0 <= v <= bound,
                ;
            }
        },
    }
}

/// A worry level reduced into `1 ..= modulus`, congruent modulo `modulus`.
pub open spec fn worry_managed(w: int, modulus: int) -> int {
    if w % modulus == 0 {
        modulus
    } else {
        w % modulus
    }
}

/// One throw by monkey `i`: its first item is inspected, managed, and
/// flies to the target chosen by divisibility.
pub open spec fn toss(items: Seq<Seq<usize>>, ms: Seq<Monkey>, i: int, modulus: int) -> Seq<
    Seq<usize>,
> {
    let w = apply_spec(ms[i].operation, items[i][0] as int);
    let d = if w % (ms[i].divisor as int) == 0 {
        ms[i].true_dst as int
    } else {
        ms[i].false_dst as int
    };
    items.update(i, items[i].drop_first()).update(
        d,
        items[d].push(worry_managed(w, modulus) as usize),
    )
}

/// Monkey `i` throws all its items, in order.
pub open spec fn turn(items: Seq<Seq<usize>>, ms: Seq<Monkey>, i: int, modulus: int) -> Seq<
    Seq<usize>,
>
    decreases items[i].len() via turn_decreases
{
    if 0 <= i < ms.len() && i < items.len() && ms[i].true_dst != i && ms[i].false_dst != i
        && ms[i].true_dst < items.len() && ms[i].false_dst < items.len() && items[i].len() > 0 {
        turn(toss(items, ms, i, modulus), ms, i, modulus)
    } else {
        items
    }
}

#[via_fn]
proof fn turn_decreases(items: Seq<Seq<usize>>, ms: Seq<Monkey>, i: int, modulus: int) {
    if 0 <= i < ms.len() && i < items.len() && ms[i].true_dst != i && ms[i].false_dst != i
        && ms[i].true_dst < items.len() && ms[i].false_dst < items.len() && items[i].len() > 0 {
        assert(toss(items, ms, i, modulus)[i] == items[i].drop_first());
    }
}

/// Monkeys `0 .. k` take their turns in order; each adds the number of
/// items it inspected to its count.
pub open spec fn round_upto(
    items: Seq<Seq<usize>>,
    counts: Seq<int>,
    ms: Seq<Monkey>,
    modulus: int,
    k: int,
) -> (Seq<Seq<usize>>, Seq<int>)
    decreases k,
{
    if k <= 0 {
        (items, counts)
    } else {
        let prev = round_upto(items, counts, ms, modulus, k - 1);
        (
            turn(prev.0, ms, k - 1, modulus),
            prev.1.update(k - 1, prev.1[k - 1] + prev.0[k - 1].len()),
        )
    }
}

/// `r` full rounds of keep-away.
pub open spec fn play(
    items: Seq<Seq<usize>>,
    counts: Seq<int>,
    ms: Seq<Monkey>,
    modulus: int,
    r: int,
) -> (Seq<Seq<usize>>, Seq<int>)
    decreases r,
{
    if r <= 0 {
        (items, counts)
    } else {
        let prev = play(items, counts, ms, modulus, r - 1);
        round_upto(prev.0, prev.1, ms, modulus, ms.len() as int)
    }
}

/// The total number of items held, over all monkeys.
pub open spec fn total_items(items: Seq<Seq<usize>>) -> int
    decreases items.len(),
{
    if items.len() == 0 {
        0
    } else {
        total_items(items.drop_last()) + items.last().len()
    }
}

proof fn lemma_total_update(items: Seq<Seq<usize>>, i: int, v: Seq<usize>)
    requires
        0 <= i < items.len(),
    ensures
        total_items(items.update(i, v)) == total_items(items) - items[i].len() + v.len(),
    decreases items.len(),
{
    let upd = items.update(i, v);
    if i == items.len() - 1 {
        assert(upd.drop_last() =~= items.drop_last());
    } else {
        assert(upd.drop_last() =~= items.drop_last().update(i, v));
        lemma_total_update(items.drop_last(), i, v);
    }
}

proof fn lemma_item_le_total(items: Seq<Seq<usize>>, i: int)
    requires
        0 <= i < items.len(),
    ensures
        items[i].len() <= total_items(items),
        total_items(items) >= 0,
    decreases items.len(),
{
    lemma_total_nonneg(items);
    if i == items.len() - 1 {
        lemma_total_nonneg(items.drop_last());
    } else {
        lemma_item_le_total(items.drop_last(), i);
    }
}

proof fn lemma_total_nonneg(items: Seq<Seq<usize>>)
    ensures
        total_items(items) >= 0,
    decreases items.len(),
{
    if items.len() > 0 {
        lemma_total_nonneg(items.drop_last());
    }
}

/// One toss conserves the number of items and keeps them bounded.
proof fn lemma_toss_ok(items: Seq<Seq<usize>>, ms: Seq<Monkey>, i: int, modulus: int)
    requires
        targets_ok(ms),
        modulus >= 1,
        items.len() == ms.len(),
        0 <= i < ms.len(),
        items[i].len() > 0,
        items_bounded(items, modulus),
    ensures
        toss(items, ms, i, modulus).len() == items.len(),
        total_items(toss(items, ms, i, modulus)) == total_items(items),
        items_bounded(toss(items, ms, i, modulus), modulus),
        toss(items, ms, i, modulus)[i].len() == items[i].len() - 1,
{
    let w = apply_spec(ms[i].operation, items[i][0] as int);
    let d = if w % (ms[i].divisor as int) == 0 {
        ms[i].true_dst as int
    } else {
        ms[i].false_dst as int
    };
    let mid = items.update(i, items[i].drop_first());
    let end = mid.update(d, items[d].push(worry_managed(w, modulus) as usize));
    lemma_total_update(items, i, items[i].drop_first());
    assert(mid[d] == items[d]);
    lemma_total_update(mid, d, items[d].push(worry_managed(w, modulus) as usize));
    assert(worry_managed(w, modulus) <= modulus);
    assert forall|a: int, b: int|
        0 <= a < end.len() && 0 <= b < end[a].len() implies #[trigger] end[a][b] <= modulus by {
        if a == d && b == end[d].len() - 1 {
        } else if a == i {
            assert(end[i] == items[i].drop_first());
            assert(end[i][b] == items[i][b + 1]);
        } else if a == d {
            assert(end[d][b] == items[d][b]);
        } else {
            assert(end[a] == items[a]);
        }
    }
}

/// A whole turn conserves the number of items and keeps them bounded.
proof fn lemma_turn_ok(items: Seq<Seq<usize>>, ms: Seq<Monkey>, i: int, modulus: int)
    requires
        targets_ok(ms),
        modulus >= 1,
        items.len() == ms.len(),
        0 <= i < ms.len(),
        items_bounded(items, modulus),
    ensures
        turn(items, ms, i, modulus).len() == items.len(),
        total_items(turn(items, ms, i, modulus)) == total_items(items),
        items_bounded(turn(items, ms, i, modulus), modulus),
    decreases items[i].len(),
{
    if items[i].len() > 0 {
        lemma_toss_ok(items, ms, i, modulus);
        lemma_turn_ok(toss(items, ms, i, modulus), ms, i, modulus);
    }
}

/// A partial round conserves items, keeps them bounded, and grows each
/// count by at most the total number of items.
proof fn lemma_round_ok(
    items: Seq<Seq<usize>>,
    counts: Seq<int>,
    ms: Seq<Monkey>,
    modulus: int,
    k: int,
)
    requires
        targets_ok(ms),
        modulus >= 1,
        items.len() == ms.len(),
        counts.len() == ms.len(),
        0 <= k <= ms.len(),
        items_bounded(items, modulus),
    ensures
        round_upto(items, counts, ms, modulus, k).0.len() == items.len(),
        round_upto(items, counts, ms, modulus, k).1.len() == counts.len(),
        total_items(round_upto(items, counts, ms, modulus, k).0) == total_items(items),
        items_bounded(round_upto(items, counts, ms, modulus, k).0, modulus),
        forall|j: int|
            0 <= j < counts.len() ==> counts[j] <= #[trigger] round_upto(
                items,
                counts,
                ms,
                modulus,
                k,
            ).1[j] <= counts[j] + total_items(items),
        forall|j: int|
            k <= j < counts.len() ==> #[trigger] round_upto(items, counts, ms, modulus, k).1[j]
                == counts[j],
    decreases k,
{
    lemma_total_nonneg(items);
    if k > 0 {
        lemma_round_ok(items, counts, ms, modulus, k - 1);
        let prev = round_upto(items, counts, ms, modulus, k - 1);
        lemma_turn_ok(prev.0, ms, k - 1, modulus);
        lemma_item_le_total(prev.0, k - 1);
    }
}

/// Playing rounds conserves items and grows each count by at most the
/// total number of items per round.
proof fn lemma_play_ok(
    items: Seq<Seq<usize>>,
    counts: Seq<int>,
    ms: Seq<Monkey>,
    modulus: int,
    r: int,
)
    requires
        targets_ok(ms),
        modulus >= 1,
        items.len() == ms.len(),
        counts.len() == ms.len(),
        r >= 0,
        items_bounded(items, modulus),
    ensures
        play(items, counts, ms, modulus, r).0.len() == items.len(),
        play(items, counts, ms, modulus, r).1.len() == counts.len(),
        total_items(play(items, counts, ms, modulus, r).0) == total_items(items),
        items_bounded(play(items, counts, ms, modulus, r).0, modulus),
        forall|j: int|
            0 <= j < counts.len() ==> counts[j] <= #[trigger] play(
                items,
                counts,
                ms,
                modulus,
                r,
            ).1[j] <= counts[j] + r * total_items(items),
    decreases r,
{
    lemma_total_nonneg(items);
    if r > 0 {
        lemma_play_ok(items, counts, ms, modulus, r - 1);
        let prev = play(items, counts, ms, modulus, r - 1);
        lemma_round_ok(prev.0, prev.1, ms, modulus, ms.len() as int);
        assert forall|j: int|
            0 <= j < counts.len() implies counts[j] <= #[trigger] play(
            items,
            counts,
            ms,
            modulus,
            r,
        ).1[j] <= counts[j] + r * total_items(items) by {
            assert((r - 1) * total_items(items) + total_items(items) == r * total_items(items))
                by (nonlinear_arith);
        }
    }
}

/// Plays `n_rounds` full rounds of keep-away without relief, managing
/// worry levels modulo `modulus`, and returns how many items each monkey
/// inspected.
pub fn play_rounds(monkeys: &mut Vec<Monkey>, modulus: usize, n_rounds: usize) -> (counts: Vec<
    usize,
>)
    requires
        targets_ok(old(monkeys)@),
        modulus >= 1,
        ops_fit(old(monkeys)@, modulus as int),
        items_bounded(items_of(old(monkeys)@), modulus as int),
        n_rounds * total_items(items_of(old(monkeys)@)) <= usize::MAX,
    ensures
        final(monkeys)@.len() == old(monkeys)@.len(),
        ({
            let end = play(
                items_of(old(monkeys)@),
                Seq::new(old(monkeys)@.len(), |i: int| 0int),
                old(monkeys)@,
                modulus as int,
                n_rounds as int,
            );
            items_of(final(monkeys)@) == end.0 && counts@.map_values(|c: usize| c as int) == end.1
        }),
        same_shape(final(monkeys)@, old(monkeys)@),
{
    let ghost ms = old(monkeys)@;
    let ghost items0 = items_of(ms);
    let ghost zeros = Seq::new(ms.len(), |i: int| 0int);
    let ghost tt = total_items(items0);
    let n = monkeys.len();
    let mut counts: Vec<usize> = Vec::new();
    let mut z: usize = 0;
    while z < n
        invariant
            z <= n,
            counts@.len() == z,
            forall|j: int| 0 <= j < z ==> #[trigger] counts@[j] == 0,
        decreases n - z,
    {
        counts.push(0);
        z = z + 1;
    }
    proof {
        assert(counts@.map_values(|c: usize| c as int) =~= zeros);
        lemma_total_nonneg(items0);
    }
    let mut round: usize = 0;
    while round < n_rounds
        invariant
            round <= n_rounds,
            n == ms.len(),
            monkeys@.len() == n,
            counts@.len() == n,
            ms == old(monkeys)@,
            items0 == items_of(ms),
            zeros == Seq::new(ms.len(), |i: int| 0int),
            tt == total_items(items0),
            tt >= 0,
            targets_ok(ms),
            modulus >= 1,
            ops_fit(ms, modulus as int),
            n_rounds * tt <= usize::MAX,
            same_shape(monkeys@, ms),
            items_bounded(items_of(monkeys@), modulus as int),
            total_items(items_of(monkeys@)) == tt,
            items_of(monkeys@) == play(items0, zeros, ms, modulus as int, round as int).0,
            counts@.map_values(|c: usize| c as int) == play(
                items0,
                zeros,
                ms,
                modulus as int,
                round as int,
            ).1,
            forall|j: int| 0 <= j < n ==> #[trigger] counts@[j] <= round * tt,
        decreases n_rounds - round,
    {
        let ghost round_items = items_of(monkeys@);
        let ghost round_counts = counts@.map_values(|c: usize| c as int);
        let mut i: usize = 0;
        proof {
            assert(round * tt <= n_rounds * tt) by (nonlinear_arith)
                requires
                    0 <= round < n_rounds,
                    tt >= 0,
            ;
            assert((round + 1) * tt == round * tt + tt) by (nonlinear_arith);
            assert((round + 1) * tt <= n_rounds * tt) by (nonlinear_arith)
                requires
                    0 <= round + 1 <= n_rounds,
                    tt >= 0,
            ;
        }
        while i < n
            invariant
                i <= n,
                n == ms.len(),
                monkeys@.len() == n,
                counts@.len() == n,
                ms == old(monkeys)@,
                targets_ok(ms),
                modulus >= 1,
                ops_fit(ms, modulus as int),
                tt >= 0,
                round * tt + tt <= usize::MAX,
                same_shape(monkeys@, ms),
                items_bounded(items_of(monkeys@), modulus as int),
                total_items(items_of(monkeys@)) == tt,
                round_items.len() == n,
                round_counts.len() == n,
                items_of(monkeys@) == round_upto(
                    round_items,
                    round_counts,
                    ms,
                    modulus as int,
                    i as int,
                ).0,
                counts@.map_values(|c: usize| c as int) == round_upto(
                    round_items,
                    round_counts,
                    ms,
                    modulus as int,
                    i as int,
                ).1,
                forall|j: int|
                    0 <= j < n ==> #[trigger] counts@[j] <= round * tt + if j < i {
                        tt as int
                    } else {
                        0int
                    },
            decreases n - i,
        {
            let ghost turn_items = items_of(monkeys@);
            let ghost turn_counts = counts@.map_values(|c: usize| c as int);
            let t = monkeys[i].items.len();
            proof {
                assert(turn_items[i as int] == monkeys@[i as int].items@);
                lemma_item_le_total(turn_items, i as int);
            }
            let c0 = counts[i];
            counts[i] = c0 + t;
            proof {
                assert(counts@.map_values(|c: usize| c as int) =~= turn_counts.update(
                    i as int,
                    turn_counts[i as int] + turn_items[i as int].len(),
                ));
            }
            while monkeys[i].items.len() > 0
                invariant
                    i < n,
                    n == ms.len(),
                    monkeys@.len() == n,
                    ms == old(monkeys)@,
                    targets_ok(ms),
                    modulus >= 1,
                    ops_fit(ms, modulus as int),
                    same_shape(monkeys@, ms),
                    items_bounded(items_of(monkeys@), modulus as int),
                    total_items(items_of(monkeys@)) == tt,
                    turn(items_of(monkeys@), ms, i as int, modulus as int) == turn(
                        turn_items,
                        ms,
                        i as int,
                        modulus as int,
                    ),
                decreases monkeys@[i as int].items@.len(),
            {
                let ghost pre = items_of(monkeys@);
                let item = monkeys[i].items.remove(0);
                let op = monkeys[i].operation;
                let divisor = monkeys[i].divisor;
                let td = monkeys[i].true_dst;
                let fd = monkeys[i].false_dst;
                proof {
                    assert(pre[i as int][0] == item);
                    assert(pre[i as int][0] <= modulus);
                    lemma_apply_fits(op, modulus as int, item as int);
                }
                let w = op.apply(item);
                let m: usize = if w % modulus == 0 {
                    modulus
                } else {
                    w % modulus
                };
                let d: usize = if w % divisor == 0 {
                    td
                } else {
                    fd
                };
                monkeys[d].items.push(m);
                proof {
                    assert(items_of(monkeys@) =~~= toss(pre, ms, i as int, modulus as int));
                    lemma_toss_ok(pre, ms, i as int, modulus as int);
                }
            }
            proof {
                let ghost after = items_of(monkeys@);
                assert(monkeys@[i as int].items@.len() == 0);
                assert(after[i as int].len() == 0);
                assert(turn(after, ms, i as int, modulus as int) == after);
                assert(after == turn(turn_items, ms, i as int, modulus as int));
                assert(round_upto(round_items, round_counts, ms, modulus as int, i + 1 as int).0
                    == after);
            }
            i = i + 1;
        }
        round = round + 1;
        proof {
            assert(play(items0, zeros, ms, modulus as int, round as int) == round_upto(
                round_items,
                round_counts,
                ms,
                modulus as int,
                ms.len() as int,
            ));
        }
    }
    counts
}

/// Whether two monkey lists agree on everything except the held items.
pub open spec fn same_shape(a: Seq<Monkey>, b: Seq<Monkey>) -> bool {
    a.len() == b.len() && forall|i: int|
        0 <= i < a.len() ==> (#[trigger] a[i]).id == b[i].id && a[i].operation == b[i].operation
            && a[i].divisor == b[i].divisor && a[i].true_dst == b[i].true_dst && a[i].false_dst
            == b[i].false_dst
}

} // verus!
