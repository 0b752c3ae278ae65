//! A one-register processor driving a small character display.
//!
//! `noop` takes one cycle; `addx v` takes two cycles and adds `v` to the
//! register afterwards.  During chosen cycles the product of cycle number
//! and register value is accumulated, and every cycle lights or clears one
//! cell of the display depending on the register's sprite position.

use vstd::prelude::*;
use crate::text::isize_val;
use crate::text::split_ws;
use crate::text::to_chars;
use crate::text::tokens_of;
use crate::text::string_of;

verus! {

#[derive(Debug, PartialEq, Eq, Structural, Clone, Copy)]
pub enum Instruction {
    NoOp,
    AddX(isize),
}

/// Reasons an instruction line is rejected.
#[derive(Debug, PartialEq, Eq, Structural, Clone, Copy)]
pub enum ParseError {
    /// The first token names no instruction.
    UnknownOp,
    /// `addx` lacks an integer operand.
    BadOperand,
}

/// The instruction encoded by one line: `noop`, or `addx` followed by an
/// integer operand.
pub open spec fn parse_line_spec(s: Seq<char>) -> Result<Instruction, ParseError> {
    let toks = split_ws(s);
    if toks.len() >= 1 && toks[0] == seq!['n', 'o', 'o', 'p'] {
        Ok(Instruction::NoOp)
    } else if toks.len() >= 1 && toks[0] == seq!['a', 'd', 'd', 'x'] {
        if toks.len() >= 2 {
            match isize_val(toks[1]) {
                Some(v) => Ok(Instruction::AddX(v)),
                None => Err(ParseError::BadOperand),
            }
        } else {
            Err(ParseError::BadOperand)
        }
    } else {
        Err(ParseError::UnknownOp)
    }
}

/// Reads one instruction line.
pub fn parse_line(line: String) -> (r: Result<Instruction, ParseError>)
    ensures
        r == parse_line_spec(line@),
{
    let cs = to_chars(line.as_str());
    let toks = tokens_of(&cs);
    proof {
        reveal_strlit("noop");
        reveal_strlit("addx");
        assert("noop"@ =~= seq!['n', 'o', 'o', 'p']);
        assert("addx"@ =~= seq!['a', 'd', 'd', 'x']);
    }
    if toks.len() == 0 {
        return Err(ParseError::UnknownOp);
    }
    proof {
        assert(toks.deep_view()[0] == toks@[0].deep_view());
        assert(toks@[0].deep_view() =~= toks@[0]@);
        if toks@.len() >= 2 {
            assert(toks.deep_view()[1] == toks@[1].deep_view());
            assert(toks@[1].deep_view() =~= toks@[1]@);
        }
    }
    if crate::text::chars_eq_str(&toks[0], "noop") {
        Ok(Instruction::NoOp)
    } else if crate::text::chars_eq_str(&toks[0], "addx") {
        if toks.len() >= 2 {
            let tok = &toks[1];
            proof {
                assert(tok@.subrange(0, tok@.len() as int) =~= tok@);
            }
            match crate::text::parse_isize_range(tok, 0, tok.len()) {
                Some(v) => Ok(Instruction::AddX(v)),
                None => Err(ParseError::BadOperand),
            }
        } else {
            Err(ParseError::BadOperand)
        }
    } else {
        Err(ParseError::UnknownOp)
    }
}

/// The pixel drawn at column `x` when the sprite is centred on `sprite`.
pub open spec fn pixel(sprite: int, x: int) -> char {
    if crate::axis_gap(sprite, x) <= 1 {
        '#'
    } else {
        '.'
    }
}

/// The display after drawing the pixel of `cycle`.
pub open spec fn draw_spec(disp: Seq<Seq<char>>, cycle: int, sprite: int) -> Seq<Seq<char>> {
    let x = (cycle - 1) % 40;
    let y = (cycle - 1) / 40;
    disp.update(y, disp[y].update(x, pixel(sprite, x)))
}

/// The display after drawing the pixels of cycles `from + 1` ..= `from + k`.
pub open spec fn draws(disp: Seq<Seq<char>>, from: int, k: int, sprite: int) -> Seq<Seq<char>>
    decreases k,
{
    if k <= 0 {
        disp
    } else {
        draw_spec(draws(disp, from, k - 1, sprite), from + k, sprite)
    }
}

/// Whether `c` is one of the chosen cycles.
pub open spec fn is_interesting(cycles: Seq<usize>, c: int) -> bool {
    exists|j: int| 0 <= j < cycles.len() && #[trigger] cycles[j] == c
}

/// The signal strength gained over cycles `from + 1` ..= `from + k` with
/// register value `x`.
pub open spec fn gain(cycles: Seq<usize>, from: int, k: int, x: int) -> int
    decreases k,
{
    if k <= 0 {
        0
    } else {
        gain(cycles, from, k - 1, x) + if is_interesting(cycles, from + k) {
            (from + k) * x
        } else {
            0
        }
    }
}

/// Whether each strength update over cycles `from + 1` ..= `from + k` stays
/// within `isize`.
pub open spec fn increments_ok(s0: int, cycles: Seq<usize>, from: int, k: int, x: int) -> bool
    decreases k,
{
    if k <= 0 {
        true
    } else {
        increments_ok(s0, cycles, from, k - 1, x) && (is_interesting(cycles, from + k) ==> (
        isize::MIN <= (from + k) * x <= isize::MAX && isize::MIN <= s0 + gain(cycles, from, k, x)
            <= isize::MAX))
    }
}

/// A bound on the whole run bounds every prefix.
pub proof fn lemma_increments_ok_at(s0: int, cycles: Seq<usize>, from: int, k: int, m: int, x: int)
    requires
        increments_ok(s0, cycles, from, k, x),
        m <= k,
    ensures
        increments_ok(s0, cycles, from, m, x),
    decreases k - m,
{
    if m < k {
        lemma_increments_ok_at(s0, cycles, from, k - 1, m, x);
    }
}

/// The character display: six rows of forty cells.
pub struct CRT {
    display: Vec<Vec<char>>,
}

impl CRT {
    /// The rows of the display.
    pub closed spec fn view(self) -> Seq<Seq<char>> {
        Seq::new(self.display@.len(), |i: int| self.display@[i]@)
    }

    /// Six rows of forty cells each.
    pub open spec fn wf(self) -> bool {
        self.view().len() == 6 && forall|i: int| 0 <= i < 6 ==> (#[trigger] self.view()[i]).len()
            == 40
    }

    /// Draws the pixel of `cycle`: lit when the sprite overlaps the
    /// column, dark otherwise.
    pub fn draw(&mut self, cycle: usize, sprite_pos: isize)
        requires
            old(self).wf(),
            1 <= cycle <= 240,
        ensures
            final(self).wf(),
            final(self).view() == draw_spec(old(self).view(), cycle as int, sprite_pos as int),
    {
        let x: usize = (cycle - 1) % 40;
        let y: usize = (cycle - 1) / 40;
        let xi: isize = x as isize;
        let lit: bool = sprite_pos >= xi - 1 && sprite_pos <= xi + 1;
        let c: char = if lit {
            '#'
        } else {
            '.'
        };
        proof {
            assert(self.view()[y as int].len() == 40);
            assert(self.display@[y as int]@.len() == 40);
        }
        self.display[y][x] = c;
        proof {
            assert(final(self).view() =~~= draw_spec(
                old(self).view(),
                cycle as int,
                sprite_pos as int,
            ));
        }
    }

    /// The rows of the display, as strings.
    pub fn render(&self) -> (r: Vec<String>)
        ensures
            r@.len() == self.view().len(),
            forall|i: int| 0 <= i < r@.len() ==> (#[trigger] r@[i])@ == self.view()[i],
    {
        let mut r: Vec<String> = Vec::new();
        let n = self.display.len();
        let mut i: usize = 0;
        while i < n
            invariant
                i <= n,
                n == self.display@.len(),
                r@.len() == i,
                forall|j: int| 0 <= j < i ==> (#[trigger] r@[j])@ == self.view()[j],
            decreases n - i,
        {
            let row = string_of(&self.display[i]);
            r.push(row);
            i = i + 1;
        }
        r
    }
}

impl Default for CRT {
    /// A blank display: six rows of forty `_` cells.
    fn default() -> (r: CRT)
        ensures
            r.wf(),
            r.view() == Seq::new(6, |i: int| Seq::new(40, |j: int| '_')),
    {
        let mut display: Vec<Vec<char>> = Vec::new();
        let mut i: usize = 0;
        while i < 6
            invariant
                i <= 6,
                display@.len() == i,
                forall|a: int| 0 <= a < i ==> (#[trigger] display@[a])@ == Seq::new(
                    40,
                    |j: int| '_',
                ),
            decreases 6 - i,
        {
            let mut row: Vec<char> = Vec::new();
            let mut j: usize = 0;
            while j < 40
                invariant
                    j <= 40,
                    row@.len() == j,
                    forall|b: int| 0 <= b < j ==> row@[b] == '_',
                decreases 40 - j,
            {
                row.push('_');
                j = j + 1;
            }
            proof {
                assert(row@ =~= Seq::new(40, |j: int| '_'));
            }
            display.push(row);
            i = i + 1;
        }
        let r = CRT { display };
        proof {
            assert(r.view() =~= Seq::new(6, |i: int| Seq::new(40, |j: int| '_')));
        }
        r
    }
}

/// The register, cycle counter, accumulated signal strength, and display.
pub struct CPU {
    pub register_x: isize,
    pub cycle_count: usize,
    pub interesting_cycles: Vec<usize>,
    pub interesting_strength: isize,
    pub crt: CRT,
}

/// How many cycles an instruction takes.
pub open spec fn cost(instr: Instruction) -> int {
    match instr {
        Instruction::NoOp => 1,
        Instruction::AddX(_) => 2,
    }
}

impl CPU {
    /// Ticks `n_cycles` cycles: each cycle draws one pixel, and the chosen
    /// cycles add the product of cycle number and register to the
    /// accumulated strength.
    pub fn increment_cycles(&mut self, n_cycles: usize)
        requires
            old(self).crt.wf(),
            old(self).cycle_count + n_cycles <= 240,
            increments_ok(
                old(self).interesting_strength as int,
                old(self).interesting_cycles@,
                old(self).cycle_count as int,
                n_cycles as int,
                old(self).register_x as int,
            ),
        ensures
            final(self).cycle_count == old(self).cycle_count + n_cycles,
            final(self).register_x == old(self).register_x,
            final(self).interesting_cycles == old(self).interesting_cycles,
            final(self).interesting_strength == old(self).interesting_strength + gain(
                old(self).interesting_cycles@,
                old(self).cycle_count as int,
                n_cycles as int,
                old(self).register_x as int,
            ),
            final(self).crt.wf(),
            final(self).crt.view() == draws(
                old(self).crt.view(),
                old(self).cycle_count as int,
                n_cycles as int,
                old(self).register_x as int,
            ),
    {
        let ghost s0 = old(self).interesting_strength as int;
        let ghost cs = old(self).interesting_cycles@;
        let ghost from = old(self).cycle_count as int;
        let ghost x = old(self).register_x as int;
        let ghost disp0 = old(self).crt.view();
        let mut k: usize = 0;
        while k < n_cycles
            invariant
                k <= n_cycles,
                s0 == old(self).interesting_strength as int,
                cs == old(self).interesting_cycles@,
                from == old(self).cycle_count as int,
                x == old(self).register_x as int,
                disp0 == old(self).crt.view(),
                old(self).cycle_count + n_cycles <= 240,
                increments_ok(s0, cs, from, n_cycles as int, x),
                self.cycle_count == old(self).cycle_count + k,
                self.register_x == old(self).register_x,
                self.interesting_cycles == old(self).interesting_cycles,
                self.interesting_strength == s0 + gain(cs, from, k as int, x),
                self.crt.wf(),
                self.crt.view() == draws(disp0, from, k as int, x),
            decreases n_cycles - k,
        {
            self.cycle_count = self.cycle_count + 1;
            proof {
                lemma_increments_ok_at(s0, cs, from, n_cycles as int, k + 1, x);
                lemma_gain_bounds(cs, from, k + 1 as int, x);
            }
            if contains_cycle(&self.interesting_cycles, self.cycle_count) {
                let prod: isize = (self.cycle_count as isize) * self.register_x;
                self.interesting_strength = self.interesting_strength + prod;
            }
            self.crt.draw(self.cycle_count, self.register_x);
            k = k + 1;
        }
    }

    /// Executes one instruction: ticks its cycles, and for `addx` adds the
    /// operand to the register afterwards.
    pub fn execute(&mut self, instr: Instruction)
        requires
            old(self).crt.wf(),
            old(self).cycle_count + cost(instr) <= 240,
            increments_ok(
                old(self).interesting_strength as int,
                old(self).interesting_cycles@,
                old(self).cycle_count as int,
                cost(instr),
                old(self).register_x as int,
            ),
            (instr matches Instruction::AddX(v) ==> isize::MIN <= old(self).register_x + v
                <= isize::MAX),
        ensures
            final(self).cycle_count == old(self).cycle_count + cost(instr),
            final(self).register_x == old(self).register_x + (match instr {
                Instruction::AddX(v) => v as int,
                Instruction::NoOp => 0int,
            }),
            final(self).interesting_cycles == old(self).interesting_cycles,
            final(self).interesting_strength == old(self).interesting_strength + gain(
                old(self).interesting_cycles@,
                old(self).cycle_count as int,
                cost(instr),
                old(self).register_x as int,
            ),
            final(self).crt.wf(),
            final(self).crt.view() == draws(
                old(self).crt.view(),
                old(self).cycle_count as int,
                cost(instr),
                old(self).register_x as int,
            ),
    {
        match instr {
            Instruction::AddX(val) => {
                self.increment_cycles(2);
                self.register_x = self.register_x + val;
            },
            Instruction::NoOp => {
                self.increment_cycles(1);
            },
        }
    }

    /// The rendered display rows.
    pub fn display(&self) -> (r: Vec<String>)
        ensures
            r@.len() == self.crt.view().len(),
            forall|i: int| 0 <= i < r@.len() ==> (#[trigger] r@[i])@ == self.crt.view()[i],
    {
        self.crt.render()
    }
}

impl Default for CPU {
    /// A fresh processor: register at one, no cycles ticked, the six
    /// canonical interesting cycles, and a blank display.
    fn default() -> (r: CPU)
        ensures
            r.register_x == 1,
            r.cycle_count == 0,
            r.interesting_strength == 0,
            r.interesting_cycles@ == seq![20usize, 60, 100, 140, 180, 220],
            r.crt.wf(),
            r.crt.view() == Seq::new(6, |i: int| Seq::new(40, |j: int| '_')),
    {
        let mut interesting_cycles: Vec<usize> = Vec::new();
        interesting_cycles.push(20);
        interesting_cycles.push(60);
        interesting_cycles.push(100);
        interesting_cycles.push(140);
        interesting_cycles.push(180);
        interesting_cycles.push(220);
        proof {
            assert(interesting_cycles@ =~= seq![20usize, 60, 100, 140, 180, 220]);
        }
        CPU {
            register_x: 1,
            cycle_count: 0,
            interesting_cycles,
            interesting_strength: 0,
            crt: CRT::default(),
        }
    }
}

/// The gained strength changes only at an interesting cycle, by that
/// cycle's product.
proof fn lemma_gain_bounds(cs: Seq<usize>, from: int, k: int, x: int)
    requires
        k >= 1,
    ensures
        gain(cs, from, k, x) == gain(cs, from, k - 1, x) + if is_interesting(cs, from + k) {
            (from + k) * x
        } else {
            0
        },
{
}

/// Whether `c` occurs among the chosen cycles.
fn contains_cycle(v: &Vec<usize>, c: usize) -> (r: bool)
    ensures
        r == is_interesting(v@, c as int),
{
    let n = v.len();
    let mut i: usize = 0;
    while i < n
        invariant
            i <= n,
            n == v@.len(),
            forall|j: int| 0 <= j < i ==> #[trigger] v@[j] != c,
        decreases n - i,
    {
        if v[i] == c {
            proof {
                assert(v@[i as int] == c);
            }
            return true;
        }
        i = i + 1;
    }
    proof {
        if is_interesting(v@, c as int) {
            let j = choose|j: int| 0 <= j < v@.len() && #[trigger] v@[j] == c as int;
            assert(false);
        }
    }
    false
}

/// The command-line options of this puzzle's program: the input path
/// (`-` for standard input) and the alternate-part switch.
#[derive(Debug)]
pub struct Args {
    pub fin: String,
    pub part2: bool,
}

} // verus!
