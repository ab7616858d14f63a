//! A processor with one register and two instructions, and the screen that it draws.

use crate::text::{
    collect_text, copy_range, decimal_i32, lines, parse_i32, rows_of, split_lines,
};
use crate::valve::{digit_end, digit_run, has_at, sign_end, starts_at};
use vstd::prelude::*;
use vstd::string::StringSliceAdditionalSpecFns;

verus! {

/// An instruction: do nothing for one cycle, or add to the register after two.
#[derive(Clone, Copy, Debug, PartialEq, Eq)]
pub enum Instruction {
    NOOP,
    ADDX(i32),
}

/// The text "noop".
pub open spec fn tag_noop() -> Seq<u8> {
    seq![110u8, 111u8, 111u8, 112u8]
}

/// The text "addx ".
pub open spec fn tag_addx() -> Seq<u8> {
    seq![97u8, 100u8, 100u8, 120u8, 32u8]
}

/// The number that follows "addx ": an optional sign and the digits behind it.
pub open spec fn operand(s: Seq<u8>) -> Option<i32> {
    decimal_i32(s.subrange(5, digit_end(s, sign_end(s, 5))))
}

/// The instruction that a line starts with, if it starts with one.
pub open spec fn instruction_of(s: Seq<u8>) -> Option<Instruction> {
    if has_at(s, 0, tag_noop()) {
        Some(Instruction::NOOP)
    } else if has_at(s, 0, tag_addx()) {
        match operand(s) {
            Some(v) => Some(Instruction::ADDX(v)),
            None => None,
        }
    } else {
        None
    }
}

/// The value of the register during each cycle, and after the last: it starts at 1,
/// `noop` takes one cycle, and `addx` takes two and then adds its number.
pub open spec fn history(program: Seq<Instruction>) -> Seq<int>
    decreases program.len(),
{
    if program.len() == 0 {
        seq![1int]
    } else {
        let h = history(program.drop_last());
        match program.last() {
            Instruction::NOOP => h.push(h.last()),
            Instruction::ADDX(v) => h.push(h.last()).push(h.last() + v),
        }
    }
}

/// Whether the register stays within `i32` all through the program.
pub open spec fn fits(program: Seq<Instruction>) -> bool {
    forall|k: int|
        0 <= k <= program.len() ==> i32::MIN <= (#[trigger] history(program.take(k))).last()
            <= i32::MAX
}

/// The integers of a vector of `i32`.
pub open spec fn ints(v: Seq<i32>) -> Seq<int> {
    Seq::new(v.len(), |i: int| v[i] as int)
}

/// The first `k` of the six signal strengths, added up: the cycle's number times the
/// register during it, for cycles 20, 60, 100, 140, 180 and 220.
pub open spec fn strengths(h: Seq<int>, k: int) -> int
    decreases k,
{
    if k <= 0 {
        0
    } else {
        strengths(h, k - 1) + (40 * k - 20) * h[40 * k - 21]
    }
}

/// The pixel at column `p` while the register holds `x`: lit where the column is the
/// register or next to it.
pub open spec fn pixel(x: int, p: int) -> char {
    if x - 1 <= p <= x + 1 {
        '#'
    } else {
        '.'
    }
}

/// One row of the screen with the line feed that ends it.
pub open spec fn row_text(h: Seq<int>, row: int) -> Seq<char> {
    Seq::new(
        41,
        |p: int|
            if p == 40 {
                '\n'
            } else {
                pixel(h[row * 40 + p], p)
            },
    )
}

/// A line feed and the first `rows` rows of the screen.
pub open spec fn screen(h: Seq<int>, rows: int) -> Seq<char>
    decreases rows,
{
    if rows <= 0 {
        seq!['\n']
    } else {
        screen(h, rows - 1) + row_text(h, rows - 1)
    }
}

/// Reads the instruction that a line of bytes starts with.
pub fn parse_instruction_bytes(s: &[u8]) -> (r: Option<Instruction>)
    ensures
        r == instruction_of(s@),
{
    let n: usize = s.len();
    let noop: Vec<u8> = vec![110u8, 111u8, 111u8, 112u8];
    let addx: Vec<u8> = vec![97u8, 100u8, 100u8, 120u8, 32u8];
    assert(noop@ =~= tag_noop());
    assert(addx@ =~= tag_addx());
    assert(tag_addx().len() == 5);
    if starts_at(s, 0, &noop) {
        return Some(Instruction::NOOP);
    }
    if !starts_at(s, 0, &addx) {
        return None;
    }
    let c1: usize = if 5 < n && (s[5] == 45 || s[5] == 43) {
        6
    } else {
        5
    };
    let d: usize = digit_run(s, c1);
    let token = copy_range(s, 5, d);
    match parse_i32(token.as_slice()) {
        Some(v) => Some(Instruction::ADDX(v)),
        None => None,
    }
}

/// Reads the instruction that a line starts with.
pub fn parse_instruction(line: &str) -> (r: Instruction)
    requires
        instruction_of(line.spec_bytes()) is Some,
    ensures
        Some(r) == instruction_of(line.spec_bytes()),
{
    match parse_instruction_bytes(line.as_bytes()) {
        Some(i) => i,
        None => Instruction::NOOP,
    }
}

/// Runs a program and records the register during each cycle and after the last.
pub fn execute(instructions: Vec<Instruction>) -> (r: Vec<i32>)
    requires
        fits(instructions@),
    ensures
        ints(r@) == history(instructions@),
{
    let ghost program = instructions@;
    let mut x: i32 = 1;
    let mut x_hist: Vec<i32> = Vec::new();
    x_hist.push(1);
    let mut i: usize = 0;
    assert(program.take(0) =~= Seq::<Instruction>::empty());
    assert(ints(x_hist@) =~= seq![1int]);
    while i < instructions.len()
        invariant
            program == instructions@,
            fits(program),
            i <= instructions@.len(),
            ints(x_hist@) == history(program.take(i as int)),
            x_hist@.len() >= 1,
            x == x_hist@[x_hist@.len() - 1],
        decreases instructions@.len() - i,
    {
        let ghost before = ints(x_hist@);
        proof {
            assert(program.take(i + 1).drop_last() =~= program.take(i as int));
            assert(program.take(i + 1).last() == instructions@[i as int]);
            assert(i32::MIN <= history(program.take(i + 1)).last() <= i32::MAX);
            assert(before.last() == x);
        }
        match instructions[i] {
            Instruction::NOOP => {
                x_hist.push(x);
                assert(ints(x_hist@) =~= before.push(before.last()));
            },
            Instruction::ADDX(v) => {
                x_hist.push(x);
                assert(before.push(before.last()).push(before.last() + v).last() == x + v);
                x += v;
                x_hist.push(x);
                assert(ints(x_hist@) =~= before.push(before.last()).push(before.last() + v));
            },
        }
        i += 1;
    }
    assert(program.take(i as int) =~= program);
    x_hist
}

/// Whether every line starts with an instruction.
pub open spec fn is_program(ls: Seq<Seq<u8>>) -> bool {
    forall|i: int| 0 <= i < ls.len() ==> instruction_of(#[trigger] ls[i]) is Some
}

/// The instructions of the lines.
pub open spec fn program_of(ls: Seq<Seq<u8>>) -> Seq<Instruction> {
    Seq::new(ls.len(), |i: int| instruction_of(ls[i]).unwrap())
}

/// Reads a program, one instruction per line.
pub fn parse_program(input: &[u8]) -> (r: Vec<Instruction>)
    requires
        is_program(lines(input@)),
    ensures
        r@ == program_of(lines(input@)),
{
    let ls = split_lines(input);
    let ghost rows = rows_of(ls@);
    let mut out: Vec<Instruction> = Vec::new();
    let mut i: usize = 0;
    while i < ls.len()
        invariant
            rows == rows_of(ls@),
            is_program(rows),
            i <= ls@.len(),
            out@.len() == i,
            forall|k: int| 0 <= k < i ==> Some(#[trigger] out@[k]) == instruction_of(rows[k]),
        decreases ls@.len() - i,
    {
        assert(rows[i as int] == ls@[i as int]@);
        match parse_instruction_bytes(ls[i].as_slice()) {
            Some(instr) => {
                out.push(instr);
            },
            None => {},
        }
        i += 1;
    }
    assert(out@ =~= program_of(rows));
    out
}

/// The six signal strengths of a program, added up.
pub fn part1(input: &str) -> (r: i32)
    requires
        is_program(lines(input.spec_bytes())),
        fits(program_of(lines(input.spec_bytes()))),
        history(program_of(lines(input.spec_bytes()))).len() >= 220,
        i32::MIN <= strengths(history(program_of(lines(input.spec_bytes()))), 6) <= i32::MAX,
    ensures
        r == strengths(history(program_of(lines(input.spec_bytes()))), 6),
{
    let x_hist = execute(parse_program(input.as_bytes()));
    let ghost h = ints(x_hist@);
    let mut sum: i64 = 0;
    let mut k: usize = 0;
    while k < 6
        invariant
            h == ints(x_hist@),
            x_hist@.len() >= 220,
            k <= 6,
            sum == strengths(h, k as int),
            -0x7fff_ffff_ffff * k <= sum <= 0x7fff_ffff_ffff * k,
        decreases 6 - k,
    {
        let cycle: usize = k * 40 + 20;
        let x: i64 = x_hist[cycle - 1] as i64;
        assert(h[40 * (k + 1) - 21] == x);
        assert(-0x7fff_ffff_ffff <= (cycle as i64) * x <= 0x7fff_ffff_ffff) by (nonlinear_arith)
            requires
                0 <= cycle <= 220,
                -0x8000_0000 <= x <= 0x7fff_ffff,
        ;
        sum = sum + (cycle as i64) * x;
        k += 1;
    }
    sum as i32
}

/// The screen that a program draws: a line feed, then six rows of forty pixels, each
/// ended by a line feed.
pub fn part2(input: &str) -> (r: String)
    requires
        is_program(lines(input.spec_bytes())),
        fits(program_of(lines(input.spec_bytes()))),
        history(program_of(lines(input.spec_bytes()))).len() >= 240,
    ensures
        r@ == screen(history(program_of(lines(input.spec_bytes()))), 6),
{
    let x_hist = execute(parse_program(input.as_bytes()));
    let ghost h = ints(x_hist@);
    let mut output: Vec<char> = Vec::new();
    output.push('\n');
    assert(output@ =~= screen(h, 0));
    let mut row: usize = 0;
    while row < 6
        invariant
            h == ints(x_hist@),
            x_hist@.len() >= 240,
            row <= 6,
            output@ == screen(h, row as int),
        decreases 6 - row,
    {
        let ghost base = output@;
        let mut p: usize = 0;
        while p < 40
            invariant
                h == ints(x_hist@),
                x_hist@.len() >= 240,
                row < 6,
                p <= 40,
                output@ == base + row_text(h, row as int).take(p as int),
            decreases 40 - p,
        {
            let x: i64 = x_hist[row * 40 + p] as i64;
            let q: i64 = p as i64;
            let c: char = if x - 1 <= q && q <= x + 1 {
                '#'
            } else {
                '.'
            };
            assert(h[row * 40 + p] == x);
            output.push(c);
            assert(output@ =~= base + row_text(h, row as int).take(p + 1));
            p += 1;
        }
        output.push('\n');
        assert(output@ =~= base + row_text(h, row as int));
        row += 1;
    }
    collect_text(output)
}

} // verus!
