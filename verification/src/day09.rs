//! A rope of knots pulled over a grid: the places that its tail visits.

use crate::day04::{field_end, find_sep, first_field, has_second, second_field};
use crate::text::{copy_range, decimal_i32, lines, parse_i32, rows_of, split_lines};
use vstd::prelude::*;
use vstd::string::StringSliceAdditionalSpecFns;

verus! {

/// A direction to move the head in.
#[derive(Debug, Clone, Copy, PartialEq, Eq)]
pub enum Direction {
    UP,
    DOWN,
    LEFT,
    RIGHT,
}

/// A number of steps in one direction.
#[derive(Debug, Clone, Copy)]
pub struct Instruction {
    pub direction: Direction,
    pub n: i32,
}

/// The farthest that a coordinate may be from 0.
pub const REACH: i32 = 0x3fff_ffff;

/// A point of the grid, as two integers.
pub open spec fn pt(p: (i32, i32)) -> (int, int) {
    (p.0 as int, p.1 as int)
}

/// Whether both coordinates of a point are within `REACH` of 0.
pub open spec fn in_reach(p: (i32, i32)) -> bool {
    -REACH <= p.0 <= REACH && -REACH <= p.1 <= REACH
}

/// The point one step from `p` in direction `d`.
pub open spec fn moved(p: (int, int), d: Direction) -> (int, int) {
    match d {
        Direction::UP => (p.0 + 1, p.1),
        Direction::DOWN => (p.0 - 1, p.1),
        Direction::LEFT => (p.0, p.1 - 1),
        Direction::RIGHT => (p.0, p.1 + 1),
    }
}

/// -1, 0 or 1 as `a` is below, at or above `b`.
pub open spec fn side(a: int, b: int) -> int {
    if a < b {
        -1
    } else if a == b {
        0
    } else {
        1
    }
}

/// -1, 0 or 1 as `a` is below, at or above `b`.
pub open spec fn side_of(a: i32, b: i32) -> int {
    side(a as int, b as int)
}

/// Where a knot at `tail` goes when the knot before it is at `head`: nowhere while
/// they touch, else one step towards it along each axis on which they differ.
pub open spec fn followed(head: (int, int), tail: (int, int)) -> (int, int) {
    if tail.0 - head.0 > 1 || head.0 - tail.0 > 1 || tail.1 - head.1 > 1 || head.1 - tail.1 > 1 {
        (tail.0 + side(head.0, tail.0), tail.1 + side(head.1, tail.1))
    } else {
        tail
    }
}

/// Knot `i` of the rope after its head took one step in direction `d`.
pub open spec fn pulled(rope: Seq<(int, int)>, d: Direction, i: int) -> (int, int)
    decreases i,
{
    if i <= 0 {
        moved(rope[0], d)
    } else {
        followed(pulled(rope, d, i - 1), rope[i])
    }
}

/// The rope after its head took one step in direction `d`.
pub open spec fn pull(rope: Seq<(int, int)>, d: Direction) -> Seq<(int, int)> {
    Seq::new(rope.len(), |i: int| pulled(rope, d, i))
}

/// The single steps that the instructions ask for, in order.
pub open spec fn steps_of(instrs: Seq<Instruction>) -> Seq<Direction>
    decreases instrs.len(),
{
    if instrs.len() == 0 {
        Seq::empty()
    } else {
        steps_of(instrs.drop_last()) + repeat(instrs.last().direction, instrs.last().n as int)
    }
}

/// `n` steps in direction `d`; none where `n` is negative.
pub open spec fn repeat(d: Direction, n: int) -> Seq<Direction> {
    Seq::new(
        if n > 0 {
            n as nat
        } else {
            0
        },
        |i: int| d,
    )
}

/// A rope of `knots` knots after the given steps, all knots starting at the origin.
pub open spec fn rope_after(steps: Seq<Direction>, knots: nat) -> Seq<(int, int)>
    decreases steps.len(),
{
    if steps.len() == 0 {
        Seq::new(knots, |i: int| (0int, 0int))
    } else {
        pull(rope_after(steps.drop_last(), knots), steps.last())
    }
}

/// The places where the last knot is at the start or after any of the steps.
pub open spec fn tails(steps: Seq<Direction>, knots: nat) -> Set<(int, int)> {
    Set::new(
        |p: (int, int)|
            exists|m: int|
                0 <= m <= steps.len() && (#[trigger] rope_after(steps.take(m), knots)).last() == p,
    )
}

/// Whether a line is a direction letter, a blank and a number.
pub open spec fn is_motion(line: Seq<u8>) -> bool {
    &&& has_second(line, 32)
    &&& first_field(line, 32).len() == 1
    &&& (line[0] == 85 || line[0] == 68 || line[0] == 82 || line[0] == 76)
    &&& decimal_i32(second_field(line, 32)) is Some
}

/// The direction that a letter names: U, D, R or L.
pub open spec fn direction_of(b: u8) -> Direction {
    if b == 85 {
        Direction::UP
    } else if b == 68 {
        Direction::DOWN
    } else if b == 82 {
        Direction::RIGHT
    } else {
        Direction::LEFT
    }
}

/// The instruction of a line.
pub open spec fn motion_of(line: Seq<u8>) -> Instruction {
    Instruction {
        direction: direction_of(line[0]),
        n: decimal_i32(second_field(line, 32)).unwrap(),
    }
}

/// Whether every line is a motion.
pub open spec fn all_motions(ls: Seq<Seq<u8>>) -> bool {
    forall|i: int| 0 <= i < ls.len() ==> is_motion(#[trigger] ls[i])
}

/// The instructions of the lines.
pub open spec fn motions_of(ls: Seq<Seq<u8>>) -> Seq<Instruction> {
    Seq::new(ls.len(), |i: int| motion_of(ls[i]))
}

/// Reads the instruction of a line of bytes.
pub fn parse_line_bytes(line: &[u8]) -> (r: Instruction)
    requires
        is_motion(line@),
    ensures
        r == motion_of(line@),
{
    let n: usize = line.len();
    let a: usize = find_sep(line, 0, 32);
    let b: usize = find_sep(line, a + 1, 32);
    let number = copy_range(line, a + 1, b);
    let count: i32 = match parse_i32(number.as_slice()) {
        Some(v) => v,
        None => 0,
    };
    let letter: u8 = line[0];
    let direction = if letter == 85 {
        Direction::UP
    } else if letter == 68 {
        Direction::DOWN
    } else if letter == 82 {
        Direction::RIGHT
    } else {
        Direction::LEFT
    };
    Instruction { direction, n: count }
}

/// Reads the instruction of a line.
pub fn parse_line(line: &str) -> (r: Instruction)
    requires
        is_motion(line.spec_bytes()),
    ensures
        r == motion_of(line.spec_bytes()),
{
    parse_line_bytes(line.as_bytes())
}

/// Reads the instructions of a text, one per line.
pub fn parse_input(input: &str) -> (r: Vec<Instruction>)
    requires
        all_motions(lines(input.spec_bytes())),
    ensures
        r@ == motions_of(lines(input.spec_bytes())),
{
    let ls = split_lines(input.as_bytes());
    let ghost rows = rows_of(ls@);
    let mut out: Vec<Instruction> = Vec::new();
    let mut i: usize = 0;
    while i < ls.len()
        invariant
            rows == rows_of(ls@),
            all_motions(rows),
            i <= ls@.len(),
            out@.len() == i,
            forall|k: int| 0 <= k < i ==> #[trigger] out@[k] == motion_of(rows[k]),
        decreases ls@.len() - i,
    {
        assert(rows[i as int] == ls@[i as int]@);
        out.push(parse_line_bytes(ls[i].as_slice()));
        i += 1;
    }
    assert(out@ =~= motions_of(rows));
    out
}

/// Moves a point one step.
pub fn move_point(p: (i32, i32), direction: &Direction) -> (r: (i32, i32))
    requires
        -REACH < p.0 < REACH,
        -REACH < p.1 < REACH,
    ensures
        pt(r) == moved(pt(p), *direction),
{
    match direction {
        Direction::UP => (p.0 + 1, p.1),
        Direction::DOWN => (p.0 - 1, p.1),
        Direction::LEFT => (p.0, p.1 - 1),
        Direction::RIGHT => (p.0, p.1 + 1),
    }
}

/// Gives -1, 0 or 1 as `a` is below, at or above `b`.
pub fn cmp(a: i32, b: i32) -> (r: i32)
    ensures
        r == side_of(a, b),
{
    if a < b {
        -1
    } else if a == b {
        0
    } else {
        1
    }
}

/// Moves a knot after the knot before it.
pub fn follow(head: (i32, i32), tail: (i32, i32)) -> (r: (i32, i32))
    requires
        in_reach(head),
        in_reach(tail),
    ensures
        pt(r) == followed(pt(head), pt(tail)),
{
    if tail.0 - head.0 > 1 || head.0 - tail.0 > 1 || tail.1 - head.1 > 1 || head.1 - tail.1 > 1 {
        (tail.0 + self::cmp(head.0, tail.0), tail.1 + self::cmp(head.1, tail.1))
    } else {
        tail
    }
}

/// The points of a vector, as pairs of integers.
pub open spec fn points(v: Seq<(i32, i32)>) -> Seq<(int, int)> {
    Seq::new(v.len(), |i: int| pt(v[i]))
}

/// Whether every knot of the rope is within `b` of the origin along both axes.
pub open spec fn within(rope: Seq<(int, int)>, b: int) -> bool {
    forall|i: int|
        0 <= i < rope.len() ==> -b <= (#[trigger] rope[i]).0 <= b && -b <= rope[i].1 <= b
}

/// A step takes no knot more than one further from the origin.
pub proof fn lemma_pulled_within(rope: Seq<(int, int)>, d: Direction, b: int, i: int)
    requires
        within(rope, b),
        0 <= i < rope.len(),
    ensures
        -(b + 1) <= pulled(rope, d, i).0 <= b + 1,
        -(b + 1) <= pulled(rope, d, i).1 <= b + 1,
    decreases i,
{
    assert(-b <= rope[0].0 <= b && -b <= rope[0].1 <= b);
    assert(-b <= rope[i].0 <= b && -b <= rope[i].1 <= b);
    if i > 0 {
        lemma_pulled_within(rope, d, b, i - 1);
    }
}

/// The tail visits, after one more step, what it visited before and the place where
/// it is then.
pub proof fn lemma_tails_push(steps: Seq<Direction>, d: Direction, knots: nat)
    ensures
        tails(steps.push(d), knots) == tails(steps, knots).insert(
            rope_after(steps.push(d), knots).last(),
        ),
{
    let more = steps.push(d);
    let a = tails(more, knots);
    let b = tails(steps, knots).insert(rope_after(more, knots).last());
    assert(more.take(more.len() as int) =~= more);
    assert forall|p: (int, int)| a.contains(p) <==> b.contains(p) by {
        if a.contains(p) {
            let m = choose|m: int|
                0 <= m <= more.len() && (#[trigger] rope_after(more.take(m), knots)).last() == p;
            if m <= steps.len() {
                assert(more.take(m) =~= steps.take(m));
                assert(tails(steps, knots).contains(p));
            }
        }
        if tails(steps, knots).contains(p) {
            let m = choose|m: int|
                0 <= m <= steps.len() && (#[trigger] rope_after(steps.take(m), knots)).last() == p;
            assert(more.take(m) =~= steps.take(m));
        }
        if p == rope_after(more, knots).last() {
            assert(rope_after(more.take(more.len() as int), knots).last() == p);
        }
    }
    assert(a =~= b);
}

/// The steps of the first instructions are no more than the steps of all.
pub proof fn lemma_steps_prefix(instrs: Seq<Instruction>, i: int)
    requires
        0 <= i <= instrs.len(),
    ensures
        steps_of(instrs.take(i)).len() <= steps_of(instrs).len(),
    decreases instrs.len(),
{
    if i == instrs.len() {
        assert(instrs.take(i) =~= instrs);
    } else {
        assert(instrs.drop_last().take(i) =~= instrs.take(i));
        lemma_steps_prefix(instrs.drop_last(), i);
    }
}

/// Tests whether the list holds the point.
pub fn has_point(seen: &Vec<(i32, i32)>, p: (i32, i32)) -> (r: bool)
    ensures
        r == points(seen@).contains(pt(p)),
{
    let mut i: usize = 0;
    while i < seen.len()
        invariant
            i <= seen@.len(),
            forall|k: int| 0 <= k < i ==> points(seen@)[k] != pt(p),
        decreases seen@.len() - i,
    {
        if seen[i].0 == p.0 && seen[i].1 == p.1 {
            assert(points(seen@)[i as int] == pt(p));
            return true;
        }
        i += 1;
    }
    false
}

/// Moves the head of the rope one step and lets every other knot follow the one
/// before it.
pub fn pull_rope(knots: &mut Vec<(i32, i32)>, direction: &Direction)
    requires
        old(knots)@.len() >= 1,
        within(points(old(knots)@), REACH - 1),
    ensures
        points(final(knots)@) == pull(points(old(knots)@), *direction),
{
    let ghost before = points(knots@);
    let n: usize = knots.len();
    assert(-REACH < before[0].0 < REACH && -REACH < before[0].1 < REACH);
    let head = move_point(knots[0], direction);
    knots[0] = head;
    let mut i: usize = 1;
    while i < n
        invariant
            n == knots@.len(),
            n == before.len(),
            within(before, REACH - 1),
            1 <= i <= n,
            forall|k: int| 0 <= k < i ==> #[trigger] points(knots@)[k] == pulled(before, *direction, k),
            forall|k: int| i <= k < n ==> #[trigger] points(knots@)[k] == before[k],
        decreases n - i,
    {
        proof {
            lemma_pulled_within(before, *direction, REACH - 1, i - 1);
            assert(points(knots@)[i - 1] == pulled(before, *direction, i - 1));
            assert(points(knots@)[i as int] == before[i as int]);
            assert(-REACH < before[i as int].0 < REACH && -REACH < before[i as int].1 < REACH);
        }
        let ghost prev = points(knots@);
        let moved_to = follow(knots[i - 1], knots[i]);
        knots[i] = moved_to;
        proof {
            assert forall|k: int| 0 <= k < i + 1 implies #[trigger] points(knots@)[k] == pulled(
                before,
                *direction,
                k,
            ) by {
                if k < i {
                    assert(points(knots@)[k] == prev[k]);
                }
            }
            assert forall|k: int| i + 1 <= k < n implies #[trigger] points(knots@)[k] == before[k] by {
                assert(points(knots@)[k] == prev[k]);
            }
        }
        i += 1;
    }
    assert(points(knots@) =~= pull(before, *direction));
}

/// Counts the places that the last of `knots` knots visits while the head follows the
/// instructions.
pub fn simulate(instructions: &Vec<Instruction>, knots: usize) -> (r: usize)
    requires
        knots >= 1,
        steps_of(instructions@).len() <= REACH,
    ensures
        r == tails(steps_of(instructions@), knots as nat).len(),
{
    let ghost all = instructions@;
    let mut rope: Vec<(i32, i32)> = Vec::new();
    let mut k: usize = 0;
    while k < knots
        invariant
            k <= knots,
            rope@.len() == k,
            forall|j: int| 0 <= j < k ==> #[trigger] rope@[j] == (0i32, 0i32),
        decreases knots - k,
    {
        rope.push((0, 0));
        k += 1;
    }
    let mut seen: Vec<(i32, i32)> = Vec::new();
    seen.push((0, 0));
    let ghost mut done: Seq<Direction> = Seq::empty();
    proof {
        assert(all.take(0) =~= Seq::<Instruction>::empty());
        assert(points(rope@) =~= rope_after(done, knots as nat));
        assert(done.take(0) =~= done);
        assert(points(seen@)[0] == (0int, 0int));
        assert(tails(done, knots as nat) =~= points(seen@).to_set()) by {
            assert forall|p: (int, int)| tails(done, knots as nat).contains(p) implies points(
                seen@,
            ).to_set().contains(p) by {
                let m = choose|m: int|
                    0 <= m <= done.len() && (#[trigger] rope_after(done.take(m), knots as nat)).last()
                        == p;
                assert(done.take(m) =~= done);
                assert(points(seen@)[0] == p);
            }
            assert forall|p: (int, int)| points(seen@).to_set().contains(p) implies tails(
                done,
                knots as nat,
            ).contains(p) by {
                assert(rope_after(done.take(0), knots as nat).last() == p);
            }
        }
    }
    let mut i: usize = 0;
    while i < instructions.len()
        invariant
            all == instructions@,
            knots >= 1,
            steps_of(all).len() <= REACH,
            i <= instructions@.len(),
            rope@.len() == knots,
            done == steps_of(all.take(i as int)),
            points(rope@) == rope_after(done, knots as nat),
            within(points(rope@), done.len() as int),
            points(seen@).no_duplicates(),
            points(seen@).to_set() == tails(done, knots as nat),
        decreases instructions@.len() - i,
    {
        let instruction = instructions[i];
        let ghost base = done;
        proof {
            assert(all.take(i + 1).drop_last() =~= all.take(i as int));
            assert(all.take(i + 1).last() == instruction);
            lemma_steps_prefix(all, i + 1);
            assert(base + repeat(instruction.direction, 0) =~= base);
        }
        let mut c: i32 = 0;
        while c < instruction.n
            invariant
                knots >= 1,
                rope@.len() == knots,
                0 <= c,
                c <= instruction.n || (instruction.n < 0 && c == 0),
                done == base + repeat(instruction.direction, c as int),
                base.len() + repeat(instruction.direction, instruction.n as int).len() <= REACH,
                points(rope@) == rope_after(done, knots as nat),
                within(points(rope@), done.len() as int),
                points(seen@).no_duplicates(),
                points(seen@).to_set() == tails(done, knots as nat),
            decreases instruction.n - c,
        {
            let ghost before_seen = points(seen@);
            proof {
                assert(within(points(rope@), REACH - 1));
                lemma_tails_push(done, instruction.direction, knots as nat);
                assert forall|j: int| 0 <= j < knots implies -(done.len() + 1) <= (#[trigger] pull(
                    points(rope@),
                    instruction.direction,
                )[j]).0 <= done.len() + 1 && -(done.len() + 1) <= pull(
                    points(rope@),
                    instruction.direction,
                )[j].1 <= done.len() + 1 by {
                    lemma_pulled_within(points(rope@), instruction.direction, done.len() as int, j);
                }
                assert(done.push(instruction.direction).drop_last() =~= done);
                assert(done.push(instruction.direction) =~= base + repeat(
                    instruction.direction,
                    c + 1,
                ));
                done = done.push(instruction.direction);
            }
            pull_rope(&mut rope, &instruction.direction);
            let tail = rope[knots - 1];
            assert(points(rope@).last() == pt(tail));
            if !has_point(&seen, tail) {
                seen.push(tail);
                proof {
                    let now = points(seen@);
                    assert(now =~= before_seen.push(pt(tail)));
                    assert forall|a: int, b: int|
                        0 <= a < now.len() && 0 <= b < now.len() && a != b implies now[a]
                        != now[b] by {
                        if a < before_seen.len() && b < before_seen.len() {
                            assert(before_seen[a] != before_seen[b]);
                        } else if a < before_seen.len() {
                            assert(before_seen.contains(before_seen[a]));
                        } else {
                            assert(before_seen.contains(before_seen[b]));
                        }
                    }
                    assert(now.to_set() =~= before_seen.to_set().insert(pt(tail))) by {
                        assert forall|p: (int, int)| now.contains(p) <==> (before_seen.contains(p)
                            || p == pt(tail)) by {
                            if before_seen.contains(p) {
                                let x = choose|x: int| 0 <= x < before_seen.len() && before_seen[x] == p;
                                assert(now[x] == p);
                            }
                            if now.contains(p) {
                                let x = choose|x: int| 0 <= x < now.len() && now[x] == p;
                                if x < before_seen.len() {
                                    assert(before_seen[x] == p);
                                }
                            }
                            assert(now[now.len() - 1] == pt(tail));
                        }
                    }
                }
            } else {
                assert(before_seen.to_set().insert(pt(tail)) =~= before_seen.to_set());
            }
            c += 1;
        }
        proof {
            assert(repeat(instruction.direction, c as int) =~= repeat(
                instruction.direction,
                instruction.n as int,
            ));
        }
        i += 1;
    }
    proof {
        assert(all.take(i as int) =~= all);
        points(seen@).unique_seq_to_set();
    }
    seen.len()
}

/// Counts the places that the tail of a rope of two knots visits.
pub fn part1(input: &str) -> (r: usize)
    requires
        all_motions(lines(input.spec_bytes())),
        steps_of(motions_of(lines(input.spec_bytes()))).len() <= REACH,
    ensures
        r == tails(steps_of(motions_of(lines(input.spec_bytes()))), 2).len(),
{
    let instructions = parse_input(input);
    simulate(&instructions, 2)
}

/// Counts the places that the tail of a rope of ten knots visits.
pub fn part2(input: &str) -> (r: usize)
    requires
        all_motions(lines(input.spec_bytes())),
        steps_of(motions_of(lines(input.spec_bytes()))).len() <= REACH,
    ensures
        r == tails(steps_of(motions_of(lines(input.spec_bytes()))), 10).len(),
{
    let instructions = parse_input(input);
    simulate(&instructions, 10)
}

} // verus!
