//! Rock, paper, scissors: the score of a strategy guide with one round per line.

use crate::text::{lines, rows_of, split_lines};
use vstd::prelude::*;
use vstd::string::StringSliceAdditionalSpecFns;

verus! {

/// A shape to play.
#[derive(Clone, Copy, Debug, PartialEq, Eq)]
pub enum RPC {
    ROCK,
    PAPER,
    SCISSORS,
}

/// How a round is to end.
#[derive(Clone, Copy, Debug, PartialEq, Eq)]
pub enum WLD {
    WIN,
    LOSE,
    DRAW,
}

/// Whether `c` names a shape.
pub open spec fn is_shape(c: char) -> bool {
    c == 'A' || c == 'B' || c == 'C' || c == 'X' || c == 'Y' || c == 'Z'
}

/// Whether `c` names an outcome.
pub open spec fn is_outcome(c: char) -> bool {
    c == 'X' || c == 'Y' || c == 'Z'
}

/// The shape that `c` names: A and X rock, B and Y paper, C and Z scissors.
pub open spec fn shape_of(c: char) -> RPC {
    if c == 'A' || c == 'X' {
        RPC::ROCK
    } else if c == 'B' || c == 'Y' {
        RPC::PAPER
    } else {
        RPC::SCISSORS
    }
}

/// The outcome that `c` names: X lose, Y draw, Z win.
pub open spec fn outcome_of(c: char) -> WLD {
    if c == 'X' {
        WLD::LOSE
    } else if c == 'Y' {
        WLD::DRAW
    } else {
        WLD::WIN
    }
}

/// Whether shape `a` defeats shape `b`.
pub open spec fn beats(a: RPC, b: RPC) -> bool {
    (a == RPC::ROCK && b == RPC::SCISSORS) || (a == RPC::PAPER && b == RPC::ROCK) || (a
        == RPC::SCISSORS && b == RPC::PAPER)
}

/// What a shape is worth: rock 1, paper 2, scissors 3.
pub open spec fn shape_value(a: RPC) -> int {
    match a {
        RPC::ROCK => 1,
        RPC::PAPER => 2,
        RPC::SCISSORS => 3,
    }
}

/// The score of a round: the value of my shape, and 6 for a win or 3 for a draw.
pub open spec fn score_of(opponent: RPC, me: RPC) -> int {
    shape_value(me) + if beats(me, opponent) {
        6int
    } else if me == opponent {
        3int
    } else {
        0int
    }
}

/// Whether `me` is the shape that ends a round against `opponent` as `goal` says.
pub open spec fn answers(opponent: RPC, goal: WLD, me: RPC) -> bool {
    match goal {
        WLD::WIN => beats(me, opponent),
        WLD::LOSE => beats(opponent, me),
        WLD::DRAW => me == opponent,
    }
}

/// The shape that ends a round against `opponent` as `goal` says.
pub open spec fn reply(opponent: RPC, goal: WLD) -> RPC {
    choose|me: RPC| answers(opponent, goal, me)
}

/// Whether a line holds a round: a shape, one byte of plain text, then a shape.
pub open spec fn is_round(line: Seq<u8>) -> bool {
    line.len() >= 3 && is_shape(line[0] as char) && line[1] < 128 && is_shape(line[2] as char)
}

/// Whether a line holds a round whose second letter names an outcome.
pub open spec fn is_plan(line: Seq<u8>) -> bool {
    line.len() >= 3 && is_shape(line[0] as char) && line[1] < 128 && is_outcome(line[2] as char)
}

/// The score of a line whose second letter is my shape.
pub open spec fn round_score(line: Seq<u8>) -> int {
    score_of(shape_of(line[0] as char), shape_of(line[2] as char))
}

/// The score of a line whose second letter is the outcome to reach.
pub open spec fn plan_score(line: Seq<u8>) -> int {
    let opponent = shape_of(line[0] as char);
    score_of(opponent, reply(opponent, outcome_of(line[2] as char)))
}

/// The scores of all lines, added up, the second letter read as my shape.
pub open spec fn total_rounds(ls: Seq<Seq<u8>>) -> int
    decreases ls.len(),
{
    if ls.len() == 0 {
        0
    } else {
        total_rounds(ls.drop_last()) + round_score(ls.last())
    }
}

/// The scores of all lines, added up, the second letter read as the outcome.
pub open spec fn total_plans(ls: Seq<Seq<u8>>) -> int
    decreases ls.len(),
{
    if ls.len() == 0 {
        0
    } else {
        total_plans(ls.drop_last()) + plan_score(ls.last())
    }
}

/// The most lines whose scores are sure to add up within `i32`.
pub const MAX_ROUNDS: usize = 0x7ff_ffff;

/// Reads a shape.
pub fn parse_rpc(c: char) -> (r: RPC)
    requires
        is_shape(c),
    ensures
        r == shape_of(c),
{
    if c == 'A' || c == 'X' {
        RPC::ROCK
    } else if c == 'B' || c == 'Y' {
        RPC::PAPER
    } else {
        RPC::SCISSORS
    }
}

/// Reads an outcome.
pub fn parse_wld(c: char) -> (r: WLD)
    requires
        is_outcome(c),
    ensures
        r == outcome_of(c),
{
    if c == 'X' {
        WLD::LOSE
    } else if c == 'Y' {
        WLD::DRAW
    } else {
        WLD::WIN
    }
}

/// Scores a round.
pub fn score(opponent: RPC, me: RPC) -> (r: i32)
    ensures
        r == score_of(opponent, me),
        1 <= r <= 9,
{
    let (lose, draw, win): (i32, i32, i32) = (0, 3, 6);
    match me {
        RPC::ROCK => {
            1 + match opponent {
                RPC::ROCK => draw,
                RPC::PAPER => lose,
                RPC::SCISSORS => win,
            }
        },
        RPC::PAPER => {
            2 + match opponent {
                RPC::ROCK => win,
                RPC::PAPER => draw,
                RPC::SCISSORS => lose,
            }
        },
        RPC::SCISSORS => {
            3 + match opponent {
                RPC::ROCK => lose,
                RPC::PAPER => win,
                RPC::SCISSORS => draw,
            }
        },
    }
}

/// Picks the shape that ends a round against `opponent` as `goal` says.
pub fn choose_shape(opponent: RPC, goal: WLD) -> (me: RPC)
    ensures
        me == reply(opponent, goal),
        answers(opponent, goal, me),
{
    let me = match goal {
        WLD::WIN => match opponent {
            RPC::ROCK => RPC::PAPER,
            RPC::PAPER => RPC::SCISSORS,
            RPC::SCISSORS => RPC::ROCK,
        },
        WLD::LOSE => match opponent {
            RPC::ROCK => RPC::SCISSORS,
            RPC::PAPER => RPC::ROCK,
            RPC::SCISSORS => RPC::PAPER,
        },
        WLD::DRAW => opponent,
    };
    proof {
        assert(answers(opponent, goal, me));
        let other = reply(opponent, goal);
        assert(answers(opponent, goal, other));
    }
    me
}

/// The score of the guide where the second letter of a line is my shape.
pub fn part1(input: &str) -> (r: i32)
    requires
        forall|i: int|
            0 <= i < lines(input.spec_bytes()).len() ==> is_round(
                #[trigger] lines(input.spec_bytes())[i],
            ),
        lines(input.spec_bytes()).len() <= MAX_ROUNDS,
    ensures
        r == total_rounds(lines(input.spec_bytes())),
{
    let ls = split_lines(input.as_bytes());
    let ghost rows = rows_of(ls@);
    let mut sum: i32 = 0;
    let mut i: usize = 0;
    assert(rows.take(0) =~= Seq::<Seq<u8>>::empty());
    while i < ls.len()
        invariant
            rows == rows_of(ls@),
            rows == lines(input.spec_bytes()),
            rows.len() <= MAX_ROUNDS,
            rows.len() == ls@.len(),
            forall|k: int| 0 <= k < rows.len() ==> is_round(#[trigger] rows[k]),
            i <= ls@.len(),
            sum == total_rounds(rows.take(i as int)),
            0 <= sum <= 9 * i,
        decreases ls@.len() - i,
    {
        proof {
            assert(rows.take(i + 1).drop_last() =~= rows.take(i as int));
            assert(rows.take(i + 1).last() == ls@[i as int]@);
            assert(is_round(rows[i as int]));
        }
        let opponent = parse_rpc(ls[i][0] as char);
        let me = parse_rpc(ls[i][2] as char);
        sum += score(opponent, me);
        i += 1;
    }
    assert(rows.take(i as int) =~= rows);
    sum
}

/// The score of the guide where the second letter of a line is the outcome to reach.
pub fn part2(input: &str) -> (r: i32)
    requires
        forall|i: int|
            0 <= i < lines(input.spec_bytes()).len() ==> is_plan(
                #[trigger] lines(input.spec_bytes())[i],
            ),
        lines(input.spec_bytes()).len() <= MAX_ROUNDS,
    ensures
        r == total_plans(lines(input.spec_bytes())),
{
    let ls = split_lines(input.as_bytes());
    let ghost rows = rows_of(ls@);
    let mut sum: i32 = 0;
    let mut i: usize = 0;
    assert(rows.take(0) =~= Seq::<Seq<u8>>::empty());
    while i < ls.len()
        invariant
            rows == rows_of(ls@),
            rows == lines(input.spec_bytes()),
            rows.len() <= MAX_ROUNDS,
            rows.len() == ls@.len(),
            forall|k: int| 0 <= k < rows.len() ==> is_plan(#[trigger] rows[k]),
            i <= ls@.len(),
            sum == total_plans(rows.take(i as int)),
            0 <= sum <= 9 * i,
        decreases ls@.len() - i,
    {
        proof {
            assert(rows.take(i + 1).drop_last() =~= rows.take(i as int));
            assert(rows.take(i + 1).last() == ls@[i as int]@);
            assert(is_plan(rows[i as int]));
        }
        let opponent = parse_rpc(ls[i][0] as char);
        let me_wld = parse_wld(ls[i][2] as char);
        let me = choose_shape(opponent, me_wld);
        sum += score(opponent, me);
        i += 1;
    }
    assert(rows.take(i as int) =~= rows);
    sum
}

} // verus!
