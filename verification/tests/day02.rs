use advent2022::day02::{choose_shape, parse_rpc, parse_wld, part1, part2, score, RPC, WLD};

const SAMPLE_INPUT: &str = "A Y
B X
C Z";

#[test]
fn day02_part1_test() {
    let answer = part1(SAMPLE_INPUT);
    assert_eq!(answer, 15)
}

#[test]
fn day02_part2_test() {
    let answer = part2(SAMPLE_INPUT);
    assert_eq!(answer, 12)
}

#[test]
fn scores_of_all_rounds() {
    assert_eq!(score(RPC::ROCK, RPC::ROCK), 4);
    assert_eq!(score(RPC::PAPER, RPC::ROCK), 1);
    assert_eq!(score(RPC::SCISSORS, RPC::ROCK), 7);
    assert_eq!(score(RPC::ROCK, RPC::PAPER), 8);
    assert_eq!(score(RPC::PAPER, RPC::PAPER), 5);
    assert_eq!(score(RPC::SCISSORS, RPC::PAPER), 2);
    assert_eq!(score(RPC::ROCK, RPC::SCISSORS), 3);
    assert_eq!(score(RPC::PAPER, RPC::SCISSORS), 9);
    assert_eq!(score(RPC::SCISSORS, RPC::SCISSORS), 6);
}

#[test]
fn letters_and_replies() {
    assert_eq!(parse_rpc('A'), RPC::ROCK);
    assert_eq!(parse_rpc('Y'), RPC::PAPER);
    assert_eq!(parse_rpc('C'), RPC::SCISSORS);
    assert_eq!(parse_wld('X'), WLD::LOSE);
    assert_eq!(parse_wld('Y'), WLD::DRAW);
    assert_eq!(parse_wld('Z'), WLD::WIN);
    assert_eq!(choose_shape(RPC::ROCK, WLD::WIN), RPC::PAPER);
    assert_eq!(choose_shape(RPC::ROCK, WLD::LOSE), RPC::SCISSORS);
    assert_eq!(choose_shape(RPC::SCISSORS, WLD::DRAW), RPC::SCISSORS);
    assert_eq!(part1(""), 0);
    assert_eq!(part2(""), 0);
}
