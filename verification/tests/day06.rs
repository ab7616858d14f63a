use advent2022::day06::{part1, part2};

const SAMPLE_INPUT: &str = "mjqjpqmgbljsphdztnvjfqwrcgsmlb";

#[test]
fn day06_part1_test() {
    let answer = part1(SAMPLE_INPUT);
    assert_eq!(answer, 7)
}

#[test]
fn day06_part2_test() {
    let answer = part2(SAMPLE_INPUT);
    assert_eq!(answer, 19)
}

#[test]
fn marker_absent() {
    assert_eq!(part1("aaaaaaa"), -1);
    assert_eq!(part1("abc"), -1);
    assert_eq!(part1(""), -1);
    assert_eq!(part1("ab cdefg"), 7);
}
