use advent2022::day03::{find_badge, find_mistake, part1, part2, priority, Problem};

const SAMPLE_INPUT: &str = "vJrwpWtwJgWrhcsFMMfFFhFp
jqHRNqRjqzjGDLGLrsFMfFZSrLrFZsSL
PmmdzqPrVvPwwTWBwg
wMqvLMZHhHMvwLHjbvcjnnSBnvTQFn
ttgJtRGJQctTZtZT
CrZsJsPPZsGzwwsLwLmpwMDw";

#[test]
fn priority_test() {
    assert_eq!(priority('a').unwrap(), 1);
    assert_eq!(priority('z').unwrap(), 26);
    assert_eq!(priority('A').unwrap(), 27);
    assert_eq!(priority('Z').unwrap(), 52);
}

#[test]
fn day03_part1_test() {
    let answer = part1(SAMPLE_INPUT);
    assert_eq!(answer, 157)
}

#[test]
fn day03_part2_test() {
    let answer = part2(SAMPLE_INPUT);
    assert_eq!(answer, 70)
}

#[test]
fn rucksack_problems() {
    assert_eq!(priority('1'), Err(Problem::NotAnItem));
    assert_eq!(priority('{'), Err(Problem::NotAnItem));
    assert_eq!(find_mistake(b"abcd"), Err(Problem::NoMistake));
    assert_eq!(find_mistake(b""), Err(Problem::NoMistake));
    assert_eq!(find_mistake(b"abxcbx"), Ok(b'b'));
    assert_eq!(find_mistake(b"abcab"), Ok(b'a'));
    assert_eq!(find_badge(b"ab", b"cd", b"ef"), Err(Problem::NoBadge));
    assert_eq!(find_badge(b"abz", b"zcb", b"xbz"), Ok(b'b'));
}
