use advent2022::day04::{contains, overlaps, parse_elves, part1, part2, split_i32};

const SAMPLE_INPUT: &str = "2-4,6-8
2-3,4-5
5-7,7-9
2-8,3-7
6-6,4-6
2-6,4-8";

#[test]
fn day04_part1_test() {
    let answer = part1(SAMPLE_INPUT);
    assert_eq!(answer, 2)
}

#[test]
fn day04_part2_test() {
    let answer = part2(SAMPLE_INPUT);
    assert_eq!(answer, 4)
}

#[test]
fn ranges() {
    assert_eq!(split_i32(b'-', b"12-345"), (12, 345));
    assert_eq!(split_i32(b'-', b"1-2-3"), (1, 2));
    assert_eq!(parse_elves(b"2-4,6-8"), ((2, 4), (6, 8)));
    assert_eq!(parse_elves(b"2-4,6-8,9-9"), ((2, 4), (6, 8)));
    assert!(contains(&(2, 8), &(3, 7)));
    assert!(contains(&(3, 7), &(3, 7)));
    assert!(!contains(&(3, 7), &(2, 8)));
    assert!(overlaps(&(5, 7), &(7, 9)));
    assert!(overlaps(&(7, 9), &(5, 7)));
    assert!(!overlaps(&(2, 3), &(4, 5)));
    assert_eq!(part1(""), 0);
}
