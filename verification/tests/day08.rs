use advent2022::day08::{is_visible, parse_matrix, part1, part2, scenic_score};

const SAMPLE_INPUT: &str = "30373
25512
65332
33549
35390";

#[test]
fn day08_part1_test() {
    let answer = part1(SAMPLE_INPUT);
    assert_eq!(answer, 21)
}

#[test]
fn scenic_score_test() {
    let (trees, w, h) = parse_matrix(SAMPLE_INPUT);
    let score = scenic_score((1, 2), &trees, w, h);
    assert_eq!(score, 4)
}

#[test]
fn day08_part2_test() {
    let answer = part2(SAMPLE_INPUT);
    assert_eq!(answer, 8)
}

#[test]
fn small_forests() {
    let (trees, w, h) = parse_matrix(SAMPLE_INPUT);
    assert_eq!((w, h), (5, 5));
    assert_eq!(trees[3], vec![3, 3, 5, 4, 9]);
    assert!(is_visible(&trees, 1, 1, w, h));
    assert!(!is_visible(&trees, 1, 3, w, h));
    assert!(!is_visible(&trees, 2, 2, w, h));
    assert!(is_visible(&trees, 4, 0, w, h));
    assert_eq!(scenic_score((3, 2), &trees, w, h), 8);
    assert_eq!(scenic_score((0, 0), &trees, w, h), 0);
    assert_eq!(part1("7"), 1);
    assert_eq!(part2("7"), 0);
    assert_eq!(part1("000\n000\n000"), 8);
    assert_eq!(part2("111\n111\n111"), 1);
}
