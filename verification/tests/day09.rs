use advent2022::day09::{cmp, follow, move_point, parse_line, part1, part2, Direction};

const SAMPLE_INPUT: &str = "R 4
U 4
L 3
D 1
R 4
D 1
L 5
R 2";
const SAMPLE_INPUT_2: &str = "R 5
U 8
L 8
D 3
R 17
D 10
L 25
U 20";

#[test]
fn day09_part1_test() {
    let answer = part1(SAMPLE_INPUT);
    assert_eq!(answer, 13)
}

#[test]
fn day09_part2_test() {
    let answer = part2(SAMPLE_INPUT);
    assert_eq!(answer, 1);
    let answer = part2(SAMPLE_INPUT_2);
    assert_eq!(answer, 36);
}

#[test]
fn knots_follow() {
    assert_eq!(cmp(1, 2), -1);
    assert_eq!(cmp(2, 2), 0);
    assert_eq!(cmp(3, 2), 1);
    assert_eq!(move_point((0, 0), &Direction::UP), (1, 0));
    assert_eq!(move_point((0, 0), &Direction::DOWN), (-1, 0));
    assert_eq!(move_point((0, 0), &Direction::LEFT), (0, -1));
    assert_eq!(move_point((0, 0), &Direction::RIGHT), (0, 1));
    assert_eq!(follow((1, 1), (0, 0)), (0, 0));
    assert_eq!(follow((2, 0), (0, 0)), (1, 0));
    assert_eq!(follow((2, 1), (0, 0)), (1, 1));
    assert_eq!(follow((-2, -2), (0, 0)), (-1, -1));
    assert_eq!(follow((0, -2), (0, 0)), (0, -1));
    let i = parse_line("L 25");
    assert_eq!(i.direction, Direction::LEFT);
    assert_eq!(i.n, 25);
    assert_eq!(part1(""), 1);
    assert_eq!(part1("U -3"), 1);
    assert_eq!(part1("U 3\nD 3"), 3);
}
