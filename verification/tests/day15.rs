use advent2022::day15::{count_row, find_gap, manhattan_dist, parse_sensor, part1, part2};

const SAMPLE_INPUT: &str = "Sensor at x=2, y=18: closest beacon is at x=-2, y=15
Sensor at x=9, y=16: closest beacon is at x=10, y=16
Sensor at x=13, y=2: closest beacon is at x=15, y=3
Sensor at x=12, y=14: closest beacon is at x=10, y=16
Sensor at x=10, y=20: closest beacon is at x=10, y=16
Sensor at x=14, y=17: closest beacon is at x=10, y=16
Sensor at x=8, y=7: closest beacon is at x=2, y=10
Sensor at x=2, y=0: closest beacon is at x=2, y=10
Sensor at x=0, y=11: closest beacon is at x=2, y=10
Sensor at x=20, y=14: closest beacon is at x=25, y=17
Sensor at x=17, y=20: closest beacon is at x=21, y=22
Sensor at x=16, y=7: closest beacon is at x=15, y=3
Sensor at x=14, y=3: closest beacon is at x=15, y=3
Sensor at x=20, y=1: closest beacon is at x=15, y=3";

#[test]
fn day15_part1_test() {
    let answer = part1(SAMPLE_INPUT, 10);
    assert_eq!(answer, 26)
}

#[test]
fn day15_part2_test() {
    let answer = part2(SAMPLE_INPUT, 20);
    assert_eq!(answer, 56000011)
}

#[test]
fn sensor_reports() {
    assert_eq!(
        parse_sensor(b"Sensor at x=2, y=18: closest beacon is at x=-2, y=15"),
        Some(((2, 18), (-2, 15)))
    );
    assert_eq!(
        parse_sensor(b"Sensor at x=+2, y=-0: closest beacon is at x=7, y=8 and more"),
        Some(((2, 0), (7, 8)))
    );
    assert_eq!(parse_sensor(b"Sensor at x=2, y=18: closest beacon is at x=-2, y="), None);
    assert_eq!(parse_sensor(b"Sensor at x=2,y=18: closest beacon is at x=-2, y=15"), None);
    assert_eq!(parse_sensor(b"Sensor at x=2147483648, y=1: closest beacon is at x=1, y=1"), None);
    assert_eq!(parse_sensor(b""), None);
    assert_eq!(manhattan_dist(&(1, 2), &(4, -2)), 7);
    assert_eq!(manhattan_dist(&(-3, 5), &(-3, 5)), 0);
    assert_eq!(manhattan_dist(&(i32::MIN, 0), &(-1, 0)), i32::MAX);
}

#[test]
fn rows_and_gaps() {
    // One sensor at the origin with its beacon two steps to the right: the scan of
    // row 0 stops at the beacon.
    assert_eq!(count_row(&vec![((0, 0), (2, 0))], 0), 4);
    assert_eq!(count_row(&vec![((0, 0), (2, 0))], 1), 3);
    assert_eq!(count_row(&vec![((0, 0), (2, 0))], 2), 1);
    assert_eq!(count_row(&vec![((0, 0), (2, 0))], 3), 0);
    assert_eq!(count_row(&vec![((0, 0), (0, 0))], 0), 0);
    assert_eq!(count_row(&vec![((0, 0), (1, 1)), ((1, 0), (1, 1))], 0), 5);
    assert_eq!(count_row(&vec![], 0), 0);
    assert_eq!(find_gap(&vec![], 5), 0);
    assert_eq!(find_gap(&vec![((0, 0), (2, 0))], 5), 3 * 4000000);
    assert_eq!(find_gap(&vec![((0, 0), (5, 0)), ((5, 0), (5, 1))], 5), 4 * 4000000 + 2);
}
