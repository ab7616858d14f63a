use advent2022::day01::{count_calories, top_3};

const SAMPLE_INPUT: &str = "1000
2000
3000

4000

5000
6000

7000
8000
9000

10000";

#[test]
fn count_calories_test() {
    let result = count_calories(SAMPLE_INPUT);
    assert_eq!(result, 24000);
}

#[test]
fn top_3_test() {
    let result = top_3(SAMPLE_INPUT);
    assert_eq!(result, 45000);
}

#[test]
fn calories_edge_cases() {
    assert_eq!(count_calories(""), 0);
    assert_eq!(count_calories("5\n\n7\n1\n\n"), 8);
    assert_eq!(count_calories("-5\n\n-7"), 0);
    assert_eq!(count_calories("+5\r\n6\r\n"), 11);
    assert_eq!(top_3("1\n\n2\n\n3\n\n4"), 9);
    assert_eq!(top_3("4\n4\n\n4\n\n8\n\n8"), 24);
    assert_eq!(top_3("\n\n"), 0);
    assert_eq!(top_3("-1\n\n-2\n\n-3\n\n-4"), -6);
}
