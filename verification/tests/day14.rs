use advent2022::day14::{build_cave, deepest, drop_sand, key, part1, part2, rock, Item};

const SAMPLE_INPUT: &str = "498,4 -> 498,6 -> 496,6
503,4 -> 502,4 -> 502,9 -> 494,9";

#[test]
fn day14_part1_test() {
    let answer = part1(SAMPLE_INPUT);
    assert_eq!(answer, 24)
}

#[test]
fn day14_part2_test() {
    let answer = part2(SAMPLE_INPUT);
    assert_eq!(answer, 93)
}

#[test]
fn paths_of_rock() {
    assert_eq!(rock(b"498,4 -> 498,6 -> 496,6"), Some(vec![(498, 4), (498, 6), (496, 6)]));
    assert_eq!(rock(b"-1,+2"), Some(vec![(-1, 2)]));
    assert_eq!(rock(b"1,2 -> 3"), Some(vec![(1, 2)]));
    assert_eq!(rock(b"1,2->3,4"), Some(vec![(1, 2)]));
    assert_eq!(rock(b"1;2"), None);
    assert_eq!(rock(b""), None);
    let cave = build_cave(vec![vec![(498, 4), (498, 6), (496, 6)], vec![(7, 7)]]);
    assert_eq!(cave.len(), 5);
    for p in [(498, 4), (498, 5), (498, 6), (497, 6), (496, 6)] {
        assert_eq!(cave.get(&key(&p)), Some(&Item::Rock));
    }
    assert_eq!(cave.get(&key(&(7, 7))), None);
    assert_eq!(deepest(&vec![vec![(498, 4), (498, 6), (496, 6)], vec![(7, 7)]]), Some(6));
    assert_eq!(deepest(&vec![vec![(7, 7)], vec![]]), None);
    assert_ne!(key(&(1, 2)), key(&(2, 1)));
    assert_ne!(key(&(-1, 0)), key(&(0, -1)));
}

#[test]
fn one_unit_of_sand() {
    let mut cave = build_cave(vec![vec![(499, 3), (501, 3)]]);
    assert!(drop_sand(&mut cave, 3, false));
    assert_eq!(cave.get(&key(&(500, 2))), Some(&Item::Sand));
    // The next unit slips past the left end of the rock and falls out.
    assert!(!drop_sand(&mut cave, 3, false));
    assert_eq!(cave.get(&key(&(499, 2))), None);
    assert_eq!(cave.len(), 4);
    let mut open = build_cave(vec![vec![(0, 3), (1, 3)]]);
    assert!(!drop_sand(&mut open, 3, false));
    assert_eq!(open.len(), 2);
    assert!(!drop_sand(&mut open, 3, true));
    assert_eq!(open.get(&key(&(500, 1))), Some(&Item::FallingSand));
    assert_eq!(open.len(), 9);
}
