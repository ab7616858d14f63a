use advent2022::day12::{parse_input, part1, part2, shortest_path, val, Matrix, Slope, Target};

const SAMPLE_INPUT: &str = "Sabqponm
abcryxxl
accszExk
acctuvwj
abdefghi";

#[test]
fn val_test() {
    assert_eq!(val(&'a'), 0);
    assert_eq!(val(&'z'), 25);
    assert_eq!(val(&'S'), 0);
    assert_eq!(val(&'E'), 25);
}

#[test]
fn other_marks() {
    assert_eq!(val(&'b'), 1);
    assert_eq!(val(&'B'), 1);
    assert_eq!(val(&'Z'), 25);
    assert_eq!(val(&'0'), -10);
    assert_eq!(val(&'9'), -1);
}

#[test]
fn map_is_read() {
    let map = parse_input(SAMPLE_INPUT);
    assert_eq!((map.topo.m, map.topo.n), (5, 8));
    assert_eq!(map.start, (0, 0));
    assert_eq!(map.end, (2, 5));
    assert_eq!(map.topo.get(&(2, 5)), Some(&b'E'));
    assert_eq!(map.topo.get(&(5, 0)), None);
    assert_eq!(map.topo.get(&(0, -1)), None);
    assert_eq!(map.topo.neighbors(&(0, 0)), vec![(1, 0), (0, 1)]);
    assert_eq!(map.topo.neighbors(&(1, 1)), vec![(2, 1), (0, 1), (1, 2), (1, 0)]);
    assert_eq!(map.topo.neighbors(&(4, 7)), vec![(3, 7), (4, 6)]);
    let twice = parse_input("SxS\nEEx");
    assert_eq!(twice.start, (0, 2));
    assert_eq!(twice.end, (1, 1));
}

#[test]
fn matrix_set() {
    let mut grid = Matrix { inner: vec![vec![0, 0], vec![0, 0], vec![0, 0]], m: 3, n: 2 };
    grid.set(&(2, 1), 7);
    assert_eq!(grid.inner, vec![vec![0, 0], vec![0, 0], vec![0, 7]]);
    assert_eq!(grid.get(&(2, 1)), Some(&7));
}

#[test]
fn day12_part1_test() {
    let answer = part1(SAMPLE_INPUT);
    assert_eq!(answer, 31)
}

#[test]
fn day12_part2_test() {
    let answer = part2(SAMPLE_INPUT);
    assert_eq!(answer, 29)
}

#[test]
fn searches_without_a_goal() {
    // No E anywhere: one more than the farthest place is away.
    assert_eq!(part1("Sab"), 3);
    assert_eq!(part1("S"), 1);
    // The goal cannot be climbed to.
    assert_eq!(part1("SaE"), 2);
    assert_eq!(part1("SbE"), 2);
    assert_eq!(part1("SyE\nabz"), 3);
    let map = parse_input("abc\nfed");
    assert_eq!(shortest_path(&map.topo, (0, 0), Slope::Climbing, Target::End), 6);
    assert_eq!(shortest_path(&map.topo, (1, 0), Slope::Descending, Target::Lowest), 5);
    assert_eq!(shortest_path(&map.topo, (0, 1), Slope::Descending, Target::Lowest), 1);
}
