use advent2022::day16::{
    build_cave, compile, is_well_formed, load_cave, max_pressure, max_pressure_dual, part1, part2,
    CaveError, State,
};
use advent2022::graph::{min_dists, FAR};
use advent2022::valve::{edges, parse_input, parse_valve, Valve};

const SAMPLE_INPUT: &str = "Valve AA has flow rate=0; tunnels lead to valves DD, II, BB
Valve BB has flow rate=13; tunnels lead to valves CC, AA
Valve CC has flow rate=2; tunnels lead to valves DD, BB
Valve DD has flow rate=20; tunnels lead to valves CC, AA, EE
Valve EE has flow rate=3; tunnels lead to valves FF, DD
Valve FF has flow rate=0; tunnels lead to valves EE, GG
Valve GG has flow rate=0; tunnels lead to valves FF, HH
Valve HH has flow rate=22; tunnel leads to valve GG
Valve II has flow rate=0; tunnels lead to valves AA, JJ
Valve JJ has flow rate=21; tunnel leads to valve II";

fn valve(id: &str, flow_rate: i32, connections: &[&str]) -> Valve {
    Valve {
        id: id.as_bytes().to_vec(),
        flow_rate,
        connections: connections.iter().map(|c| c.as_bytes().to_vec()).collect(),
    }
}

fn fresh(time_remaining: i32) -> State {
    State { location: 0, open_valves: vec![], eventual_pressure: 0, time_remaining }
}

#[test]
fn parse_valve_test() {
    let (_, v1) =
        parse_valve("Valve AA has flow rate=0; tunnels lead to valves DD, II, BB").unwrap();
    assert_eq!(v1.id, b"AA");
    assert_eq!(v1.flow_rate, 0);
    assert_eq!(v1.connections, vec![b"DD".to_vec(), b"II".to_vec(), b"BB".to_vec()]);
    let (_, v1) = parse_valve("Valve HH has flow rate=22; tunnel leads to valve GG").unwrap();
    assert_eq!(v1.id, b"HH");
    assert_eq!(v1.flow_rate, 22);
    assert_eq!(v1.connections, vec![b"GG".to_vec()]);
}

#[test]
fn edges_test() {
    let valves = parse_input(SAMPLE_INPUT);
    let edges = edges(&valves);
    assert_eq!(edges.len(), 20);
    assert!(edges.contains(&(0, 1)));
    assert!(edges.contains(&(0, 3)));
    assert!(edges.contains(&(0, 8)));
}

#[test]
fn min_dists_test() {
    let valves = parse_input(SAMPLE_INPUT);
    let edges = edges(&valves);
    let adj = min_dists(edges, valves.len());
    assert_eq!(adj[0], vec![0, 1, 2, 1, 2, 3, 4, 5, 1, 2]);
}

#[test]
fn day16_part1_test() {
    let answer = part1(SAMPLE_INPUT);
    assert_eq!(answer, 1651)
}

#[test]
fn day16_part2_test() {
    let answer = part2(SAMPLE_INPUT);
    assert_eq!(answer, 1707)
}

#[test]
fn parse_valve_rest_and_errors() {
    let line = "Valve AA has flow rate=-7; tunnel leads to valve GG, HH; more";
    let (rest, v) = parse_valve(line).unwrap();
    assert_eq!(&line[rest..], "; more");
    assert_eq!(v.flow_rate, -7);
    assert_eq!(v.connections, vec![b"GG".to_vec(), b"HH".to_vec()]);
    assert!(parse_valve("valve AA has flow rate=0; tunnels lead to valves DD").is_none());
    assert!(parse_valve("Valve  has flow rate=0; tunnels lead to valves DD").is_none());
    assert!(parse_valve("Valve AA has flow rate=; tunnels lead to valves DD").is_none());
    assert!(parse_valve("Valve AA has flow rate=2147483648; tunnels lead to valves DD").is_none());
    assert!(parse_valve("Valve AA has flow rate=3; tunnels lead to valves 12").is_none());
    assert!(parse_valve("Valve AA has flow rate=3, tunnels lead to valves DD").is_none());
    let (_, v) = parse_valve("Valve AA has flow rate=2147483647 or so; tunnels leads to valve B")
        .unwrap();
    assert_eq!(v.flow_rate, 2147483647);
    assert_eq!(v.connections, vec![b"B".to_vec()]);
}

#[test]
fn parse_input_sorts_by_label() {
    let text = "Valve CC has flow rate=2; tunnels lead to valves AA\nValve AA has flow rate=0; tunnel leads to valve B\nValve B has flow rate=5; tunnel leads to valve CC\n";
    let valves = parse_input(text);
    let ids: Vec<Vec<u8>> = valves.iter().map(|v| v.id.clone()).collect();
    assert_eq!(ids, vec![b"AA".to_vec(), b"B".to_vec(), b"CC".to_vec()]);
    assert_eq!(edges(&valves), vec![(0, 1), (1, 2), (2, 0)]);
}

#[test]
fn well_formed_inputs() {
    assert!(is_well_formed(SAMPLE_INPUT));
    assert!(is_well_formed(""));
    assert!(!is_well_formed("Valve AA has flow rate=0; tunnels lead to valves DD"));
    assert!(!is_well_formed("Valve AA has flow rate=-1; tunnels lead to valves AA"));
    assert!(!is_well_formed("nonsense"));
    assert_eq!(part1(""), 0);
    assert_eq!(part2(""), 0);
}

#[test]
fn distances_are_a_metric_on_the_sample() {
    let cave = build_cave(SAMPLE_INPUT);
    let n = cave.valves.len();
    assert_eq!(n, 10);
    for i in 0..n {
        assert_eq!(cave.adj[i][i], 0);
        assert_eq!(cave.travel_time(i, i), 0);
        for j in 0..n {
            assert_eq!(cave.adj[i][j], cave.adj[j][i]);
            for k in 0..n {
                assert!(cave.adj[i][j] <= cave.adj[i][k] + cave.adj[k][j]);
            }
        }
    }
    assert_eq!(cave.flowable_valves, vec![1, 2, 3, 4, 7, 9]);
}

#[test]
fn unreachable_nodes_are_far() {
    let d = min_dists(vec![(0, 1), (1, 2)], 4);
    assert_eq!(d[0], vec![0, 1, 2, FAR]);
    assert_eq!(d[1], vec![FAR, 0, 1, FAR]);
    assert_eq!(d[2], vec![FAR, FAR, 0, FAR]);
    assert_eq!(d[3], vec![FAR, FAR, FAR, 0]);
    assert_eq!(min_dists(vec![(0, 0)], 1), vec![vec![0]]);
    assert!(min_dists(vec![], 0).is_empty());
}

#[test]
fn more_time_releases_no_less() {
    let cave = build_cave(SAMPLE_INPUT);
    let mut last = 0;
    for t in 0..=30 {
        let got = max_pressure(&cave, fresh(t));
        assert!(got >= last);
        last = got;
    }
    assert_eq!(last, 1651);
    assert_eq!(max_pressure(&cave, fresh(0)), 0);
    assert_eq!(max_pressure(&cave, fresh(1)), 0);
    assert_eq!(max_pressure(&cave, fresh(3)), 20);
}

#[test]
fn no_valuable_valves_release_nothing() {
    let cave = compile(vec![valve("AA", 0, &["BB"]), valve("BB", 0, &["AA"])]);
    assert!(cave.flowable_valves.is_empty());
    for t in 0..=30 {
        assert_eq!(max_pressure(&cave, fresh(t)), 0);
        assert_eq!(max_pressure_dual(&cave, t), 0);
    }
    let kept = State { location: 1, open_valves: vec![], eventual_pressure: 42, time_remaining: 9 };
    assert_eq!(max_pressure(&cave, kept), 42);
}

#[test]
fn one_valuable_valve() {
    // AA - BB - CC - DD, only DD has a flow: 3 hops from the start.
    let cave = compile(vec![
        valve("AA", 0, &["BB"]),
        valve("BB", 0, &["AA", "CC"]),
        valve("CC", 0, &["BB", "DD"]),
        valve("DD", 7, &["CC"]),
    ]);
    assert_eq!(cave.travel_time(0, 3), 3);
    for t in 0..=30 {
        let expected = if t > 3 { 7 * (t as i64 - 3 - 1) } else { 0 };
        assert_eq!(max_pressure(&cave, fresh(t)), expected);
    }
    assert_eq!(max_pressure_dual(&cave, 26), 7 * 22);
}

#[test]
fn open_valves_are_not_opened_again() {
    let cave = build_cave(SAMPLE_INPUT);
    let state = State {
        location: 0,
        open_valves: vec![3, 1],
        eventual_pressure: 100,
        time_remaining: 30,
    };
    assert_eq!(cave.openable_valves(&state), vec![2, 4, 7, 9]);
    let all_open = State {
        location: 0,
        open_valves: vec![1, 2, 3, 4, 7, 9],
        eventual_pressure: 100,
        time_remaining: 30,
    };
    assert!(cave.openable_valves(&all_open).is_empty());
    assert_eq!(max_pressure(&cave, all_open), 100);
}

#[test]
fn dual_agents_on_the_sample() {
    let cave = build_cave(SAMPLE_INPUT);
    assert_eq!(max_pressure_dual(&cave, 26), 1707);
    assert_eq!(max_pressure_dual(&cave, 0), 0);
}

#[test]
fn caves_that_cannot_be_loaded() {
    assert!(load_cave(SAMPLE_INPUT).is_ok());
    assert_eq!(load_cave("nonsense").err(), Some(CaveError::Malformed));
    let dangling = "Valve AA has flow rate=0; tunnels lead to valves DD";
    assert_eq!(load_cave(dangling).err(), Some(CaveError::Inconsistent));
    let negative = "Valve AA has flow rate=-1; tunnels lead to valves AA";
    assert_eq!(load_cave(negative).err(), Some(CaveError::Inconsistent));
    let cave = load_cave("Valve B has flow rate=4; tunnel leads to valve A\nValve A has flow rate=0; tunnel leads to valve B").unwrap();
    assert_eq!(cave.valves[0].id, b"A");
    assert_eq!(cave.flowable_valves, vec![1]);
    assert_eq!(max_pressure(&cave, fresh(30)), 4 * 28);
}

#[test]
fn the_order_of_open_valves_does_not_matter() {
    let cave = build_cave(SAMPLE_INPUT);
    let one = State { location: 3, open_valves: vec![3, 1, 9], eventual_pressure: 7, time_remaining: 20 };
    let other = State { location: 3, open_valves: vec![9, 9, 3, 1], eventual_pressure: 7, time_remaining: 20 };
    assert_eq!(max_pressure(&cave, one), max_pressure(&cave, other));
}
