use advent2022::day11::{
    monkey, monkey_business, parse_input, part1, part2, split_blocks, Monkey, Operand, Operation,
    Operator,
};

const SAMPLE_INPUT: &str = "Monkey 0:
  Starting items: 79, 98
  Operation: new = old * 19
  Test: divisible by 23
    If true: throw to monkey 2
    If false: throw to monkey 3

Monkey 1:
  Starting items: 54, 65, 75, 74
  Operation: new = old + 6
  Test: divisible by 19
    If true: throw to monkey 2
    If false: throw to monkey 0

Monkey 2:
  Starting items: 79, 60, 97
  Operation: new = old * old
  Test: divisible by 13
    If true: throw to monkey 1
    If false: throw to monkey 3

Monkey 3:
  Starting items: 74
  Operation: new = old + 3
  Test: divisible by 17
    If true: throw to monkey 0
    If false: throw to monkey 1
";

#[test]
fn day11_parser_test() {
    let monkeys = parse_input(SAMPLE_INPUT);
    assert_eq!(monkeys.len(), 4);
    assert_eq!(monkeys[0].n, 0);
    assert_eq!(monkeys[0].items, vec![79, 98]);
}

#[test]
fn monkey_inspection_test() {
    let monkey = &parse_input(SAMPLE_INPUT)[0];
    let worry = monkey.inspect(monkey.items[0]);
    assert_eq!(worry, 1501);
}

#[test]
fn monkey_throw_test() {
    let monkey = &parse_input(SAMPLE_INPUT)[0];
    let throw_to = monkey.throw(500);
    assert_eq!(throw_to, 3);
}

#[test]
fn monkey_take_turn_test() {
    let monkey = &parse_input(SAMPLE_INPUT)[0];
    let thrown = monkey.take_turn(&monkey.items, Some(3), None);
    assert_eq!(thrown, vec![(3, 500), (3, 620)]);
}

#[test]
fn day11_part1_test() {
    let answer = part1(SAMPLE_INPUT);
    assert_eq!(answer, 10605)
}

#[test]
fn day11_part2_test() {
    let answer = part2(SAMPLE_INPUT);
    assert_eq!(answer, 2713310158)
}

#[test]
fn monkey_descriptions() {
    let monkeys = parse_input(SAMPLE_INPUT);
    assert_eq!(
        monkeys[2].operation,
        Operation { a: Operand::VAR, op: Operator::MULT, b: Operand::VAR }
    );
    assert_eq!(
        monkeys[3].operation,
        Operation { a: Operand::VAR, op: Operator::ADD, b: Operand::INT(3) }
    );
    assert_eq!(monkeys[1].divisible_by, 19);
    assert_eq!((monkeys[1].if_true, monkeys[1].if_false), (2, 0));
    assert_eq!(monkeys[3].items, vec![74]);
    assert_eq!(monkeys[3].inspections, 0);
    assert!(monkey(b"Monkey 0:\n  Starting items: \n").is_none());
    assert!(monkey(b"Monkey x:").is_none());
    assert!(monkey(b"").is_none());
    assert!(monkey(b"Monkey 4294967296:\n  Starting items: 1").is_none());
    assert_eq!(split_blocks(b"a\n\nb\n\n\nc"), vec![b"a".to_vec(), b"b".to_vec(), b"\nc".to_vec()]);
    assert_eq!(split_blocks(b""), vec![b"".to_vec()]);
    assert_eq!(split_blocks(b"a\n\n"), vec![b"a".to_vec(), b"".to_vec()]);
}

fn idle(n: u32, inspections: u64) -> Monkey {
    Monkey {
        n,
        items: vec![],
        operation: Operation { a: Operand::VAR, op: Operator::ADD, b: Operand::INT(1) },
        divisible_by: 2,
        if_true: 0,
        if_false: 0,
        inspections,
    }
}

#[test]
fn business_of_small_troops() {
    assert_eq!(monkey_business(vec![], 5, None, None), 1);
    assert_eq!(monkey_business(vec![idle(0, 7)], 5, None, None), 7);
    assert_eq!(monkey_business(vec![idle(0, 7), idle(1, 3), idle(2, 5)], 0, None, None), 35);
    let mut thrower = idle(0, 0);
    thrower.items = vec![1, 2, 3];
    thrower.if_true = 1;
    // Round one: monkey 0 inspects three items; 2 and 4 go to monkey 1, who hands
    // them back in the same round, and 3 stays with monkey 0.
    assert_eq!(monkey_business(vec![thrower, idle(1, 0)], 1, None, None), 6);
}
