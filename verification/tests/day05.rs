use advent2022::day05::{
    lift_block, lift_single, parse_instruction, parse_stacks, part1, part2, top_stacks, Instruction,
};

const SAMPLE_INPUT: &str = "    [D]    
[N] [C]    
[Z] [M] [P]
 1   2   3 

move 1 from 2 to 1
move 3 from 1 to 3
move 2 from 2 to 1
move 1 from 1 to 2";

#[test]
fn parse_stacks_test() {
    let stack_input = "    [D]    
[N] [C]    
[Z] [M] [P]
 1   2   3 ";
    let mut stacks = parse_stacks(stack_input);
    assert_eq!(stacks.len(), 3);
    assert_eq!(stacks.get(1).unwrap().len(), 3);
    assert_eq!(stacks.get_mut(0).unwrap().pop().unwrap(), 'N');
    assert_eq!(stacks.get_mut(1).unwrap().pop().unwrap(), 'D');
    assert_eq!(stacks.get_mut(2).unwrap().pop().unwrap(), 'P');
}

#[test]
fn instruction_parsing_test() {
    let instr = "move 10 from 5 to 9".parse::<Instruction>().unwrap();
    assert_eq!(instr.n_crates, 10);
    assert_eq!(instr.from, 5);
    assert_eq!(instr.to, 9);
}

#[test]
fn day05_part1_test() {
    let answer = part1(SAMPLE_INPUT);
    assert_eq!(answer, "CMZ")
}

#[test]
fn day05_part2_test() {
    let answer = part2(SAMPLE_INPUT);
    assert_eq!(answer, "MCD")
}

#[test]
fn orders_that_are_none() {
    assert_eq!(parse_instruction(b"move 1 from 2 to 3 "), None);
    assert_eq!(parse_instruction(b"move  from 2 to 3"), None);
    assert_eq!(parse_instruction(b"move 1 from 2 to"), None);
    assert_eq!(parse_instruction(b"Move 1 from 2 to 3"), None);
    assert_eq!(parse_instruction(b"move 1 from 2 to 99999999999999999999999"), None);
    assert_eq!(parse_instruction(b"move -1 from 2 to 3"), None);
    assert!("move 1 from 2".parse::<Instruction>().is_err());
    assert_eq!(
        parse_instruction(b"move 007 from 2 to 3"),
        Some(Instruction { n_crates: 7, from: 2, to: 3 })
    );
}

#[test]
fn crane_moves() {
    let start = vec![vec!['A', 'B', 'C'], vec![], vec!['D']];
    let mut stacks = start.clone();
    lift_single(&mut stacks, &Instruction { n_crates: 2, from: 1, to: 2 });
    assert_eq!(stacks, vec![vec!['A'], vec!['C', 'B'], vec!['D']]);
    let mut stacks = start.clone();
    lift_block(&mut stacks, &Instruction { n_crates: 2, from: 1, to: 2 });
    assert_eq!(stacks, vec![vec!['A'], vec!['B', 'C'], vec!['D']]);
    let mut stacks = start.clone();
    lift_single(&mut stacks, &Instruction { n_crates: 5, from: 1, to: 1 });
    assert_eq!(stacks, start);
    lift_block(&mut stacks, &Instruction { n_crates: 3, from: 1, to: 1 });
    assert_eq!(stacks, start);
    lift_block(&mut stacks, &Instruction { n_crates: 0, from: 2, to: 3 });
    assert_eq!(stacks, start);
    assert_eq!(top_stacks(vec![vec!['A', 'B'], vec!['Z']]), "BZ");
    assert_eq!(top_stacks(vec![]), "");
}
