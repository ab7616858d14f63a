use advent2022::day10::{execute, parse_instruction, parse_instruction_bytes, part1, part2, Instruction};

const SAMPLE_INPUT: &str = "addx 15
addx -11
addx 6
addx -3
addx 5
addx -1
addx -8
addx 13
addx 4
noop
addx -1
addx 5
addx -1
addx 5
addx -1
addx 5
addx -1
addx 5
addx -1
addx -35
addx 1
addx 24
addx -19
addx 1
addx 16
addx -11
noop
noop
addx 21
addx -15
noop
noop
addx -3
addx 9
addx 1
addx -3
addx 8
addx 1
addx 5
noop
noop
noop
noop
noop
addx -36
noop
addx 1
addx 7
noop
noop
noop
addx 2
addx 6
noop
noop
noop
noop
noop
addx 1
noop
noop
addx 7
addx 1
noop
addx -13
addx 13
addx 7
noop
addx 1
addx -33
noop
noop
noop
addx 2
noop
noop
noop
addx 8
noop
addx -1
addx 2
addx 1
noop
addx 17
addx -9
addx 1
addx 1
addx -3
addx 11
noop
noop
addx 1
noop
addx 1
noop
noop
addx -13
addx -19
addx 1
addx 3
addx 26
addx -30
addx 12
addx -1
addx 3
addx 1
noop
noop
noop
addx -9
addx 18
addx 1
addx 2
noop
noop
addx 9
noop
noop
noop
addx -1
addx 2
addx -37
addx 1
addx 3
noop
addx 15
addx -21
addx 22
addx -6
addx 1
noop
addx 2
addx 1
noop
addx -10
noop
noop
addx 20
addx 1
addx 2
addx 2
addx -6
addx -11
noop
noop
noop";

#[test]
fn small_example() {
    let program = "noop
addx 3
addx -5";
    let x_hist = execute(program.lines().map(parse_instruction).collect());
    assert_eq!(x_hist, vec![1, 1, 1, 4, 4, -1])
}

#[test]
fn day10_part1_test() {
    let answer = part1(SAMPLE_INPUT);
    assert_eq!(answer, 13140)
}

#[test]
fn day10_part2_test() {
    let answer = part2(SAMPLE_INPUT);
    let expected = "
##..##..##..##..##..##..##..##..##..##..
###...###...###...###...###...###...###.
####....####....####....####....####....
#####.....#####.....#####.....#####.....
######......######......######......####
#######.......#######.......#######.....
";
    assert_eq!(answer, expected);
}

#[test]
fn instructions() {
    assert_eq!(parse_instruction_bytes(b"noop"), Some(Instruction::NOOP));
    assert_eq!(parse_instruction_bytes(b"noop and more"), Some(Instruction::NOOP));
    assert_eq!(parse_instruction_bytes(b"addx 17"), Some(Instruction::ADDX(17)));
    assert_eq!(parse_instruction_bytes(b"addx +17 "), Some(Instruction::ADDX(17)));
    assert_eq!(parse_instruction_bytes(b"addx -2147483648"), Some(Instruction::ADDX(i32::MIN)));
    assert_eq!(parse_instruction_bytes(b"addx 2147483648"), None);
    assert_eq!(parse_instruction_bytes(b"addx"), None);
    assert_eq!(parse_instruction_bytes(b"addx x"), None);
    assert_eq!(parse_instruction_bytes(b"add 1"), None);
    assert_eq!(parse_instruction_bytes(b""), None);
    assert_eq!(execute(vec![]), vec![1]);
    assert_eq!(execute(vec![Instruction::ADDX(-1), Instruction::NOOP]), vec![1, 1, 0, 0]);
}
