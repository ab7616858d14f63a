//! Monkeys that inspect items and throw them to each other.

use crate::day01::{arg_max, lemma_arg_max};
use crate::text::{all_digits, copy_range, digits_value, parse_digits};
use crate::valve::{digit_end, digit_run, has_at, lemma_digit_end, starts_at, tag_comma};
use vstd::prelude::*;
use vstd::string::StringSliceAdditionalSpecFns;

verus! {

/// How an operation combines its operands.
#[derive(Clone, Copy, Debug, PartialEq, Eq)]
pub enum Operator {
    MULT,
    ADD,
}

/// An operand: the item itself, or a number.
#[derive(Clone, Copy, Debug, PartialEq, Eq)]
pub enum Operand {
    VAR,
    INT(u64),
}

/// What a monkey does to the worry level of an item.
#[derive(Clone, Copy, Debug, PartialEq, Eq)]
pub struct Operation {
    pub a: Operand,
    pub op: Operator,
    pub b: Operand,
}

/// A monkey with the items it holds.
#[derive(Debug)]
pub struct Monkey {
    pub n: u32,
    pub items: Vec<u64>,
    pub operation: Operation,
    pub divisible_by: u64,
    pub if_true: u32,
    pub if_false: u32,
    pub inspections: u64,
}

/// A monkey as plain values.
pub ghost struct MonkeyModel {
    pub n: u32,
    pub items: Seq<u64>,
    pub operation: Operation,
    pub divisible_by: u64,
    pub if_true: u32,
    pub if_false: u32,
    pub inspections: u64,
}

impl View for Monkey {
    type V = MonkeyModel;

    open spec fn view(&self) -> MonkeyModel {
        MonkeyModel {
            n: self.n,
            items: self.items@,
            operation: self.operation,
            divisible_by: self.divisible_by,
            if_true: self.if_true,
            if_false: self.if_false,
            inspections: self.inspections,
        }
    }
}

/// The models of a sequence of monkeys.
pub open spec fn troop(ms: Seq<Monkey>) -> Seq<MonkeyModel> {
    Seq::new(ms.len(), |i: int| ms[i]@)
}

/// The text "Monkey ".
pub open spec fn tag_monkey() -> Seq<u8> {
    seq![77u8, 111u8, 110u8, 107u8, 101u8, 121u8, 32u8]
}

/// The text that leads to the items: a colon, a line feed and "  Starting items: ".
pub open spec fn tag_items() -> Seq<u8> {
    seq![58u8, 10u8, 32u8, 32u8, 83u8, 116u8, 97u8, 114u8, 116u8, 105u8, 110u8, 103u8, 32u8, 105u8, 116u8, 101u8, 109u8, 115u8, 58u8, 32u8]
}

/// The text that leads to the operation: a line feed and "  Operation: new = ".
pub open spec fn tag_operation() -> Seq<u8> {
    seq![10u8, 32u8, 32u8, 79u8, 112u8, 101u8, 114u8, 97u8, 116u8, 105u8, 111u8, 110u8, 58u8, 32u8, 110u8, 101u8, 119u8, 32u8, 61u8, 32u8]
}

/// The text "old".
pub open spec fn tag_old() -> Seq<u8> {
    seq![111u8, 108u8, 100u8]
}

/// The text " + ".
pub open spec fn tag_plus() -> Seq<u8> {
    seq![32u8, 43u8, 32u8]
}

/// The text " * ".
pub open spec fn tag_times() -> Seq<u8> {
    seq![32u8, 42u8, 32u8]
}

/// The text that leads to the divisor: a line feed and "  Test: divisible by ".
pub open spec fn tag_test() -> Seq<u8> {
    seq![10u8, 32u8, 32u8, 84u8, 101u8, 115u8, 116u8, 58u8, 32u8, 100u8, 105u8, 118u8, 105u8, 115u8, 105u8, 98u8, 108u8, 101u8, 32u8, 98u8, 121u8, 32u8]
}

/// The text that leads to the first target: a line feed and "    If true: throw to monkey ".
pub open spec fn tag_true() -> Seq<u8> {
    seq![10u8, 32u8, 32u8, 32u8, 32u8, 73u8, 102u8, 32u8, 116u8, 114u8, 117u8, 101u8, 58u8, 32u8, 116u8, 104u8, 114u8, 111u8, 119u8, 32u8, 116u8, 111u8, 32u8, 109u8, 111u8, 110u8, 107u8, 101u8, 121u8, 32u8]
}

/// The text that leads to the second target: a line feed and "    If false: throw to monkey ".
pub open spec fn tag_false() -> Seq<u8> {
    seq![10u8, 32u8, 32u8, 32u8, 32u8, 73u8, 102u8, 32u8, 102u8, 97u8, 108u8, 115u8, 101u8, 58u8, 32u8, 116u8, 104u8, 114u8, 111u8, 119u8, 32u8, 116u8, 111u8, 32u8, 109u8, 111u8, 110u8, 107u8, 101u8, 121u8, 32u8]
}

/// Two line feeds.
pub open spec fn tag_gap() -> Seq<u8> {
    seq![10u8, 10u8]
}

/// The number written in digits at `at`, no larger than `limit`, with the position
/// behind its last digit.
pub open spec fn unsigned_at(s: Seq<u8>, at: int, limit: int) -> Option<(int, int)> {
    let e = digit_end(s, at);
    if 0 <= at < e && digits_value(s.subrange(at, e)) <= limit {
        Some((digits_value(s.subrange(at, e)) as int, e))
    } else {
        None
    }
}

/// Whether another number follows the one that ends at `e`: a comma, a blank, and a
/// number that fits in `u64`.
pub open spec fn more_numbers(s: Seq<u8>, e: int) -> bool {
    has_at(s, e, tag_comma()) && unsigned_at(s, e + 2, u64::MAX as int) is Some
}

/// The numbers of a list that starts at `at`, separated by a comma and a blank.
pub open spec fn numbers_from(s: Seq<u8>, at: int) -> Seq<u64>
    decreases s.len() - at,
    via numbers_from_terminates
{
    match unsigned_at(s, at, u64::MAX as int) {
        None => Seq::empty(),
        Some((v, e)) => if more_numbers(s, e) {
            seq![v as u64] + numbers_from(s, e + 2)
        } else {
            seq![v as u64]
        },
    }
}

/// Shows that the recursion above ends.
#[via_fn]
proof fn numbers_from_terminates(s: Seq<u8>, at: int) {
    if 0 <= at <= s.len() {
        lemma_digit_end(s, at);
    }
}

/// Where the list of numbers that starts at `at` ends.
pub open spec fn numbers_end(s: Seq<u8>, at: int) -> int
    decreases s.len() - at,
    via numbers_end_terminates
{
    match unsigned_at(s, at, u64::MAX as int) {
        None => at,
        Some((v, e)) => if more_numbers(s, e) {
            numbers_end(s, e + 2)
        } else {
            e
        },
    }
}

/// Shows that the recursion above ends.
#[via_fn]
proof fn numbers_end_terminates(s: Seq<u8>, at: int) {
    if 0 <= at <= s.len() {
        lemma_digit_end(s, at);
    }
}

/// The operand at `at` with the position behind it: "old", or a number.
pub open spec fn operand_at(s: Seq<u8>, at: int) -> Option<(Operand, int)> {
    if has_at(s, at, tag_old()) {
        Some((Operand::VAR, at + 3))
    } else {
        match unsigned_at(s, at, u64::MAX as int) {
            Some((v, e)) => Some((Operand::INT(v as u64), e)),
            None => None,
        }
    }
}

/// The operator at `at`: " + " or " * ".
pub open spec fn operator_at(s: Seq<u8>, at: int) -> Option<Operator> {
    if has_at(s, at, tag_plus()) {
        Some(Operator::ADD)
    } else if has_at(s, at, tag_times()) {
        Some(Operator::MULT)
    } else {
        None
    }
}

/// The three numbers that end a description, from position `e` on: the divisor and
/// the two targets.
pub open spec fn parsed_test(s: Seq<u8>, e: int) -> Option<(u64, u32, u32)> {
    if !has_at(s, e, tag_test()) {
        None
    } else {
        match unsigned_at(s, e + 22, u64::MAX as int) {
            None => None,
            Some((div, f)) => if !has_at(s, f, tag_true()) {
                None
            } else {
                match unsigned_at(s, f + 30, u32::MAX as int) {
                    None => None,
                    Some((yes, g)) => if !has_at(s, g, tag_false()) {
                        None
                    } else {
                        match unsigned_at(s, g + 31, u32::MAX as int) {
                            None => None,
                            Some((no, h)) => Some((div as u64, yes as u32, no as u32)),
                        }
                    },
                }
            },
        }
    }
}

/// The operation of a description, from position `c` on, with the position behind it.
pub open spec fn parsed_operation(s: Seq<u8>, c: int) -> Option<(Operation, int)> {
    if !has_at(s, c, tag_operation()) {
        None
    } else {
        match operand_at(s, c + 20) {
            None => None,
            Some((a, d)) => match operator_at(s, d) {
                None => None,
                Some(op) => match operand_at(s, d + 3) {
                    None => None,
                    Some((b, e)) => Some((Operation { a, op, b }, e)),
                },
            },
        }
    }
}

/// The monkey that a text starts with the description of, if it does.
pub open spec fn parsed_monkey(s: Seq<u8>) -> Option<MonkeyModel> {
    if !has_at(s, 0, tag_monkey()) {
        None
    } else {
        match unsigned_at(s, 7, u32::MAX as int) {
            None => None,
            Some((n, a)) => if !has_at(s, a, tag_items()) || unsigned_at(
                s,
                a + 20,
                u64::MAX as int,
            ) is None {
                None
            } else {
                match parsed_operation(s, numbers_end(s, a + 20)) {
                    None => None,
                    Some((operation, e)) => match parsed_test(s, e) {
                        None => None,
                        Some((div, yes, no)) => Some(
                            MonkeyModel {
                                n: n as u32,
                                items: numbers_from(s, a + 20),
                                operation,
                                divisible_by: div,
                                if_true: yes,
                                if_false: no,
                                inspections: 0,
                            },
                        ),
                    },
                }
            },
        }
    }
}

/// Reads the number written in digits at `at`, if it is no larger than `limit`.
pub fn number_at(s: &[u8], at: usize, limit: u64) -> (r: Option<(u64, usize)>)
    requires
        at <= s@.len(),
    ensures
        match unsigned_at(s@, at as int, limit as int) {
            Some((v, e)) => r == Some((v as u64, e as usize)) && at < e <= s@.len(),
            None => r is None,
        },
{
    let e: usize = digit_run(s, at);
    if e == at {
        return None;
    }
    let token = copy_range(s, at, e);
    proof {
        assert(token@.skip(0) =~= token@);
        lemma_run_is_digits(s@, at as int);
    }
    match parse_digits(token.as_slice(), 0, limit) {
        Some(v) => Some((v, e)),
        None => None,
    }
}

/// A run of digits holds digits only.
pub proof fn lemma_run_is_digits(s: Seq<u8>, at: int)
    requires
        0 <= at <= s.len(),
    ensures
        at <= digit_end(s, at) <= s.len(),
        all_digits(s.subrange(at, digit_end(s, at))),
    decreases s.len() - at,
{
    let e = digit_end(s, at);
    if at < s.len() && crate::text::is_digit(s[at]) {
        lemma_run_is_digits(s, at + 1);
        let here = s.subrange(at, e);
        let rest = s.subrange(at + 1, e);
        assert forall|i: int| 0 <= i < here.len() implies crate::text::is_digit(#[trigger] here[i]) by {
            if i > 0 {
                assert(here[i] == rest[i - 1]);
            }
        }
    }
}

/// Reads the list of numbers that starts at `at`, where a number stands.
pub fn parse_numbers(s: &[u8], at: usize) -> (r: (Vec<u64>, usize))
    requires
        at <= s@.len(),
        unsigned_at(s@, at as int, u64::MAX as int) is Some,
    ensures
        r.0@ == numbers_from(s@, at as int),
        r.1 == numbers_end(s@, at as int),
        r.1 <= s@.len(),
{
    let n: usize = s.len();
    let comma: Vec<u8> = vec![44u8, 32u8];
    assert(comma@ =~= tag_comma());
    assert(tag_comma().len() == 2);
    let mut out: Vec<u64> = Vec::new();
    let mut cur: usize = at;
    loop
        invariant
            n == s@.len(),
            comma@ == tag_comma(),
            at <= cur <= n,
            unsigned_at(s@, cur as int, u64::MAX as int) is Some,
            numbers_from(s@, at as int) == out@ + numbers_from(s@, cur as int),
            numbers_end(s@, at as int) == numbers_end(s@, cur as int),
        decreases n - cur,
    {
        let (v, e) = match number_at(s, cur, u64::MAX) {
            Some(found) => found,
            None => (0, cur),
        };
        let ghost before = out@;
        out.push(v);
        let more: bool = starts_at(s, e, &comma) && number_at(s, e + 2, u64::MAX).is_some();
        if !more {
            assert(out@ =~= before + seq![v]);
            return (out, e);
        }
        assert(before + (seq![v] + numbers_from(s@, e + 2)) =~= (before + seq![v]) + numbers_from(
            s@,
            e + 2,
        ));
        assert(out@ =~= before + seq![v]);
        cur = e + 2;
    }
}

/// Reads an operand.
pub fn parse_operand(s: &[u8], at: usize) -> (r: Option<(Operand, usize)>)
    requires
        at <= s@.len(),
    ensures
        match operand_at(s@, at as int) {
            Some((o, e)) => r == Some((o, e as usize)) && at < e <= s@.len(),
            None => r is None,
        },
{
    let n: usize = s.len();
    let old_tag: Vec<u8> = vec![111u8, 108u8, 100u8];
    assert(old_tag@ =~= tag_old());
    assert(tag_old().len() == 3);
    if starts_at(s, at, &old_tag) {
        return Some((Operand::VAR, at + 3));
    }
    match number_at(s, at, u64::MAX) {
        Some((v, e)) => Some((Operand::INT(v), e)),
        None => None,
    }
}

/// Reads an operator.
pub fn parse_operator(s: &[u8], at: usize) -> (r: Option<Operator>)
    requires
        at <= s@.len(),
    ensures
        r == operator_at(s@, at as int),
        r is Some ==> at + 3 <= s@.len(),
{
    let n: usize = s.len();
    let plus: Vec<u8> = vec![32u8, 43u8, 32u8];
    let times: Vec<u8> = vec![32u8, 42u8, 32u8];
    assert(plus@ =~= tag_plus());
    assert(times@ =~= tag_times());
    assert(tag_plus().len() == 3 && tag_times().len() == 3);
    if starts_at(s, at, &plus) {
        Some(Operator::ADD)
    } else if starts_at(s, at, &times) {
        Some(Operator::MULT)
    } else {
        None
    }
}

/// Reads the operation of a description.
pub fn parse_operation(s: &[u8], c: usize) -> (r: Option<(Operation, usize)>)
    requires
        c <= s@.len(),
    ensures
        match parsed_operation(s@, c as int) {
            Some((o, e)) => r == Some((o, e as usize)) && e <= s@.len(),
            None => r is None,
        },
{
    let n: usize = s.len();
    let lead: Vec<u8> = vec![10u8, 32u8, 32u8, 79u8, 112u8, 101u8, 114u8, 97u8, 116u8, 105u8, 111u8, 110u8, 58u8, 32u8, 110u8, 101u8, 119u8, 32u8, 61u8, 32u8];
    assert(lead@ =~= tag_operation());
    assert(tag_operation().len() == 20);
    if !starts_at(s, c, &lead) {
        return None;
    }
    let (a, d) = match parse_operand(s, c + 20) {
        Some(found) => found,
        None => {
            return None;
        },
    };
    let op = match parse_operator(s, d) {
        Some(found) => found,
        None => {
            return None;
        },
    };
    match parse_operand(s, d + 3) {
        Some((b, e)) => Some((Operation { a, op, b }, e)),
        None => None,
    }
}

/// Reads the divisor and the two targets of a description.
pub fn parse_test(s: &[u8], e: usize) -> (r: Option<(u64, u32, u32)>)
    requires
        e <= s@.len(),
    ensures
        r == parsed_test(s@, e as int),
{
    let n: usize = s.len();
    let test: Vec<u8> = vec![10u8, 32u8, 32u8, 84u8, 101u8, 115u8, 116u8, 58u8, 32u8, 100u8, 105u8, 118u8, 105u8, 115u8, 105u8, 98u8, 108u8, 101u8, 32u8, 98u8, 121u8, 32u8];
    let yes_tag: Vec<u8> = vec![10u8, 32u8, 32u8, 32u8, 32u8, 73u8, 102u8, 32u8, 116u8, 114u8, 117u8, 101u8, 58u8, 32u8, 116u8, 104u8, 114u8, 111u8, 119u8, 32u8, 116u8, 111u8, 32u8, 109u8, 111u8, 110u8, 107u8, 101u8, 121u8, 32u8];
    let no_tag: Vec<u8> = vec![10u8, 32u8, 32u8, 32u8, 32u8, 73u8, 102u8, 32u8, 102u8, 97u8, 108u8, 115u8, 101u8, 58u8, 32u8, 116u8, 104u8, 114u8, 111u8, 119u8, 32u8, 116u8, 111u8, 32u8, 109u8, 111u8, 110u8, 107u8, 101u8, 121u8, 32u8];
    assert(test@ =~= tag_test());
    assert(yes_tag@ =~= tag_true());
    assert(no_tag@ =~= tag_false());
    assert(tag_test().len() == 22 && tag_true().len() == 30 && tag_false().len() == 31);
    if !starts_at(s, e, &test) {
        return None;
    }
    let (div, f) = match number_at(s, e + 22, u64::MAX) {
        Some(found) => found,
        None => {
            return None;
        },
    };
    if !starts_at(s, f, &yes_tag) {
        return None;
    }
    let (yes, g) = match number_at(s, f + 30, 0xffff_ffff) {
        Some(found) => found,
        None => {
            return None;
        },
    };
    if !starts_at(s, g, &no_tag) {
        return None;
    }
    match number_at(s, g + 31, 0xffff_ffff) {
        Some((no, h)) => Some((div, yes as u32, no as u32)),
        None => None,
    }
}

/// Reads the description of a monkey that a text starts with.
pub fn monkey(s: &[u8]) -> (r: Option<Monkey>)
    ensures
        match parsed_monkey(s@) {
            Some(m) => r is Some && r.unwrap()@ == m,
            None => r is None,
        },
{
    let len: usize = s.len();
    let lead: Vec<u8> = vec![77u8, 111u8, 110u8, 107u8, 101u8, 121u8, 32u8];
    let items_tag: Vec<u8> = vec![58u8, 10u8, 32u8, 32u8, 83u8, 116u8, 97u8, 114u8, 116u8, 105u8, 110u8, 103u8, 32u8, 105u8, 116u8, 101u8, 109u8, 115u8, 58u8, 32u8];
    assert(lead@ =~= tag_monkey());
    assert(items_tag@ =~= tag_items());
    assert(tag_monkey().len() == 7 && tag_items().len() == 20);
    if !starts_at(s, 0, &lead) {
        return None;
    }
    let (n, a) = match number_at(s, 7, 0xffff_ffff) {
        Some(found) => found,
        None => {
            return None;
        },
    };
    if !starts_at(s, a, &items_tag) {
        return None;
    }
    if number_at(s, a + 20, u64::MAX).is_none() {
        return None;
    }
    let (items, c) = parse_numbers(s, a + 20);
    let (operation, e) = match parse_operation(s, c) {
        Some(found) => found,
        None => {
            return None;
        },
    };
    match parse_test(s, e) {
        Some((divisible_by, if_true, if_false)) => Some(
            Monkey { n: n as u32, items, operation, divisible_by, if_true, if_false, inspections: 0 },
        ),
        None => None,
    }
}

/// Index of the first pair of line feeds at or after `from`, or `s.len()` without one.
pub open spec fn gap_at(s: Seq<u8>, from: int) -> int
    decreases s.len() - from,
{
    if from < 0 || from >= s.len() {
        s.len() as int
    } else if has_at(s, from, tag_gap()) {
        from
    } else {
        gap_at(s, from + 1)
    }
}

/// The first pair of line feeds lies at or after `from`, with both feeds inside the text.
pub proof fn lemma_gap_at(s: Seq<u8>, from: int)
    requires
        0 <= from <= s.len(),
    ensures
        from <= gap_at(s, from) <= s.len(),
        gap_at(s, from) < s.len() ==> gap_at(s, from) + 2 <= s.len(),
    decreases s.len() - from,
{
    if from < s.len() && !has_at(s, from, tag_gap()) {
        lemma_gap_at(s, from + 1);
    }
}

/// The blocks of `s` from `from` on: the text between pairs of line feeds. There is
/// always a last block, which may be empty.
pub open spec fn blocks_from(s: Seq<u8>, from: int) -> Seq<Seq<u8>>
    decreases s.len() - from,
    via blocks_from_terminates
{
    if from < 0 || from > s.len() {
        Seq::empty()
    } else {
        let g = gap_at(s, from);
        if g >= s.len() {
            seq![s.subrange(from, s.len() as int)]
        } else {
            seq![s.subrange(from, g)] + blocks_from(s, g + 2)
        }
    }
}

/// Shows that the recursion above ends.
#[via_fn]
proof fn blocks_from_terminates(s: Seq<u8>, from: int) {
    if 0 <= from <= s.len() {
        lemma_gap_at(s, from);
    }
}

/// Whether every block of the text starts with the description of a monkey.
pub open spec fn all_monkeys(s: Seq<u8>) -> bool {
    forall|i: int|
        0 <= i < blocks_from(s, 0).len() ==> parsed_monkey(#[trigger] blocks_from(s, 0)[i]) is Some
}

/// The monkeys that the blocks of the text describe.
pub open spec fn parsed_troop(s: Seq<u8>) -> Seq<MonkeyModel> {
    Seq::new(blocks_from(s, 0).len(), |i: int| parsed_monkey(blocks_from(s, 0)[i]).unwrap())
}

/// Splits a text into its blocks.
pub fn split_blocks(s: &[u8]) -> (r: Vec<Vec<u8>>)
    ensures
        crate::text::rows_of(r@) == blocks_from(s@, 0),
{
    let n: usize = s.len();
    let gap: Vec<u8> = vec![10u8, 10u8];
    assert(gap@ =~= tag_gap());
    assert(tag_gap().len() == 2);
    let mut out: Vec<Vec<u8>> = Vec::new();
    let mut from: usize = 0;
    loop
        invariant
            n == s@.len(),
            gap@ == tag_gap(),
            from <= n,
            blocks_from(s@, 0) == crate::text::rows_of(out@) + blocks_from(s@, from as int),
        decreases n - from,
    {
        let mut g: usize = from;
        while g < n && !starts_at(s, g, &gap)
            invariant
                n == s@.len(),
                gap@ == tag_gap(),
                from <= g <= n,
                gap_at(s@, from as int) == gap_at(s@, g as int),
            decreases n - g,
        {
            g += 1;
        }
        let ghost before = crate::text::rows_of(out@);
        let block = copy_range(s, from, g);
        out.push(block);
        assert(crate::text::rows_of(out@) =~= before + seq![s@.subrange(from as int, g as int)]);
        if g >= n {
            return out;
        }
        assert(before + (seq![s@.subrange(from as int, g as int)] + blocks_from(s@, g + 2)) =~= (
        before + seq![s@.subrange(from as int, g as int)]) + blocks_from(s@, g + 2));
        from = g + 2;
    }
}

/// Reads the monkeys of a text, one per block.
pub fn parse_input(input: &str) -> (r: Vec<Monkey>)
    requires
        all_monkeys(input.spec_bytes()),
    ensures
        troop(r@) == parsed_troop(input.spec_bytes()),
{
    let blocks = split_blocks(input.as_bytes());
    let ghost rows = crate::text::rows_of(blocks@);
    let mut out: Vec<Monkey> = Vec::new();
    let mut i: usize = 0;
    while i < blocks.len()
        invariant
            rows == crate::text::rows_of(blocks@),
            rows == blocks_from(input.spec_bytes(), 0),
            all_monkeys(input.spec_bytes()),
            i <= blocks@.len(),
            out@.len() == i,
            forall|k: int| 0 <= k < i ==> Some(#[trigger] out@[k]@) == parsed_monkey(rows[k]),
        decreases blocks@.len() - i,
    {
        assert(rows[i as int] == blocks@[i as int]@);
        match monkey(blocks[i].as_slice()) {
            Some(m) => {
                out.push(m);
            },
            None => {},
        }
        i += 1;
    }
    assert(troop(out@) =~= parsed_troop(input.spec_bytes()));
    out
}

/// The value of an operand for an item.
pub open spec fn evaluated(o: Operand, item: int) -> int {
    match o {
        Operand::VAR => item,
        Operand::INT(v) => v as int,
    }
}

/// The worry level of an item after the monkey inspected it.
pub open spec fn inspected(op: Operation, item: int) -> int {
    match op.op {
        Operator::MULT => evaluated(op.a, item) * evaluated(op.b, item),
        Operator::ADD => evaluated(op.a, item) + evaluated(op.b, item),
    }
}

/// The worry level with which an item is thrown: what inspection made it, divided by
/// the divisor where there is one, and reduced by the modulus where there is one.
pub open spec fn relieved(op: Operation, item: int, divisor: Option<u64>, modulus: Option<u64>) -> int {
    let worry = inspected(op, item) / (match divisor {
        Some(d) => d as int,
        None => 1int,
    });
    match modulus {
        Some(m) => worry % (m as int),
        None => worry,
    }
}

/// The monkey that an item of the given worry level is thrown to.
pub open spec fn target(m: MonkeyModel, worry: int) -> int {
    if worry % (m.divisible_by as int) == 0 {
        m.if_true as int
    } else {
        m.if_false as int
    }
}

/// What monkey `m` throws in its turn: for each of the given items, in order, the
/// monkey that it goes to and the worry level that it has then.
pub open spec fn thrown(m: MonkeyModel, items: Seq<u64>, divisor: Option<u64>, modulus: Option<u64>) -> Seq<
    (usize, u64),
> {
    Seq::new(
        items.len(),
        |k: int|
            (
                target(m, relieved(m.operation, items[k] as int, divisor, modulus)) as usize,
                relieved(m.operation, items[k] as int, divisor, modulus) as u64,
            ),
    )
}

/// Whether monkey `m` can take its turn with the given items: nothing is divided by
/// zero and no inspection leaves the range of `u64`.
pub open spec fn can_take_turn(m: MonkeyModel, items: Seq<u64>, divisor: Option<u64>, modulus: Option<u64>) -> bool {
    &&& m.divisible_by != 0
    &&& divisor != Some(0u64)
    &&& modulus != Some(0u64)
    &&& forall|k: int| 0 <= k < items.len() ==> inspected(m.operation, #[trigger] items[k] as int) <= u64::MAX
}

impl Monkey {
    /// Applies the monkey's operation to an item.
    pub fn inspect(&self, item: u64) -> (r: u64)
        requires
            inspected(self.operation, item as int) <= u64::MAX,
        ensures
            r == inspected(self.operation, item as int),
    {
        let a: u64 = match self.operation.a {
            Operand::VAR => item,
            Operand::INT(v) => v,
        };
        let b: u64 = match self.operation.b {
            Operand::VAR => item,
            Operand::INT(v) => v,
        };
        match self.operation.op {
            Operator::MULT => a * b,
            Operator::ADD => a + b,
        }
    }

    /// Picks the monkey that an item of the given worry level goes to.
    pub fn throw(&self, item: u64) -> (r: usize)
        requires
            self.divisible_by != 0,
        ensures
            r == target(self@, item as int),
    {
        if item % self.divisible_by == 0 {
            self.if_true as usize
        } else {
            self.if_false as usize
        }
    }

    /// Inspects the given items in order and says where each goes, and with what
    /// worry level.
    pub fn take_turn(&self, items: &Vec<u64>, divisor: Option<u64>, modulus: Option<u64>) -> (r: Vec<
        (usize, u64),
    >)
        requires
            can_take_turn(self@, items@, divisor, modulus),
        ensures
            r@ == thrown(self@, items@, divisor, modulus),
    {
        let mut out: Vec<(usize, u64)> = Vec::new();
        let mut k: usize = 0;
        while k < items.len()
            invariant
                can_take_turn(self@, items@, divisor, modulus),
                k <= items@.len(),
                out@ == thrown(self@, items@, divisor, modulus).take(k as int),
            decreases items@.len() - k,
        {
            assert(inspected(self.operation, items@[k as int] as int) <= u64::MAX);
            let by: u64 = match divisor {
                Some(d) => d,
                None => 1,
            };
            let worry: u64 = self.inspect(items[k]) / by;
            let worry: u64 = match modulus {
                Some(m) => worry % m,
                None => worry,
            };
            let throw_to = self.throw(worry);
            out.push((throw_to, worry));
            assert(out@ =~= thrown(self@, items@, divisor, modulus).take(k + 1));
            k += 1;
        }
        assert(thrown(self@, items@, divisor, modulus).take(k as int) =~= thrown(
            self@,
            items@,
            divisor,
            modulus,
        ));
        out
    }
}

/// A monkey after its turn: it holds nothing and has inspected what it held.
pub open spec fn emptied(m: MonkeyModel) -> MonkeyModel {
    MonkeyModel { items: Seq::empty(), inspections: (m.inspections + m.items.len()) as u64, ..m }
}

/// A monkey that caught an item.
pub open spec fn with_item(m: MonkeyModel, worry: u64) -> MonkeyModel {
    MonkeyModel { items: m.items.push(worry), ..m }
}

/// The troop after each thrown item, in order, reached the monkey it was thrown to.
pub open spec fn deliver(ms: Seq<MonkeyModel>, th: Seq<(usize, u64)>) -> Seq<MonkeyModel>
    decreases th.len(),
{
    if th.len() == 0 {
        ms
    } else {
        let prev = deliver(ms, th.drop_last());
        if th.last().0 < prev.len() {
            prev.update(th.last().0 as int, with_item(prev[th.last().0 as int], th.last().1))
        } else {
            prev
        }
    }
}

/// The troop after monkey `i` took its turn.
pub open spec fn turn(ms: Seq<MonkeyModel>, i: int, divisor: Option<u64>, modulus: Option<u64>) -> Seq<
    MonkeyModel,
> {
    if 0 <= i < ms.len() {
        deliver(ms.update(i, emptied(ms[i])), thrown(ms[i], ms[i].items, divisor, modulus))
    } else {
        ms
    }
}

/// The troop after the first `upto` monkeys took their turns, one after the other.
pub open spec fn turns(ms: Seq<MonkeyModel>, upto: int, divisor: Option<u64>, modulus: Option<u64>) -> Seq<
    MonkeyModel,
>
    decreases upto,
{
    if upto <= 0 {
        ms
    } else {
        turn(turns(ms, upto - 1, divisor, modulus), upto - 1, divisor, modulus)
    }
}

/// The troop after `r` rounds, in each of which every monkey takes a turn.
pub open spec fn rounds_done(ms: Seq<MonkeyModel>, r: int, divisor: Option<u64>, modulus: Option<u64>) -> Seq<
    MonkeyModel,
>
    decreases r,
{
    if r <= 0 {
        ms
    } else {
        let before = rounds_done(ms, r - 1, divisor, modulus);
        turns(before, before.len() as int, divisor, modulus)
    }
}

/// Whether monkey `i` can take its turn: it can inspect what it holds, its count of
/// inspections stays within `u64`, and it throws to monkeys of the troop.
pub open spec fn turn_safe(ms: Seq<MonkeyModel>, i: int, divisor: Option<u64>, modulus: Option<u64>) -> bool {
    &&& can_take_turn(ms[i], ms[i].items, divisor, modulus)
    &&& ms[i].inspections + ms[i].items.len() <= u64::MAX
    &&& ms[i].if_true < ms.len()
    &&& ms[i].if_false < ms.len()
}

/// Whether the first `upto` monkeys can take their turns, one after the other.
pub open spec fn turns_safe(ms: Seq<MonkeyModel>, upto: int, divisor: Option<u64>, modulus: Option<u64>) -> bool
    decreases upto,
{
    upto <= 0 || (turns_safe(ms, upto - 1, divisor, modulus) && turn_safe(
        turns(ms, upto - 1, divisor, modulus),
        upto - 1,
        divisor,
        modulus,
    ))
}

/// Whether the troop can play `r` rounds.
pub open spec fn rounds_safe(ms: Seq<MonkeyModel>, r: int, divisor: Option<u64>, modulus: Option<u64>) -> bool
    decreases r,
{
    r <= 0 || (rounds_safe(ms, r - 1, divisor, modulus) && turns_safe(
        rounds_done(ms, r - 1, divisor, modulus),
        rounds_done(ms, r - 1, divisor, modulus).len() as int,
        divisor,
        modulus,
    ))
}

/// The numbers of inspections of the monkeys.
pub open spec fn counts(ms: Seq<MonkeyModel>) -> Seq<int> {
    Seq::new(ms.len(), |i: int| ms[i].inspections as int)
}

/// The two largest of the numbers, multiplied; the number itself where there is one
/// only, and 1 where there is none.
pub open spec fn top2_product(g: Seq<int>) -> int {
    if g.len() == 0 {
        1
    } else if g.len() == 1 {
        g[0]
    } else {
        g[arg_max(g)] * g.remove(arg_max(g))[arg_max(g.remove(arg_max(g)))]
    }
}

/// Throwing items changes no number of monkeys.
pub proof fn lemma_deliver_len(ms: Seq<MonkeyModel>, th: Seq<(usize, u64)>)
    ensures
        deliver(ms, th).len() == ms.len(),
    decreases th.len(),
{
    if th.len() > 0 {
        lemma_deliver_len(ms, th.drop_last());
    }
}

/// Turns change no number of monkeys.
pub proof fn lemma_turns_len(ms: Seq<MonkeyModel>, upto: int, divisor: Option<u64>, modulus: Option<u64>)
    ensures
        turns(ms, upto, divisor, modulus).len() == ms.len(),
    decreases upto,
{
    if upto > 0 {
        lemma_turns_len(ms, upto - 1, divisor, modulus);
        let before = turns(ms, upto - 1, divisor, modulus);
        if upto - 1 < before.len() {
            lemma_deliver_len(
                before.update(upto - 1, emptied(before[upto - 1])),
                thrown(before[upto - 1], before[upto - 1].items, divisor, modulus),
            );
        }
    }
}

/// A troop that can play `r` rounds can play any fewer.
pub proof fn lemma_rounds_safe(ms: Seq<MonkeyModel>, r: int, k: int, divisor: Option<u64>, modulus: Option<u64>)
    requires
        rounds_safe(ms, r, divisor, modulus),
        0 <= k <= r,
    ensures
        rounds_safe(ms, k, divisor, modulus),
    decreases r - k,
{
    if k < r {
        lemma_rounds_safe(ms, r - 1, k, divisor, modulus);
    }
}

/// Monkeys that can take their turns up to one of them can do so up to any before it.
pub proof fn lemma_turns_safe(ms: Seq<MonkeyModel>, n: int, k: int, divisor: Option<u64>, modulus: Option<u64>)
    requires
        turns_safe(ms, n, divisor, modulus),
        0 <= k <= n,
    ensures
        turns_safe(ms, k, divisor, modulus),
    decreases n - k,
{
    if k < n {
        lemma_turns_safe(ms, n - 1, k, divisor, modulus);
    }
}

/// The integers of a vector of `u64`.
pub open spec fn naturals(v: Seq<u64>) -> Seq<int> {
    Seq::new(v.len(), |i: int| v[i] as int)
}

/// Takes the first largest entry out of the vector and returns it.
pub fn take_largest(v: &mut Vec<u64>) -> (r: u64)
    requires
        old(v)@.len() > 0,
    ensures
        r == naturals(old(v)@)[arg_max(naturals(old(v)@))],
        naturals(final(v)@) == naturals(old(v)@).remove(arg_max(naturals(old(v)@))),
{
    let ghost s = naturals(v@);
    let mut at: usize = 0;
    let mut i: usize = 1;
    assert(s.take(1).len() == 1);
    while i < v.len()
        invariant
            s == naturals(v@),
            1 <= i <= v@.len(),
            at < i,
            at == arg_max(s.take(i as int)),
        decreases v@.len() - i,
    {
        proof {
            assert(s.take(i + 1).drop_last() =~= s.take(i as int));
            assert(s.take(i + 1).last() == v@[i as int]);
            assert(s.take(i + 1)[at as int] == v@[at as int]);
        }
        if v[i] > v[at] {
            at = i;
        }
        i += 1;
    }
    assert(s.take(i as int) =~= s);
    let r = v.remove(at);
    assert(naturals(v@) =~= s.remove(at as int));
    r
}

/// Lets monkey `i` take its turn.
pub fn play_turn(monkeys: &mut Vec<Monkey>, i: usize, divisor: Option<u64>, modulus: Option<u64>)
    requires
        i < old(monkeys)@.len(),
        turn_safe(troop(old(monkeys)@), i as int, divisor, modulus),
    ensures
        troop(final(monkeys)@) == turn(troop(old(monkeys)@), i as int, divisor, modulus),
        final(monkeys)@.len() == old(monkeys)@.len(),
{
    let ghost before = troop(monkeys@);
    let n: usize = monkeys.len();
    assert(before[i as int] == monkeys@[i as int]@);
    let thrown_items = monkeys[i].take_turn(&monkeys[i].items, divisor, modulus);
    let count: u64 = monkeys[i].items.len() as u64;
    let idle = Monkey {
        n: monkeys[i].n,
        items: Vec::new(),
        operation: monkeys[i].operation,
        divisible_by: monkeys[i].divisible_by,
        if_true: monkeys[i].if_true,
        if_false: monkeys[i].if_false,
        inspections: monkeys[i].inspections + count,
    };
    assert(idle@.items =~= emptied(before[i as int]).items);
    monkeys.set(i, idle);
    let ghost cleared = before.update(i as int, emptied(before[i as int]));
    assert(troop(monkeys@) =~= cleared);
    let ghost th = thrown_items@;
    let mut k: usize = 0;
    while k < thrown_items.len()
        invariant
            n == monkeys@.len(),
            n == before.len(),
            th == thrown_items@,
            th == thrown(before[i as int], before[i as int].items, divisor, modulus),
            before[i as int].if_true < n,
            before[i as int].if_false < n,
            k <= th.len(),
            troop(monkeys@) == deliver(cleared, th.take(k as int)),
        decreases th.len() - k,
    {
        let (to, worry) = thrown_items[k];
        proof {
            lemma_deliver_len(cleared, th.take(k as int));
            assert(th.take(k + 1).drop_last() =~= th.take(k as int));
            assert(th.take(k + 1).last() == th[k as int]);
            assert(to < n);
        }
        let ghost prev = troop(monkeys@);
        monkeys[to].items.push(worry);
        assert(troop(monkeys@) =~= prev.update(to as int, with_item(prev[to as int], worry)));
        k += 1;
    }
    assert(th.take(k as int) =~= th);
}

/// Plays the given number of rounds and multiplies the two largest numbers of
/// inspections.
pub fn monkey_business(monkeys: Vec<Monkey>, rounds: u32, divisor: Option<u64>, modulus: Option<u64>) -> (r: u64)
    requires
        rounds_safe(troop(monkeys@), rounds as int, divisor, modulus),
        top2_product(counts(rounds_done(troop(monkeys@), rounds as int, divisor, modulus)))
            <= u64::MAX,
    ensures
        r == top2_product(counts(rounds_done(troop(monkeys@), rounds as int, divisor, modulus))),
{
    let ghost start = troop(monkeys@);
    let mut monkeys = monkeys;
    let n: usize = monkeys.len();
    let mut round: u32 = 0;
    while round < rounds
        invariant
            n == monkeys@.len(),
            n == start.len(),
            round <= rounds,
            rounds_safe(start, rounds as int, divisor, modulus),
            troop(monkeys@) == rounds_done(start, round as int, divisor, modulus),
        decreases rounds - round,
    {
        let ghost base = troop(monkeys@);
        proof {
            lemma_rounds_safe(start, rounds as int, round + 1, divisor, modulus);
        }
        let mut i: usize = 0;
        while i < n
            invariant
                n == monkeys@.len(),
                n == base.len(),
                i <= n,
                turns_safe(base, n as int, divisor, modulus),
                troop(monkeys@) == turns(base, i as int, divisor, modulus),
            decreases n - i,
        {
            proof {
                lemma_turns_safe(base, n as int, i + 1, divisor, modulus);
            }
            play_turn(&mut monkeys, i, divisor, modulus);
            i += 1;
        }
        round += 1;
    }
    let mut inspection_count: Vec<u64> = Vec::new();
    let mut i: usize = 0;
    while i < n
        invariant
            n == monkeys@.len(),
            i <= n,
            inspection_count@.len() == i,
            forall|k: int| 0 <= k < i ==> #[trigger] inspection_count@[k] == monkeys@[k].inspections,
        decreases n - i,
    {
        inspection_count.push(monkeys[i].inspections);
        i += 1;
    }
    assert(naturals(inspection_count@) =~= counts(troop(monkeys@)));
    if n == 0 {
        1
    } else if n == 1 {
        inspection_count[0]
    } else {
        proof {
            lemma_arg_max(naturals(inspection_count@));
        }
        let first = take_largest(&mut inspection_count);
        assert(naturals(inspection_count@).len() == n - 1);
        let second = take_largest(&mut inspection_count);
        first * second
    }
}

/// The product of the divisors of the first `k` monkeys.
pub open spec fn common_multiple(ms: Seq<MonkeyModel>, k: int) -> int
    decreases k,
{
    if k <= 0 {
        1
    } else {
        common_multiple(ms, k - 1) * ms[k - 1].divisible_by
    }
}

/// Whether the products of the divisors of the first monkeys all fit in `u64`.
pub open spec fn multiples_fit(ms: Seq<MonkeyModel>) -> bool {
    forall|k: int| 0 <= k <= ms.len() ==> 0 <= #[trigger] common_multiple(ms, k) <= u64::MAX
}

/// The monkey business after 20 rounds in which every worry level is divided by 3.
pub fn part1(input: &str) -> (r: u64)
    requires
        all_monkeys(input.spec_bytes()),
        rounds_safe(parsed_troop(input.spec_bytes()), 20, Some(3u64), None),
        top2_product(counts(rounds_done(parsed_troop(input.spec_bytes()), 20, Some(3u64), None)))
            <= u64::MAX,
    ensures
        r == top2_product(
            counts(rounds_done(parsed_troop(input.spec_bytes()), 20, Some(3u64), None)),
        ),
{
    let monkeys = parse_input(input);
    monkey_business(monkeys, 20, Some(3), None)
}

/// The monkey business after 10000 rounds in which every worry level is reduced by
/// the product of all divisors.
pub fn part2(input: &str) -> (r: u64)
    requires
        all_monkeys(input.spec_bytes()),
        multiples_fit(parsed_troop(input.spec_bytes())),
        rounds_safe(
            parsed_troop(input.spec_bytes()),
            10000,
            None,
            Some(
                common_multiple(
                    parsed_troop(input.spec_bytes()),
                    parsed_troop(input.spec_bytes()).len() as int,
                ) as u64,
            ),
        ),
        top2_product(
            counts(
                rounds_done(
                    parsed_troop(input.spec_bytes()),
                    10000,
                    None,
                    Some(
                        common_multiple(
                            parsed_troop(input.spec_bytes()),
                            parsed_troop(input.spec_bytes()).len() as int,
                        ) as u64,
                    ),
                ),
            ),
        ) <= u64::MAX,
    ensures
        r == top2_product(
            counts(
                rounds_done(
                    parsed_troop(input.spec_bytes()),
                    10000,
                    None,
                    Some(
                        common_multiple(
                            parsed_troop(input.spec_bytes()),
                            parsed_troop(input.spec_bytes()).len() as int,
                        ) as u64,
                    ),
                ),
            ),
        ),
{
    let monkeys = parse_input(input);
    let ghost ms = troop(monkeys@);
    let mut modulus: u64 = 1;
    let mut i: usize = 0;
    while i < monkeys.len()
        invariant
            ms == troop(monkeys@),
            multiples_fit(ms),
            i <= monkeys@.len(),
            modulus == common_multiple(ms, i as int),
        decreases monkeys@.len() - i,
    {
        assert(0 <= common_multiple(ms, i + 1) <= u64::MAX);
        assert(ms[i as int] == monkeys@[i as int]@);
        modulus = modulus * monkeys[i].divisible_by;
        i += 1;
    }
    monkey_business(monkeys, 10000, None, Some(modulus))
}

} // verus!
