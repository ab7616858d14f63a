//! Pairs of ranges, one pair per line, written as `2-4,6-8`.

use crate::text::{copy_range, decimal_i32, lines, parse_i32, rows_of, split_lines};
use vstd::prelude::*;
use vstd::string::StringSliceAdditionalSpecFns;

verus! {

/// Index of the first byte `sep` of `s` at or after `from`, or `s.len()` without one.
pub open spec fn field_end(s: Seq<u8>, from: int, sep: u8) -> int
    decreases s.len() - from,
{
    if from < 0 || from >= s.len() {
        s.len() as int
    } else if s[from] == sep {
        from
    } else {
        field_end(s, from + 1, sep)
    }
}

/// The text before the first `sep`.
pub open spec fn first_field(s: Seq<u8>, sep: u8) -> Seq<u8> {
    s.subrange(0, field_end(s, 0, sep))
}

/// Whether `s` holds a `sep`, and so a second field.
pub open spec fn has_second(s: Seq<u8>, sep: u8) -> bool {
    field_end(s, 0, sep) < s.len()
}

/// The text between the first `sep` and the next one, or the end.
pub open spec fn second_field(s: Seq<u8>, sep: u8) -> Seq<u8> {
    s.subrange(field_end(s, 0, sep) + 1, field_end(s, field_end(s, 0, sep) + 1, sep))
}

/// Whether `s` starts with two numbers that fit in `i32`, with `sep` between them.
pub open spec fn is_pair(s: Seq<u8>, sep: u8) -> bool {
    has_second(s, sep) && decimal_i32(first_field(s, sep)) is Some && decimal_i32(
        second_field(s, sep),
    ) is Some
}

/// The two numbers that `s` starts with.
pub open spec fn pair_of(s: Seq<u8>, sep: u8) -> (i32, i32) {
    (decimal_i32(first_field(s, sep)).unwrap(), decimal_i32(second_field(s, sep)).unwrap())
}

/// Whether a line holds two ranges with a comma between them.
pub open spec fn is_elves(line: Seq<u8>) -> bool {
    has_second(line, 44) && is_pair(first_field(line, 44), 45) && is_pair(
        second_field(line, 44),
        45,
    )
}

/// The two ranges of a line.
pub open spec fn elves_of(line: Seq<u8>) -> ((i32, i32), (i32, i32)) {
    (pair_of(first_field(line, 44), 45), pair_of(second_field(line, 44), 45))
}

/// Whether range `a` holds all of range `b`.
pub open spec fn holds_all(a: (i32, i32), b: (i32, i32)) -> bool {
    a.0 <= b.0 && a.1 >= b.1
}

/// Whether two ranges share a number.
pub open spec fn meet(a: (i32, i32), b: (i32, i32)) -> bool {
    a.1 >= b.0 && a.0 <= b.1
}

/// The number of lines on which one range holds all of the other.
pub open spec fn count_nested(ls: Seq<Seq<u8>>) -> int
    decreases ls.len(),
{
    if ls.len() == 0 {
        0
    } else {
        let e = elves_of(ls.last());
        count_nested(ls.drop_last()) + if holds_all(e.0, e.1) || holds_all(e.1, e.0) {
            1int
        } else {
            0int
        }
    }
}

/// The number of lines whose two ranges share a number.
pub open spec fn count_meeting(ls: Seq<Seq<u8>>) -> int
    decreases ls.len(),
{
    if ls.len() == 0 {
        0
    } else {
        let e = elves_of(ls.last());
        count_meeting(ls.drop_last()) + if meet(e.0, e.1) {
            1int
        } else {
            0int
        }
    }
}

/// Finds the first `sep` at or after `from`.
pub fn find_sep(s: &[u8], from: usize, sep: u8) -> (e: usize)
    requires
        from <= s@.len(),
    ensures
        e == field_end(s@, from as int, sep),
        from <= e <= s@.len(),
{
    let n: usize = s.len();
    let mut e: usize = from;
    while e < n && s[e] != sep
        invariant
            n == s@.len(),
            from <= e <= n,
            field_end(s@, from as int, sep) == field_end(s@, e as int, sep),
        decreases n - e,
    {
        e += 1;
    }
    e
}

/// Reads the two numbers that `s` starts with, `delimiter` between them.
pub fn split_i32(delimiter: u8, s: &[u8]) -> (r: (i32, i32))
    requires
        is_pair(s@, delimiter),
    ensures
        r == pair_of(s@, delimiter),
{
    let n: usize = s.len();
    let a: usize = find_sep(s, 0, delimiter);
    let b: usize = find_sep(s, a + 1, delimiter);
    let first = copy_range(s, 0, a);
    let second = copy_range(s, a + 1, b);
    let x: i32 = match parse_i32(first.as_slice()) {
        Some(v) => v,
        None => 0,
    };
    let y: i32 = match parse_i32(second.as_slice()) {
        Some(v) => v,
        None => 0,
    };
    (x, y)
}

/// Reads the two ranges of a line.
pub fn parse_elves(line: &[u8]) -> (r: ((i32, i32), (i32, i32)))
    requires
        is_elves(line@),
    ensures
        r == elves_of(line@),
{
    let n: usize = line.len();
    let a: usize = find_sep(line, 0, 44);
    let b: usize = find_sep(line, a + 1, 44);
    let first = copy_range(line, 0, a);
    let second = copy_range(line, a + 1, b);
    (split_i32(45, first.as_slice()), split_i32(45, second.as_slice()))
}

/// Tests whether range `a` holds all of range `b`.
pub fn contains(a: &(i32, i32), b: &(i32, i32)) -> (r: bool)
    ensures
        r == holds_all(*a, *b),
{
    a.0 <= b.0 && a.1 >= b.1
}

/// Tests whether two ranges share a number.
pub fn overlaps(a: &(i32, i32), b: &(i32, i32)) -> (r: bool)
    ensures
        r == meet(*a, *b),
{
    a.1 >= b.0 && a.0 <= b.1
}

/// Counts the lines on which one range holds all of the other.
pub fn part1(input: &str) -> (r: i32)
    requires
        forall|i: int|
            0 <= i < lines(input.spec_bytes()).len() ==> is_elves(
                #[trigger] lines(input.spec_bytes())[i],
            ),
        lines(input.spec_bytes()).len() <= i32::MAX,
    ensures
        r == count_nested(lines(input.spec_bytes())),
{
    let ls = split_lines(input.as_bytes());
    let ghost rows = rows_of(ls@);
    let mut count: i32 = 0;
    let mut i: usize = 0;
    assert(rows.take(0) =~= Seq::<Seq<u8>>::empty());
    while i < ls.len()
        invariant
            rows == rows_of(ls@),
            rows.len() <= i32::MAX,
            rows.len() == ls@.len(),
            forall|k: int| 0 <= k < rows.len() ==> is_elves(#[trigger] rows[k]),
            i <= ls@.len(),
            count == count_nested(rows.take(i as int)),
            0 <= count <= i,
        decreases ls@.len() - i,
    {
        proof {
            assert(rows.take(i + 1).drop_last() =~= rows.take(i as int));
            assert(rows.take(i + 1).last() == ls@[i as int]@);
            assert(is_elves(rows[i as int]));
        }
        let (a, b) = parse_elves(ls[i].as_slice());
        if contains(&a, &b) || contains(&b, &a) {
            count += 1;
        }
        i += 1;
    }
    assert(rows.take(i as int) =~= rows);
    count
}

/// Counts the lines whose two ranges share a number.
pub fn part2(input: &str) -> (r: i32)
    requires
        forall|i: int|
            0 <= i < lines(input.spec_bytes()).len() ==> is_elves(
                #[trigger] lines(input.spec_bytes())[i],
            ),
        lines(input.spec_bytes()).len() <= i32::MAX,
    ensures
        r == count_meeting(lines(input.spec_bytes())),
{
    let ls = split_lines(input.as_bytes());
    let ghost rows = rows_of(ls@);
    let mut count: i32 = 0;
    let mut i: usize = 0;
    assert(rows.take(0) =~= Seq::<Seq<u8>>::empty());
    while i < ls.len()
        invariant
            rows == rows_of(ls@),
            rows.len() <= i32::MAX,
            rows.len() == ls@.len(),
            forall|k: int| 0 <= k < rows.len() ==> is_elves(#[trigger] rows[k]),
            i <= ls@.len(),
            count == count_meeting(rows.take(i as int)),
            0 <= count <= i,
        decreases ls@.len() - i,
    {
        proof {
            assert(rows.take(i + 1).drop_last() =~= rows.take(i as int));
            assert(rows.take(i + 1).last() == ls@[i as int]@);
            assert(is_elves(rows[i as int]));
        }
        let (a, b) = parse_elves(ls[i].as_slice());
        if overlaps(&a, &b) {
            count += 1;
        }
        i += 1;
    }
    assert(rows.take(i as int) =~= rows);
    count
}

} // verus!
