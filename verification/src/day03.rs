//! Rucksacks: one line of items per rucksack, one letter per item.

use crate::text::{lines, rows_of, split_lines};
use vstd::prelude::*;
use vstd::string::StringSliceAdditionalSpecFns;

verus! {

/// What can be wrong with a rucksack.
#[derive(Clone, Copy, Debug, PartialEq, Eq)]
pub enum Problem {
    /// No item is in both halves of the rucksack.
    NoMistake,
    /// No item is in all three rucksacks of a group.
    NoBadge,
    /// The item is no letter.
    NotAnItem,
}

/// The priority of an item: 1 to 26 for `a` to `z`, 27 to 52 for `A` to `Z`; 0 for
/// anything else.
pub open spec fn priority_of(c: char) -> int {
    if 'a' <= c && c <= 'z' {
        c as u32 - 'a' as u32 + 1
    } else if 'A' <= c && c <= 'Z' {
        c as u32 - 'A' as u32 + 27
    } else {
        0
    }
}

/// The first item of `s` at or after `from` that both `a` and `b` hold.
pub open spec fn shared_from(s: Seq<u8>, from: int, a: Seq<u8>, b: Seq<u8>) -> Option<u8>
    decreases s.len() - from,
{
    if from < 0 || from >= s.len() {
        None
    } else if a.contains(s[from]) && b.contains(s[from]) {
        Some(s[from])
    } else {
        shared_from(s, from + 1, a, b)
    }
}

/// The first item of the second half of a rucksack that is in its first half too.
pub open spec fn mistake_of(line: Seq<u8>) -> Option<u8> {
    let mid = (line.len() / 2) as int;
    shared_from(line, mid, line.take(mid), line.take(mid))
}

/// The priority of the mistake of a rucksack; 0 where there is none.
pub open spec fn mistake_priority(line: Seq<u8>) -> int {
    match mistake_of(line) {
        Some(b) => priority_of(b as char),
        None => 0,
    }
}

/// The priority of the first item of `third` that `first` and `second` hold too.
pub open spec fn badge_priority(first: Seq<u8>, second: Seq<u8>, third: Seq<u8>) -> int {
    match shared_from(third, 0, first, second) {
        Some(b) => priority_of(b as char),
        None => 0,
    }
}

/// Whether every rucksack has a mistake that is a letter.
pub open spec fn all_mistaken(ls: Seq<Seq<u8>>) -> bool {
    forall|i: int| 0 <= i < ls.len() ==> mistake_priority(#[trigger] ls[i]) > 0
}

/// Whether the rucksacks come in groups of three, each with a badge that is a letter.
pub open spec fn all_badged(ls: Seq<Seq<u8>>) -> bool {
    &&& ls.len() % 3 == 0
    &&& forall|g: int|
        0 <= g < ls.len() / 3 ==> badge_priority(
            #[trigger] ls[3 * g],
            ls[3 * g + 1],
            ls[3 * g + 2],
        ) > 0
}

/// The priorities of the mistakes of the first `k` rucksacks, added up.
pub open spec fn total_mistakes(ls: Seq<Seq<u8>>, k: int) -> int
    decreases k,
{
    if k <= 0 {
        0
    } else {
        total_mistakes(ls, k - 1) + mistake_priority(ls[k - 1])
    }
}

/// The priorities of the badges of the first `g` groups, added up.
pub open spec fn total_badges(ls: Seq<Seq<u8>>, g: int) -> int
    decreases g,
{
    if g <= 0 {
        0
    } else {
        total_badges(ls, g - 1) + badge_priority(ls[3 * g - 3], ls[3 * g - 2], ls[3 * g - 1])
    }
}

/// The most rucksacks whose priorities are sure to add up within `i32`.
pub const MAX_RUCKSACKS: usize = 0x1ff_ffff;

/// Gives the priority of an item.
pub fn priority(c: char) -> (r: Result<i32, Problem>)
    ensures
        match r {
            Ok(p) => p == priority_of(c) && 1 <= p <= 52,
            Err(e) => priority_of(c) == 0 && e == Problem::NotAnItem,
        },
{
    if 'a' <= c && c <= 'z' {
        Ok((c as u32 - 'a' as u32 + 1) as i32)
    } else if 'A' <= c && c <= 'Z' {
        Ok((c as u32 - 'A' as u32 + 27) as i32)
    } else {
        Err(Problem::NotAnItem)
    }
}

/// Tests whether the first `upto` bytes of `s` hold `x`.
pub fn has_item(s: &[u8], upto: usize, x: u8) -> (r: bool)
    requires
        upto <= s@.len(),
    ensures
        r == s@.take(upto as int).contains(x),
{
    let mut i: usize = 0;
    while i < upto
        invariant
            i <= upto <= s@.len(),
            forall|k: int| 0 <= k < i ==> s@[k] != x,
        decreases upto - i,
    {
        if s[i] == x {
            assert(s@.take(upto as int)[i as int] == x);
            return true;
        }
        i += 1;
    }
    assert forall|k: int| 0 <= k < s@.take(upto as int).len() implies s@.take(upto as int)[k]
        != x by {
        assert(s@[k] != x);
    }
    false
}

/// Finds the first item of `s` at or after `from` that is among the first `na` items
/// of `a` and among the first `nb` items of `b`.
pub fn find_shared(s: &[u8], from: usize, a: &[u8], na: usize, b: &[u8], nb: usize) -> (r: Option<
    u8,
>)
    requires
        from <= s@.len(),
        na <= a@.len(),
        nb <= b@.len(),
    ensures
        r == shared_from(s@, from as int, a@.take(na as int), b@.take(nb as int)),
{
    let n: usize = s.len();
    let mut i: usize = from;
    while i < n
        invariant
            n == s@.len(),
            from <= i <= n,
            na <= a@.len(),
            nb <= b@.len(),
            shared_from(s@, from as int, a@.take(na as int), b@.take(nb as int)) == shared_from(
                s@,
                i as int,
                a@.take(na as int),
                b@.take(nb as int),
            ),
        decreases n - i,
    {
        if has_item(a, na, s[i]) && has_item(b, nb, s[i]) {
            return Some(s[i]);
        }
        i += 1;
    }
    None
}

/// Finds the item that is in both halves of a rucksack.
pub fn find_mistake(line: &[u8]) -> (r: Result<u8, Problem>)
    ensures
        match r {
            Ok(b) => mistake_of(line@) == Some(b),
            Err(e) => mistake_of(line@) is None && e == Problem::NoMistake,
        },
{
    let midpoint: usize = line.len() / 2;
    match find_shared(line, midpoint, line, midpoint, line, midpoint) {
        Some(b) => Ok(b),
        None => Err(Problem::NoMistake),
    }
}

/// Finds the item that three rucksacks share.
pub fn find_badge(first: &[u8], second: &[u8], third: &[u8]) -> (r: Result<u8, Problem>)
    ensures
        match r {
            Ok(b) => shared_from(third@, 0, first@, second@) == Some(b),
            Err(e) => shared_from(third@, 0, first@, second@) is None && e == Problem::NoBadge,
        },
{
    assert(first@.take(first@.len() as int) =~= first@);
    assert(second@.take(second@.len() as int) =~= second@);
    match find_shared(third, 0, first, first.len(), second, second.len()) {
        Some(b) => Ok(b),
        None => Err(Problem::NoBadge),
    }
}

/// The priorities of the mistakes of all rucksacks, added up.
pub fn part1(input: &str) -> (r: i32)
    requires
        all_mistaken(lines(input.spec_bytes())),
        lines(input.spec_bytes()).len() <= MAX_RUCKSACKS,
    ensures
        r == total_mistakes(lines(input.spec_bytes()), lines(input.spec_bytes()).len() as int),
{
    let ls = split_lines(input.as_bytes());
    let ghost rows = rows_of(ls@);
    let mut sum: i32 = 0;
    let mut i: usize = 0;
    while i < ls.len()
        invariant
            rows == rows_of(ls@),
            rows.len() <= MAX_RUCKSACKS,
            rows.len() == ls@.len(),
            all_mistaken(rows),
            i <= ls@.len(),
            sum == total_mistakes(rows, i as int),
            0 <= sum <= 52 * i,
        decreases ls@.len() - i,
    {
        proof {
            assert(rows[i as int] == ls@[i as int]@);
            assert(mistake_priority(rows[i as int]) > 0);
        }
        let p: i32 = match find_mistake(ls[i].as_slice()) {
            Ok(b) => match priority(b as char) {
                Ok(p) => p,
                Err(_) => 0,
            },
            Err(_) => 0,
        };
        sum += p;
        i += 1;
    }
    sum
}

/// The priorities of the badges of all groups of three rucksacks, added up.
pub fn part2(input: &str) -> (r: i32)
    requires
        all_badged(lines(input.spec_bytes())),
        lines(input.spec_bytes()).len() <= MAX_RUCKSACKS,
    ensures
        r == total_badges(lines(input.spec_bytes()), lines(input.spec_bytes()).len() as int / 3),
{
    let ls = split_lines(input.as_bytes());
    let ghost rows = rows_of(ls@);
    let groups: usize = ls.len() / 3;
    let mut sum: i32 = 0;
    let mut g: usize = 0;
    while g < groups
        invariant
            rows == rows_of(ls@),
            rows.len() <= MAX_RUCKSACKS,
            rows.len() == ls@.len(),
            all_badged(rows),
            groups == ls@.len() / 3,
            g <= groups,
            sum == total_badges(rows, g as int),
            0 <= sum <= 52 * g,
        decreases groups - g,
    {
        proof {
            assert(rows[3 * g] == ls@[3 * g]@);
            assert(rows[3 * g + 1] == ls@[3 * g + 1]@);
            assert(rows[3 * g + 2] == ls@[3 * g + 2]@);
            assert(badge_priority(rows[3 * g], rows[3 * g + 1], rows[3 * g + 2]) > 0);
        }
        let p: i32 = match find_badge(
            ls[3 * g].as_slice(),
            ls[3 * g + 1].as_slice(),
            ls[3 * g + 2].as_slice(),
        ) {
            Ok(b) => match priority(b as char) {
                Ok(p) => p,
                Err(_) => 0,
            },
            Err(_) => 0,
        };
        sum += p;
        g += 1;
    }
    sum
}

} // verus!
