//! Calories carried by elves: a list of numbers in groups that blank lines separate.

use crate::text::{decimal_i32, lines, parse_i32, rows_of, split_lines};
use vstd::prelude::*;
use vstd::string::StringSliceAdditionalSpecFns;

verus! {

/// Whether every line is blank or a decimal number that fits in `i32`.
pub open spec fn well_formed(ls: Seq<Seq<u8>>) -> bool {
    forall|i: int| 0 <= i < ls.len() ==> (#[trigger] ls[i]).len() == 0 || decimal_i32(ls[i]) is Some
}

/// The number on a line.
pub open spec fn value_of(line: Seq<u8>) -> int {
    decimal_i32(line).unwrap() as int
}

/// The sums of the groups of `ls`. A blank line ends a group and starts the next, so
/// there is always one group more than there are blank lines.
pub open spec fn groups(ls: Seq<Seq<u8>>) -> Seq<int>
    decreases ls.len(),
{
    if ls.len() == 0 {
        seq![0int]
    } else {
        let g = groups(ls.drop_last());
        if ls.last().len() == 0 {
            g.push(0)
        } else {
            g.update(g.len() - 1, g.last() + value_of(ls.last()))
        }
    }
}

/// The sum of the group that is still open after the lines of `ls`.
pub open spec fn running(ls: Seq<Seq<u8>>) -> int {
    groups(ls).last()
}

/// Whether the sum of the open group fits in `i32` after every line.
pub open spec fn sums_fit(ls: Seq<Seq<u8>>) -> bool {
    forall|k: int| 0 <= k <= ls.len() ==> i32::MIN <= #[trigger] running(ls.take(k)) <= i32::MAX
}

/// The largest value that the sum of the open group has after any line; 0 without lines.
pub open spec fn peak(ls: Seq<Seq<u8>>) -> int
    decreases ls.len(),
{
    if ls.len() == 0 {
        0
    } else if peak(ls.drop_last()) >= running(ls) {
        peak(ls.drop_last())
    } else {
        running(ls)
    }
}

/// The index of the first largest entry of `s`; 0 where `s` is empty.
pub open spec fn arg_max(s: Seq<int>) -> int
    decreases s.len(),
{
    if s.len() <= 1 {
        0
    } else {
        let i = arg_max(s.drop_last());
        if s.last() > s[i] {
            s.len() - 1
        } else {
            i
        }
    }
}

/// The three largest entries of `g`, added up: the largest, the largest of the rest,
/// and the largest of what is left then.
pub open spec fn top3_sum(g: Seq<int>) -> int {
    let i = arg_max(g);
    let g1 = g.remove(i);
    let j = arg_max(g1);
    let g2 = g1.remove(j);
    g[i] + g1[j] + g2[arg_max(g2)]
}

/// There is always a group, and no more groups than lines and one.
pub proof fn lemma_groups_len(ls: Seq<Seq<u8>>)
    ensures
        groups(ls).len() >= 1,
        groups(ls).len() <= ls.len() + 1,
    decreases ls.len(),
{
    if ls.len() > 0 {
        lemma_groups_len(ls.drop_last());
    }
}

/// `arg_max` names an entry that no other entry exceeds.
pub proof fn lemma_arg_max(s: Seq<int>)
    requires
        s.len() > 0,
    ensures
        0 <= arg_max(s) < s.len(),
        forall|k: int| 0 <= k < s.len() ==> #[trigger] s[k] <= s[arg_max(s)],
    decreases s.len(),
{
    if s.len() > 1 {
        lemma_arg_max(s.drop_last());
        assert forall|k: int| 0 <= k < s.len() implies #[trigger] s[k] <= s[arg_max(s)] by {
            if k < s.len() - 1 {
                assert(s.drop_last()[k] == s[k]);
            }
        }
    }
}

/// The integers of a vector of `i32`.
pub open spec fn ints(v: Seq<i32>) -> Seq<int> {
    Seq::new(v.len(), |i: int| v[i] as int)
}

/// Sums the groups of a list of lines.
pub fn group_sums(ls: &Vec<Vec<u8>>) -> (r: Vec<i32>)
    requires
        well_formed(rows_of(ls@)),
        sums_fit(rows_of(ls@)),
    ensures
        ints(r@) == groups(rows_of(ls@)),
{
    let ghost rows = rows_of(ls@);
    let mut out: Vec<i32> = Vec::new();
    let mut cum_sum: i32 = 0;
    let mut i: usize = 0;
    assert(rows.take(0) =~= Seq::<Seq<u8>>::empty());
    assert(groups(rows.take(0)) =~= seq![0int]);
    while i < ls.len()
        invariant
            rows == rows_of(ls@),
            well_formed(rows),
            sums_fit(rows),
            i <= ls@.len(),
            ints(out@).push(cum_sum as int) == groups(rows.take(i as int)),
        decreases ls@.len() - i,
    {
        let ghost before = groups(rows.take(i as int));
        proof {
            assert(rows.take(i + 1).drop_last() =~= rows.take(i as int));
            assert(rows.take(i + 1).last() == ls@[i as int]@);
            assert(rows[i as int] == ls@[i as int]@);
            assert(i32::MIN <= running(rows.take(i + 1)) <= i32::MAX);
        }
        if ls[i].len() == 0 {
            let ghost old_out = ints(out@);
            out.push(cum_sum);
            cum_sum = 0;
            assert(ints(out@) =~= old_out.push(before.last()));
            assert(ints(out@).push(0) =~= before.push(0));
        } else {
            let calories: i32 = match parse_i32(ls[i].as_slice()) {
                Some(v) => v,
                None => 0,
            };
            assert(before.last() == cum_sum);
            cum_sum += calories;
            assert(ints(out@).push(cum_sum as int) =~= before.update(
                before.len() - 1,
                before.last() + value_of(rows[i as int]),
            ));
        }
        i += 1;
    }
    assert(rows.take(i as int) =~= rows);
    let ghost old_out = ints(out@);
    out.push(cum_sum);
    assert(ints(out@) =~= old_out.push(cum_sum as int));
    out
}

/// The largest sum that a group reaches.
pub fn count_calories(input: &str) -> (r: i32)
    requires
        well_formed(lines(input.spec_bytes())),
        sums_fit(lines(input.spec_bytes())),
    ensures
        r == peak(lines(input.spec_bytes())),
{
    let ls = split_lines(input.as_bytes());
    let ghost rows = rows_of(ls@);
    let mut max_sum: i32 = 0;
    let mut cum_sum: i32 = 0;
    let mut i: usize = 0;
    assert(rows.take(0) =~= Seq::<Seq<u8>>::empty());
    while i < ls.len()
        invariant
            rows == rows_of(ls@),
            well_formed(rows),
            sums_fit(rows),
            i <= ls@.len(),
            cum_sum == running(rows.take(i as int)),
            max_sum == peak(rows.take(i as int)),
        decreases ls@.len() - i,
    {
        proof {
            assert(rows.take(i + 1).drop_last() =~= rows.take(i as int));
            assert(rows.take(i + 1).last() == ls@[i as int]@);
            assert(rows[i as int] == ls@[i as int]@);
            assert(i32::MIN <= running(rows.take(i + 1)) <= i32::MAX);
            lemma_groups_len(rows.take(i as int));
        }
        if ls[i].len() == 0 {
            cum_sum = 0;
        } else {
            let calories: i32 = match parse_i32(ls[i].as_slice()) {
                Some(v) => v,
                None => 0,
            };
            cum_sum += calories;
        }
        if cum_sum > max_sum {
            max_sum = cum_sum;
        }
        i += 1;
    }
    assert(rows.take(i as int) =~= rows);
    max_sum
}

/// Takes the first largest entry out of the vector and returns it.
pub fn pop_largest(v: &mut Vec<i32>) -> (r: i32)
    requires
        old(v)@.len() > 0,
    ensures
        r == ints(old(v)@)[arg_max(ints(old(v)@))],
        ints(final(v)@) == ints(old(v)@).remove(arg_max(ints(old(v)@))),
{
    let ghost s = ints(v@);
    let mut at: usize = 0;
    let mut i: usize = 1;
    assert(s.take(1).len() == 1);
    while i < v.len()
        invariant
            s == ints(v@),
            1 <= i <= v@.len(),
            at < i,
            at == arg_max(s.take(i as int)),
        decreases v@.len() - i,
    {
        proof {
            assert(s.take(i + 1).drop_last() =~= s.take(i as int));
            assert(s.take(i + 1).last() == v@[i as int]);
            assert(s.take(i + 1)[at as int] == v@[at as int]);
        }
        if v[i] > v[at] {
            at = i;
        }
        i += 1;
    }
    assert(s.take(i as int) =~= s);
    let r = v.remove(at);
    assert(ints(v@) =~= s.remove(at as int));
    r
}

/// The sum of the three largest group sums.
pub fn top_3(input: &str) -> (r: i32)
    requires
        well_formed(lines(input.spec_bytes())),
        sums_fit(lines(input.spec_bytes())),
        groups(lines(input.spec_bytes())).len() >= 3,
        i32::MIN <= top3_sum(groups(lines(input.spec_bytes()))) <= i32::MAX,
    ensures
        r == top3_sum(groups(lines(input.spec_bytes()))),
{
    let ls = split_lines(input.as_bytes());
    let mut sums = group_sums(&ls);
    let ghost g = ints(sums@);
    proof {
        lemma_arg_max(g);
        lemma_arg_max(g.remove(arg_max(g)));
        lemma_arg_max(g.remove(arg_max(g)).remove(arg_max(g.remove(arg_max(g)))));
    }
    let a: i32 = pop_largest(&mut sums);
    let b: i32 = pop_largest(&mut sums);
    let c: i32 = pop_largest(&mut sums);
    assert(c <= b <= a);
    let total: i64 = a as i64 + b as i64 + c as i64;
    total as i32
}

} // verus!
