//! Byte-level text helpers shared by the solvers: line splitting and decimal numbers.

use vstd::prelude::*;

verus! {

/// Whether `b` is an ASCII decimal digit.
pub open spec fn is_digit(b: u8) -> bool {
    48 <= b && b <= 57
}

/// Whether `b` is an ASCII letter.
pub open spec fn is_alpha(b: u8) -> bool {
    (65 <= b && b <= 90) || (97 <= b && b <= 122)
}

/// The rows of a vector of byte vectors, as sequences.
pub open spec fn rows_of(v: Seq<Vec<u8>>) -> Seq<Seq<u8>> {
    Seq::new(v.len(), |i: int| v[i]@)
}

/// Index of the first line feed of `s` at or after `from`, or `s.len()` when there is none.
pub open spec fn line_end(s: Seq<u8>, from: int) -> int
    decreases s.len() - from,
{
    if from < 0 || from >= s.len() {
        s.len() as int
    } else if s[from] == 10 {
        from
    } else {
        line_end(s, from + 1)
    }
}

/// A line without the carriage return that stood before its line feed.
pub open spec fn strip_cr(l: Seq<u8>) -> Seq<u8> {
    if l.len() > 0 && l.last() == 13 {
        l.drop_last()
    } else {
        l
    }
}

/// The lines of `s` from position `from` on. A line ends at a line feed, which is not
/// part of it, and a carriage return right before that line feed is dropped too. Text
/// after the last line feed is a line of its own unless it is empty.
pub open spec fn lines_from(s: Seq<u8>, from: int) -> Seq<Seq<u8>>
    decreases s.len() - from,
    via lines_from_terminates
{
    if from < 0 || from >= s.len() {
        Seq::empty()
    } else {
        let e = line_end(s, from);
        if e >= s.len() {
            seq![s.subrange(from, s.len() as int)]
        } else {
            seq![strip_cr(s.subrange(from, e))] + lines_from(s, e + 1)
        }
    }
}

/// Shows that the recursion above ends.
#[via_fn]
proof fn lines_from_terminates(s: Seq<u8>, from: int) {
    if 0 <= from < s.len() {
        lemma_line_end_bounds(s, from);
    }
}

/// The lines of `s`.
pub open spec fn lines(s: Seq<u8>) -> Seq<Seq<u8>> {
    lines_from(s, 0)
}

/// The end of a line lies at or after its start, at a line feed or at the end of the
/// text, with no line feed before it.
pub proof fn lemma_line_end_bounds(s: Seq<u8>, from: int)
    requires
        0 <= from <= s.len(),
    ensures
        from <= line_end(s, from) <= s.len(),
        line_end(s, from) < s.len() ==> s[line_end(s, from)] == 10,
        forall|j: int| from <= j < line_end(s, from) ==> s[j] != 10,
    decreases s.len() - from,
{
    if from < s.len() && s[from] != 10 {
        lemma_line_end_bounds(s, from + 1);
    }
}

/// Copies the bytes of `s` from `from` up to `to` into a vector of their own.
pub fn copy_range(s: &[u8], from: usize, to: usize) -> (r: Vec<u8>)
    requires
        from <= to <= s@.len(),
    ensures
        r@ == s@.subrange(from as int, to as int),
{
    let mut r: Vec<u8> = Vec::new();
    let mut i: usize = from;
    while i < to
        invariant
            from <= i <= to <= s@.len(),
            r@ == s@.subrange(from as int, i as int),
        decreases to - i,
    {
        r.push(s[i]);
        i += 1;
        assert(r@ =~= s@.subrange(from as int, i as int));
    }
    r
}

/// Splits a text into its lines.
pub fn split_lines(s: &[u8]) -> (r: Vec<Vec<u8>>)
    ensures
        rows_of(r@) == lines(s@),
{
    let mut out: Vec<Vec<u8>> = Vec::new();
    let mut from: usize = 0;
    let n: usize = s.len();
    while from < n
        invariant
            n == s@.len(),
            from <= n,
            lines(s@) == rows_of(out@) + lines_from(s@, from as int),
        decreases n - from,
    {
        let mut e: usize = from;
        while e < n && s[e] != 10
            invariant
                n == s@.len(),
                from <= e <= n,
                line_end(s@, from as int) == line_end(s@, e as int),
            decreases n - e,
        {
            e += 1;
        }
        let ghost before = rows_of(out@);
        if e >= n {
            let line = copy_range(s, from, n);
            out.push(line);
            assert(rows_of(out@) =~= before + seq![s@.subrange(from as int, n as int)]);
            assert(lines_from(s@, n as int) =~= Seq::<Seq<u8>>::empty());
            from = n;
        } else {
            let stop: usize = if e > from && s[e - 1] == 13 {
                e - 1
            } else {
                e
            };
            let line = copy_range(s, from, stop);
            assert(line@ =~= strip_cr(s@.subrange(from as int, e as int)));
            out.push(line);
            assert(rows_of(out@) =~= before + seq![strip_cr(s@.subrange(from as int, e as int))]);
            from = e + 1;
        }
    }
    assert(lines_from(s@, from as int) =~= Seq::<Seq<u8>>::empty());
    assert(rows_of(out@) + Seq::<Seq<u8>>::empty() =~= rows_of(out@));
    out
}

/// Whether every byte of `s` is a decimal digit.
pub open spec fn all_digits(s: Seq<u8>) -> bool {
    forall|i: int| 0 <= i < s.len() ==> is_digit(#[trigger] s[i])
}

/// The number that a run of decimal digits denotes.
pub open spec fn digits_value(s: Seq<u8>) -> nat
    decreases s.len(),
{
    if s.len() == 0 {
        0
    } else {
        digits_value(s.drop_last()) * 10 + (s.last() - 48) as nat
    }
}

/// The integer that `s` denotes in decimal: an optional sign, then at least one digit
/// and nothing else.
pub open spec fn decimal(s: Seq<u8>) -> Option<int> {
    if s.len() > 0 && (s[0] == 45 || s[0] == 43) {
        if s.len() > 1 && all_digits(s.skip(1)) {
            if s[0] == 45 {
                Some(-(digits_value(s.skip(1)) as int))
            } else {
                Some(digits_value(s.skip(1)) as int)
            }
        } else {
            None
        }
    } else if s.len() > 0 && all_digits(s) {
        Some(digits_value(s) as int)
    } else {
        None
    }
}

/// The `i32` that `s` denotes in decimal, when it denotes one that fits.
pub open spec fn decimal_i32(s: Seq<u8>) -> Option<i32> {
    match decimal(s) {
        Some(v) => if i32::MIN <= v <= i32::MAX {
            Some(v as i32)
        } else {
            None
        },
        None => None,
    }
}

/// A longer run of digits denotes no smaller number than any of its prefixes.
pub proof fn lemma_digits_prefix(s: Seq<u8>, k: int)
    requires
        0 <= k <= s.len(),
        all_digits(s),
    ensures
        digits_value(s.take(k)) <= digits_value(s),
    decreases s.len(),
{
    if k == s.len() {
        assert(s.take(k) =~= s);
    } else {
        assert(s.drop_last().take(k) =~= s.take(k));
        lemma_digits_prefix(s.drop_last(), k);
    }
}

/// Reads the digits of `s` from `from` on as a number no larger than `limit`.
pub fn parse_digits(s: &[u8], from: usize, limit: u64) -> (r: Option<u64>)
    requires
        from <= s@.len(),
    ensures
        r == if from < s@.len() && all_digits(s@.skip(from as int)) && digits_value(
            s@.skip(from as int),
        ) <= limit {
            Some(digits_value(s@.skip(from as int)) as u64)
        } else {
            None
        },
{
    let n: usize = s.len();
    if from >= n {
        return None;
    }
    let ghost tail = s@.skip(from as int);
    let mut acc: u128 = 0;
    let mut i: usize = from;
    while i < n
        invariant
            n == s@.len(),
            from <= i <= n,
            tail == s@.skip(from as int),
            all_digits(tail.take(i - from)),
            acc == digits_value(tail.take(i - from)),
            acc <= limit,
        decreases n - i,
    {
        let b: u8 = s[i];
        assert(tail[i - from] == b);
        if !(48 <= b && b <= 57) {
            return None;
        }
        let d: u128 = (b - 48) as u128;
        let next: u128 = acc * 10 + d;
        proof {
            let p = tail.take(i - from + 1);
            assert(p.drop_last() =~= tail.take(i - from));
            assert(p.last() == b);
            assert(all_digits(p)) by {
                assert forall|j: int| 0 <= j < p.len() implies is_digit(#[trigger] p[j]) by {
                    if j < i - from {
                        assert(tail.take(i - from)[j] == p[j]);
                    }
                }
            }
            assert(digits_value(p) == next);
        }
        if next > limit as u128 {
            proof {
                if all_digits(tail) {
                    lemma_digits_prefix(tail, i - from + 1);
                }
            }
            return None;
        }
        acc = next;
        i += 1;
    }
    assert(tail.take(i - from) =~= tail);
    Some(acc as u64)
}

/// Reads a whole byte string as a decimal `i32`, as `str::parse` does.
pub fn parse_i32(s: &[u8]) -> (r: Option<i32>)
    ensures
        r == decimal_i32(s@),
{
    let n: usize = s.len();
    if n == 0 {
        return None;
    }
    if s[0] == 45 {
        match parse_digits(s, 1, 2147483648) {
            Some(v) => {
                let w: i64 = -(v as i64);
                Some(w as i32)
            },
            None => None,
        }
    } else if s[0] == 43 {
        match parse_digits(s, 1, 2147483647) {
            Some(v) => Some(v as i32),
            None => None,
        }
    } else {
        assert(s@.skip(0) =~= s@);
        match parse_digits(s, 0, 2147483647) {
            Some(v) => Some(v as i32),
            None => None,
        }
    }
}

/// Turns characters into a string with `String::from_iter`. The contract claims that
/// the string holds the same characters in the same order. This is not proved here.
#[verifier::external_body]
pub(crate) fn collect_text(chars: Vec<char>) -> (r: String)
    ensures
        r@ == chars@,
{
    String::from_iter(chars)
}

} // verus!
