//! Start-of-packet and start-of-message markers in a stream of bytes.

use vstd::prelude::*;
use vstd::string::StringSliceAdditionalSpecFns;

verus! {

/// Whether the `w` bytes that end at position `end` are pairwise different and hold no
/// blank.
pub open spec fn marker_at(s: Seq<u8>, end: int, w: int) -> bool {
    &&& w <= end <= s.len()
    &&& forall|i: int| end - w <= i < end ==> s[i] != 32
    &&& forall|i: int, j: int| end - w <= i < j < end ==> s[i] != s[j]
}

/// Whether `r` is the number of bytes read when the first marker of width `w` is
/// complete, or -1 where the stream holds none.
pub open spec fn first_marker(s: Seq<u8>, w: int, r: int) -> bool {
    if r == -1 {
        forall|e: int| w <= e <= s.len() ==> !marker_at(s, e, w)
    } else {
        &&& marker_at(s, r, w)
        &&& forall|e: int| w <= e < r ==> !marker_at(s, e, w)
    }
}

/// Tests whether the window of width `w` that ends at `end` is a marker.
pub fn is_marker(s: &[u8], end: usize, w: usize) -> (r: bool)
    requires
        w <= end <= s@.len(),
    ensures
        r == marker_at(s@, end as int, w as int),
{
    let start: usize = end - w;
    let mut i: usize = start;
    while i < end
        invariant
            start == end - w,
            start <= i <= end <= s@.len(),
            forall|a: int| start <= a < i ==> s@[a] != 32,
            forall|a: int, b: int| start <= a < b < end && a < i ==> s@[a] != s@[b],
        decreases end - i,
    {
        if s[i] == 32 {
            return false;
        }
        let mut j: usize = i + 1;
        while j < end
            invariant
                start == end - w,
                start <= i < j <= end <= s@.len(),
                forall|b: int| i < b < j ==> s@[i as int] != s@[b],
            decreases end - j,
        {
            if s[i] == s[j] {
                assert(s@[i as int] == s@[j as int] && end - w <= i < j < end);
                return false;
            }
            j += 1;
        }
        i += 1;
    }
    true
}

/// Finds the end of the first marker of width `w`.
pub fn find_marker(s: &[u8], w: usize) -> (r: i32)
    requires
        0 < w,
        s@.len() <= i32::MAX,
    ensures
        first_marker(s@, w as int, r as int),
{
    let n: usize = s.len();
    if n < w {
        return -1;
    }
    let mut e: usize = w;
    while e <= n
        invariant
            w <= e <= n + 1,
            n == s@.len(),
            n <= i32::MAX,
            forall|k: int| w <= k < e ==> !marker_at(s@, k, w as int),
        decreases n + 1 - e,
    {
        if is_marker(s, e, w) {
            return e as i32;
        }
        e += 1;
    }
    -1
}

/// Number of bytes read when the first run of four different bytes is complete, or -1.
pub fn part1(input: &str) -> (r: i32)
    requires
        input.spec_bytes().len() <= i32::MAX,
    ensures
        first_marker(input.spec_bytes(), 4, r as int),
{
    find_marker(input.as_bytes(), 4)
}

/// Number of bytes read when the first run of fourteen different bytes is complete, or -1.
pub fn part2(input: &str) -> (r: i32)
    requires
        input.spec_bytes().len() <= i32::MAX,
    ensures
        first_marker(input.spec_bytes(), 14, r as int),
{
    find_marker(input.as_bytes(), 14)
}

} // verus!
