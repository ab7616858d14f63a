//! A height map: the fewest steps from a start to a goal when a step may climb by at
//! most one, or when it may drop by at most one.

use crate::text::{lines, rows_of, split_lines};
use vstd::prelude::*;
use vstd::string::StringSliceAdditionalSpecFns;

verus! {

/// A place on the map: row and column.
pub type Point = (i32, i32);

/// A grid of `m` rows and `n` columns.
pub struct Matrix<T> {
    pub inner: Vec<Vec<T>>,
    pub m: i32,
    pub n: i32,
}

/// A height map with its marked start and end.
pub struct TrailMap {
    pub topo: Matrix<u8>,
    pub start: Point,
    pub end: Point,
}

/// Whether `p` lies on a grid of `m` rows and `n` columns.
pub open spec fn inside(m: int, n: int, p: Point) -> bool {
    0 <= p.0 < m && 0 <= p.1 < n
}

impl<T> Matrix<T> {
    /// Whether the grid holds `m` rows of `n` entries.
    pub open spec fn wf(&self) -> bool {
        &&& 0 <= self.m
        &&& 0 <= self.n
        &&& self.inner@.len() == self.m
        &&& forall|i: int| 0 <= i < self.m ==> (#[trigger] self.inner@[i])@.len() == self.n
    }

    /// The entry at `p`.
    pub open spec fn at(&self, p: Point) -> T {
        self.inner@[p.0 as int]@[p.1 as int]
    }

    /// The entry at `p`, or nothing where `p` is off the grid.
    pub fn get(&self, p: &Point) -> (r: Option<&T>)
        requires
            self.wf(),
        ensures
            r is Some == inside(self.m as int, self.n as int, *p),
            r is Some ==> *r.unwrap() == self.at(*p),
    {
        if p.0 < 0 || p.1 < 0 || p.0 >= self.m || p.1 >= self.n {
            None
        } else {
            assert(self.inner@[p.0 as int]@.len() == self.n);
            Some(&self.inner[p.0 as usize][p.1 as usize])
        }
    }

    /// Puts `v` at `p`.
    pub fn set(&mut self, p: &Point, v: T)
        requires
            old(self).wf(),
            inside(old(self).m as int, old(self).n as int, *p),
        ensures
            final(self).wf(),
            final(self).m == old(self).m,
            final(self).n == old(self).n,
            final(self).at(*p) == v,
            forall|q: Point|
                inside(old(self).m as int, old(self).n as int, q) && q != *p ==> final(self).at(q)
                    == old(self).at(q),
    {
        let ghost before = self.inner;
        assert(self.inner@[p.0 as int]@.len() == self.n);
        self.inner[p.0 as usize][p.1 as usize] = v;
        proof {
            assert forall|i: int| 0 <= i < self.m implies (#[trigger] self.inner@[i])@.len()
                == self.n by {
                assert(before@[i]@.len() == self.n);
            }
        }
    }

    /// The places next to `p` that lie on the grid: below, above, right, left.
    pub fn neighbors(&self, p: &Point) -> (r: Vec<Point>)
        requires
            self.wf(),
            inside(self.m as int, self.n as int, *p),
        ensures
            r@ == around(*p).filter(|q: Point| inside(self.m as int, self.n as int, q)),
            forall|k: int|
                0 <= k < r@.len() ==> inside(self.m as int, self.n as int, #[trigger] r@[k])
                    && around(*p).contains(r@[k]),
            forall|x: int|
                0 <= x < 4 && inside(self.m as int, self.n as int, #[trigger] around(*p)[x])
                    ==> r@.contains(around(*p)[x]),
    {
        let (i, j) = *p;
        let all: Vec<Point> = vec![(i + 1, j), (i - 1, j), (i, j + 1), (i, j - 1)];
        assert(all@ =~= around(*p));
        let mut out: Vec<Point> = Vec::new();
        let mut k: usize = 0;
        let ghost keep = |q: Point| inside(self.m as int, self.n as int, q);
        assert(all@.take(0).filter(keep) =~= Seq::<Point>::empty());
        while k < all.len()
            invariant
                self.wf(),
                k <= all@.len(),
                keep == |q: Point| inside(self.m as int, self.n as int, q),
                out@ == all@.take(k as int).filter(keep),
                all@ == around(*p),
                forall|x: int|
                    0 <= x < out@.len() ==> inside(self.m as int, self.n as int, #[trigger] out@[x])
                        && all@.contains(out@[x]),
                forall|x: int|
                    0 <= x < k && inside(self.m as int, self.n as int, #[trigger] all@[x])
                        ==> out@.contains(all@[x]),
            decreases all@.len() - k,
        {
            proof {
                assert(all@.take(k + 1).drop_last() =~= all@.take(k as int));
                assert(all@.take(k + 1).last() == all@[k as int]);
                reveal(Seq::filter);
            }
            let ghost before = out@;
            if self.get(&all[k]).is_some() {
                out.push(all[k]);
                assert(out@[out@.len() - 1] == all@[k as int]);
            }
            proof {
                assert forall|x: int|
                    0 <= x < k + 1 && inside(
                        self.m as int,
                        self.n as int,
                        #[trigger] all@[x],
                    ) implies out@.contains(all@[x]) by {
                    if x < k {
                        let y = choose|y: int| 0 <= y < before.len() && before[y] == all@[x];
                        assert(out@[y] == all@[x]);
                    }
                }
            }
            k += 1;
        }
        assert(all@.take(k as int) =~= all@);
        out
    }
}

/// The four places next to `p`: below, above, right, left.
pub open spec fn around(p: Point) -> Seq<Point> {
    seq![
        ((p.0 + 1) as i32, p.1),
        ((p.0 - 1) as i32, p.1),
        (p.0, (p.1 + 1) as i32),
        (p.0, (p.1 - 1) as i32),
    ]
}

/// Whether `c` is a letter or a digit of plain text.
pub open spec fn is_mark(c: char) -> bool {
    ('a' <= c && c <= 'z') || ('A' <= c && c <= 'Z') || ('0' <= c && c <= '9')
}

/// The height that a mark stands for: `S` is 0 and `E` is 25; any other letter counts
/// from `a` or `A` as 0, and a digit `d` counts as `d - 10`.
pub open spec fn val_of(c: char) -> int {
    if c == 'S' {
        0
    } else if c == 'E' {
        25
    } else if 'a' <= c && c <= 'z' {
        c as u32 - 'a' as u32
    } else if 'A' <= c && c <= 'Z' {
        c as u32 - 'A' as u32
    } else {
        c as u32 - '0' as u32 - 10
    }
}

/// Gives the height that a mark stands for.
pub fn val(c: &char) -> (r: i32)
    requires
        is_mark(*c),
    ensures
        r == val_of(*c),
        -10 <= r <= 25,
{
    let c: char = *c;
    if c == 'S' {
        0
    } else if c == 'E' {
        25
    } else if 'a' <= c && c <= 'z' {
        (c as u32 - 'a' as u32) as i32
    } else if 'A' <= c && c <= 'Z' {
        (c as u32 - 'A' as u32) as i32
    } else {
        (c as u32 - '0' as u32) as i32 - 10
    }
}

/// The last column of `row` that holds `b`, or -1.
pub open spec fn last_index(row: Seq<u8>, b: u8) -> int
    decreases row.len(),
{
    if row.len() == 0 {
        -1
    } else if row.last() == b {
        row.len() - 1
    } else {
        last_index(row.drop_last(), b)
    }
}

/// The last place among the first `upto` rows that holds `b`, rows read top to bottom
/// and left to right; the top left corner where none does.
pub open spec fn last_place(ls: Seq<Seq<u8>>, upto: int, b: u8) -> (int, int)
    decreases upto,
{
    if upto <= 0 {
        (0, 0)
    } else if last_index(ls[upto - 1], b) >= 0 {
        (upto - 1, last_index(ls[upto - 1], b))
    } else {
        last_place(ls, upto - 1, b)
    }
}

/// Whether the lines form a grid: at least one line, all lines as long as the first,
/// and neither side longer than `i32` can count.
pub open spec fn is_map(ls: Seq<Seq<u8>>) -> bool {
    &&& 1 <= ls.len() <= i32::MAX
    &&& ls[0].len() <= i32::MAX
    &&& forall|i: int| 0 <= i < ls.len() ==> (#[trigger] ls[i]).len() == ls[0].len()
}

/// The rows of a grid of bytes.
pub open spec fn grid_rows(t: Matrix<u8>) -> Seq<Seq<u8>> {
    rows_of(t.inner@)
}

/// Reads a height map and finds the last `S` and the last `E` on it.
pub fn parse_input(input: &str) -> (r: TrailMap)
    requires
        is_map(lines(input.spec_bytes())),
    ensures
        r.topo.wf(),
        grid_rows(r.topo) == lines(input.spec_bytes()),
        pt(r.start) == last_place(lines(input.spec_bytes()), r.topo.m as int, 83),
        pt(r.end) == last_place(lines(input.spec_bytes()), r.topo.m as int, 69),
        r.topo.m >= 1,
        r.topo.n == 0 || (inside(r.topo.m as int, r.topo.n as int, r.start) && inside(
            r.topo.m as int,
            r.topo.n as int,
            r.end,
        )),
{
    let inner = split_lines(input.as_bytes());
    let ghost ls = rows_of(inner@);
    assert(ls[0] == inner@[0]@);
    let m: i32 = inner.len() as i32;
    let n: i32 = inner[0].len() as i32;
    let mut start: Point = (0, 0);
    let mut end: Point = (0, 0);
    let mut i: i32 = 0;
    while i < m
        invariant
            ls == rows_of(inner@),
            is_map(ls),
            m == ls.len(),
            n == ls[0].len(),
            0 <= i <= m,
            pt(start) == last_place(ls, i as int, 83),
            pt(end) == last_place(ls, i as int, 69),
            n == 0 || (inside(m as int, n as int, start) && inside(m as int, n as int, end)),
        decreases m - i,
    {
        let ghost row = ls[i as int];
        assert(row == inner@[i as int]@);
        let ghost start0 = start;
        let ghost end0 = end;
        let mut j: i32 = 0;
        assert(row.take(0) =~= Seq::<u8>::empty());
        while j < n
            invariant
                ls == rows_of(inner@),
                is_map(ls),
                m == ls.len(),
                n == ls[0].len(),
                0 <= i < m,
                row == ls[i as int],
                row == inner@[i as int]@,
                row.len() == n,
                0 <= j <= n,
                pt(start) == if last_index(row.take(j as int), 83) >= 0 {
                    (i as int, last_index(row.take(j as int), 83))
                } else {
                    pt(start0)
                },
                pt(end) == if last_index(row.take(j as int), 69) >= 0 {
                    (i as int, last_index(row.take(j as int), 69))
                } else {
                    pt(end0)
                },
                n == 0 || (inside(m as int, n as int, start0) && inside(m as int, n as int, end0)),
                n == 0 || (inside(m as int, n as int, start) && inside(m as int, n as int, end)),
            decreases n - j,
        {
            proof {
                assert(row.take(j + 1).drop_last() =~= row.take(j as int));
                assert(row.take(j + 1).last() == row[j as int]);
            }
            let b: u8 = inner[i as usize][j as usize];
            if b == 83 {
                start = (i, j);
            } else if b == 69 {
                end = (i, j);
            }
            j += 1;
        }
        assert(row.take(j as int) =~= row);
        i += 1;
    }
    proof {
        assert forall|k: int| 0 <= k < m implies (#[trigger] inner@[k])@.len() == n by {
            assert(ls[k] == inner@[k]@);
        }
    }
    let topo = Matrix { inner, m, n };
    TrailMap { topo, start, end }
}

/// A place as two integers.
pub open spec fn pt(p: Point) -> (int, int) {
    (p.0 as int, p.1 as int)
}

/// Which way a step may change the height by more than one.
#[derive(Clone, Copy, Debug, PartialEq, Eq)]
pub enum Slope {
    /// A step may drop as far as it likes and climb by one at most.
    Climbing,
    /// A step may climb as far as it likes and drop by one at most.
    Descending,
}

/// What a walk is to reach.
#[derive(Clone, Copy, Debug, PartialEq, Eq)]
pub enum Target {
    /// A place marked `E`.
    End,
    /// A place marked `a` or `S`.
    Lowest,
}

/// Whether a step from height `here` to height `there` is allowed.
pub open spec fn slope_ok(slope: Slope, here: int, there: int) -> bool {
    match slope {
        Slope::Climbing => there - here <= 1,
        Slope::Descending => here - there <= 1,
    }
}

/// Whether a place with mark `b` is a goal.
pub open spec fn goal_mark(target: Target, b: u8) -> bool {
    match target {
        Target::End => b == 69,
        Target::Lowest => b == 97 || b == 83,
    }
}

/// Whether every place of the map holds a letter or a digit.
pub open spec fn all_marks(rows: Seq<Seq<u8>>) -> bool {
    forall|i: int, j: int|
        0 <= i < rows.len() && 0 <= j < rows[i].len() ==> is_mark(#[trigger] rows[i][j] as char)
}

/// The mark at `p`.
pub open spec fn mark(rows: Seq<Seq<u8>>, p: Point) -> u8 {
    rows[p.0 as int][p.1 as int]
}

/// Whether `p` lies on the map.
pub open spec fn on_map(rows: Seq<Seq<u8>>, p: Point) -> bool {
    inside(rows.len() as int, rows[0].len() as int, p)
}

/// Whether one step leads from `p` to `q`: both lie on the map, next to each other,
/// and the heights allow it.
pub open spec fn may_go(rows: Seq<Seq<u8>>, slope: Slope, p: Point, q: Point) -> bool {
    &&& on_map(rows, p)
    &&& on_map(rows, q)
    &&& around(p).contains(q)
    &&& slope_ok(slope, val_of(mark(rows, p) as char), val_of(mark(rows, q) as char))
}

/// The places that `k` steps or fewer lead to from `start`.
pub open spec fn reach(rows: Seq<Seq<u8>>, slope: Slope, start: Point, k: nat) -> Set<Point>
    decreases k,
{
    if k == 0 {
        set![start]
    } else {
        Set::new(
            |q: Point|
                reach(rows, slope, start, (k - 1) as nat).contains(q) || exists|p: Point|
                    reach(rows, slope, start, (k - 1) as nat).contains(p) && #[trigger] may_go(
                        rows,
                        slope,
                        p,
                        q,
                    ),
        )
    }
}

/// Whether `r` is what the search from `start` gives: the fewest steps, at least one,
/// that lead to a goal other than `start`; or, where no steps lead to one, one more
/// than the most steps that any place is away from `start`.
pub open spec fn is_fewest(
    rows: Seq<Seq<u8>>,
    slope: Slope,
    target: Target,
    start: Point,
    r: int,
) -> bool {
    &&& r >= 1
    &&& forall|q: Point|
        #[trigger] reach(rows, slope, start, (r - 1) as nat).contains(q) && q != start
            ==> !goal_mark(target, mark(rows, q))
    &&& {
        ||| exists|q: Point|
            #[trigger] reach(rows, slope, start, r as nat).contains(q) && q != start && goal_mark(
                target,
                mark(rows, q),
            )
        ||| (reach(rows, slope, start, r as nat) == reach(rows, slope, start, (r - 1) as nat) && (r
            == 1 || reach(rows, slope, start, (r - 1) as nat) != reach(
            rows,
            slope,
            start,
            (r - 2) as nat,
        )))
    }
}

/// The rows of a grid of numbers.
pub open spec fn number_rows(v: Seq<Vec<i32>>) -> Seq<Seq<i32>> {
    Seq::new(v.len(), |i: int| v[i]@)
}

/// The number of entries of a row that are still `i32::MAX`.
pub open spec fn unset_in_row(row: Seq<i32>) -> int
    decreases row.len(),
{
    if row.len() == 0 {
        0
    } else {
        unset_in_row(row.drop_last()) + if row.last() == i32::MAX {
            1int
        } else {
            0int
        }
    }
}

/// The number of entries of a grid that are still `i32::MAX`.
pub open spec fn unset(rows: Seq<Seq<i32>>) -> int
    decreases rows.len(),
{
    if rows.len() == 0 {
        0
    } else {
        unset(rows.drop_last()) + unset_in_row(rows.last())
    }
}

/// In a row that is all `i32::MAX`, every entry counts.
proof fn lemma_row_fresh(row: Seq<i32>)
    requires
        forall|j: int| 0 <= j < row.len() ==> row[j] == i32::MAX,
    ensures
        unset_in_row(row) == row.len(),
    decreases row.len(),
{
    if row.len() > 0 {
        lemma_row_fresh(row.drop_last());
    }
}

/// In a grid that is all `i32::MAX`, every entry counts.
proof fn lemma_grid_fresh(rows: Seq<Seq<i32>>, n: int)
    requires
        forall|i: int| 0 <= i < rows.len() ==> (#[trigger] rows[i]).len() == n,
        forall|i: int, j: int| 0 <= i < rows.len() && 0 <= j < n ==> #[trigger] rows[i][j] == i32::MAX,
    ensures
        unset(rows) == rows.len() * n,
    decreases rows.len(),
{
    if rows.len() > 0 {
        lemma_grid_fresh(rows.drop_last(), n);
        lemma_row_fresh(rows.last());
        assert((rows.len() - 1) * n + n == rows.len() * n) by (nonlinear_arith);
    } else {
        assert(0 * n == 0);
    }
}

/// Setting one entry that was `i32::MAX` leaves one fewer in the row.
proof fn lemma_row_set(row: Seq<i32>, j: int, v: i32)
    requires
        0 <= j < row.len(),
        row[j] == i32::MAX,
        v != i32::MAX,
    ensures
        unset_in_row(row.update(j, v)) == unset_in_row(row) - 1,
        unset_in_row(row) >= 1,
    decreases row.len(),
{
    let after = row.update(j, v);
    if j == row.len() - 1 {
        assert(after.drop_last() =~= row.drop_last());
        lemma_row_count(row.drop_last());
    } else {
        assert(after.drop_last() =~= row.drop_last().update(j, v));
        lemma_row_set(row.drop_last(), j, v);
    }
}

/// The count of a row is not negative.
proof fn lemma_row_count(row: Seq<i32>)
    ensures
        unset_in_row(row) >= 0,
    decreases row.len(),
{
    if row.len() > 0 {
        lemma_row_count(row.drop_last());
    }
}

/// The count of a grid is not negative.
proof fn lemma_grid_count(rows: Seq<Seq<i32>>)
    ensures
        unset(rows) >= 0,
    decreases rows.len(),
{
    if rows.len() > 0 {
        lemma_grid_count(rows.drop_last());
        lemma_row_count(rows.last());
    }
}

/// Setting one entry that was `i32::MAX` leaves one fewer in the grid.
proof fn lemma_grid_set(rows: Seq<Seq<i32>>, i: int, j: int, v: i32)
    requires
        0 <= i < rows.len(),
        0 <= j < rows[i].len(),
        rows[i][j] == i32::MAX,
        v != i32::MAX,
    ensures
        unset(rows.update(i, rows[i].update(j, v))) == unset(rows) - 1,
        unset(rows) >= 1,
    decreases rows.len(),
{
    let after = rows.update(i, rows[i].update(j, v));
    if i == rows.len() - 1 {
        assert(after.drop_last() =~= rows.drop_last());
        lemma_row_set(rows[i], j, v);
        lemma_grid_count(rows.drop_last());
    } else {
        assert(after.drop_last() =~= rows.drop_last().update(i, rows[i].update(j, v)));
        lemma_grid_set(rows.drop_last(), i, j, v);
        lemma_row_count(rows.last());
    }
}

/// Tests whether a step from height `here` to height `there` is allowed.
pub fn path_ok(slope: Slope, here: i32, there: i32) -> (r: bool)
    requires
        -10 <= here <= 25,
        -10 <= there <= 25,
    ensures
        r == slope_ok(slope, here as int, there as int),
{
    match slope {
        Slope::Climbing => there - here <= 1,
        Slope::Descending => here - there <= 1,
    }
}

/// Tests whether a place with mark `b` is a goal.
pub fn is_goal(target: Target, b: u8) -> (r: bool)
    ensures
        r == goal_mark(target, b),
{
    match target {
        Target::End => b == 69,
        Target::Lowest => b == 97 || b == 83,
    }
}

/// Whether the search has been at `q`.
pub open spec fn seen(dist: Matrix<i32>, q: Point) -> bool {
    dist.at(q) != i32::MAX
}

/// One step on from a place within `k` steps is a place within `k + 1` steps, and
/// so is every place within `k` steps; nothing else is.
pub proof fn lemma_reach_next(rows: Seq<Seq<u8>>, slope: Slope, start: Point, k: nat, q: Point)
    ensures
        reach(rows, slope, start, k + 1).contains(q) <==> (reach(rows, slope, start, k).contains(q)
            || exists|p: Point|
            reach(rows, slope, start, k).contains(p) && #[trigger] may_go(rows, slope, p, q)),
{
    assert(reach(rows, slope, start, ((k + 1) - 1) as nat) == reach(rows, slope, start, k));
}

/// Builds a grid of `m` rows and `n` columns in which no place has been seen.
pub fn fresh_grid(m: i32, n: i32) -> (dist: Matrix<i32>)
    requires
        0 <= m,
        0 <= n,
    ensures
        dist.wf(),
        dist.m == m,
        dist.n == n,
        forall|q: Point| inside(m as int, n as int, q) ==> !seen(dist, q),
        unset(number_rows(dist.inner@)) == m * n,
{
    let inner: Vec<Vec<i32>> = vec![vec![i32::MAX; n as usize]; m as usize];
    let dist = Matrix { inner, m, n };
    proof {
        let rows = number_rows(dist.inner@);
        assert forall|i: int| 0 <= i < rows.len() implies (#[trigger] rows[i]).len() == n by {
            assert(dist.inner@[i]@.len() == n);
        }
        assert forall|i: int, j: int| 0 <= i < rows.len() && 0 <= j < n implies #[trigger] rows[i][j]
            == i32::MAX by {
            assert(dist.inner@[i]@[j] == i32::MAX);
        }
        lemma_grid_fresh(rows, n as int);
    }
    dist
}

/// Records that the search has come to `q` after `v` steps.
pub fn mark_seen(dist: &mut Matrix<i32>, q: &Point, v: i32)
    requires
        old(dist).wf(),
        inside(old(dist).m as int, old(dist).n as int, *q),
        !seen(*old(dist), *q),
        v != i32::MAX,
    ensures
        final(dist).wf(),
        final(dist).m == old(dist).m,
        final(dist).n == old(dist).n,
        seen(*final(dist), *q),
        forall|p: Point|
            inside(old(dist).m as int, old(dist).n as int, p) && p != *q ==> seen(*final(dist), p)
                == seen(*old(dist), p),
        unset(number_rows(final(dist).inner@)) == unset(number_rows(old(dist).inner@)) - 1,
        unset(number_rows(old(dist).inner@)) >= 1,
{
    let ghost before = *dist;
    dist.set(q, v);
    proof {
        let b = number_rows(before.inner@);
        let a = number_rows(dist.inner@);
        let i = q.0 as int;
        let j = q.1 as int;
        let want = b.update(i, b[i].update(j, v));
        assert(a.len() == want.len());
        assert forall|x: int| 0 <= x < a.len() implies a[x] =~= want[x] by {
            assert(dist.inner@[x]@.len() == dist.n);
            assert(before.inner@[x]@.len() == dist.n);
            assert forall|y: int| 0 <= y < dist.n implies a[x][y] == want[x][y] by {
                let p: Point = (x as i32, y as i32);
                if p != *q {
                    assert(dist.at(p) == before.at(p));
                } else {
                    assert(dist.at(p) == v);
                }
            }
        }
        assert(a =~= want);
        assert(before.inner@[i]@.len() == dist.n);
        lemma_grid_set(b, i, j, v);
    }
}

/// Searches for the fewest steps from `start` to a goal, place by place in the order
/// of their distance.
pub fn shortest_path(topo: &Matrix<u8>, start: Point, slope: Slope, target: Target) -> (r: i32)
    requires
        topo.wf(),
        inside(topo.m as int, topo.n as int, start),
        all_marks(grid_rows(*topo)),
        topo.m * topo.n < i32::MAX,
    ensures
        is_fewest(grid_rows(*topo), slope, target, start, r as int),
{
    let ghost rows = grid_rows(*topo);
    let ghost m = topo.m as int;
    let ghost n = topo.n as int;
    let ghost total = m * n;
    proof {
        assert(rows.len() == m);
        assert(rows[0] == topo.inner@[0]@);
        assert(rows[0].len() == n);
        assert(1 * 1 <= m * n) by (nonlinear_arith)
            requires
                1 <= m,
                1 <= n,
        ;
    }
    let mut dist: Matrix<i32> = fresh_grid(topo.m, topo.n);
    mark_seen(&mut dist, &start, 0);
    let mut left: i32 = topo.m * topo.n - 1;
    let mut frontier: Vec<Point> = Vec::new();
    frontier.push(start);
    let mut k: i32 = 0;
    proof {
        assert(frontier@[0] == start);
        assert forall|q: Point| reach(rows, slope, start, 0).contains(q) implies frontier@.contains(
            q,
        ) by {
            assert(frontier@[0] == q);
        }
    }
    loop
        invariant
            rows == grid_rows(*topo),
            m == topo.m,
            n == topo.n,
            total == m * n,
            total < i32::MAX,
            rows.len() == m,
            rows[0].len() == n,
            topo.wf(),
            all_marks(rows),
            inside(m, n, start),
            dist.wf(),
            dist.m == topo.m,
            dist.n == topo.n,
            0 <= k,
            0 <= left,
            k + left < total,
            left == unset(number_rows(dist.inner@)),
            frontier@.len() >= 1,
            seen(dist, start),
            forall|q: Point|
                inside(m, n, q) ==> (seen(dist, q) <==> #[trigger] reach(
                    rows,
                    slope,
                    start,
                    k as nat,
                ).contains(q)),
            forall|q: Point| #[trigger]
                reach(rows, slope, start, k as nat).contains(q) ==> inside(m, n, q),
            forall|i: int|
                0 <= i < frontier@.len() ==> reach(rows, slope, start, k as nat).contains(
                    #[trigger] frontier@[i],
                ) && (k >= 1 ==> !reach(rows, slope, start, (k - 1) as nat).contains(frontier@[i])),
            forall|q: Point|
                #[trigger] reach(rows, slope, start, k as nat).contains(q) && (k == 0 || !reach(
                    rows,
                    slope,
                    start,
                    (k - 1) as nat,
                ).contains(q)) ==> frontier@.contains(q),
            forall|q: Point|
                #[trigger] reach(rows, slope, start, k as nat).contains(q) && q != start
                    ==> !goal_mark(target, mark(rows, q)),
        decreases left,
    {
        let ghost left0 = left;
        let mut next: Vec<Point> = Vec::new();
        let mut fi: usize = 0;
        proof {
            assert forall|q: Point| inside(m, n, q) && seen(dist, q) implies reach(
                rows,
                slope,
                start,
                (k + 1) as nat,
            ).contains(q) by {
                lemma_reach_next(rows, slope, start, k as nat, q);
            }
            assert forall|q: Point|
                inside(m, n, q) && #[trigger] seen(dist, q) && q != start implies !goal_mark(
                target,
                mark(rows, q),
            ) by {
                assert(reach(rows, slope, start, k as nat).contains(q));
            }
        }
        while fi < frontier.len()
            invariant
                rows == grid_rows(*topo),
                m == topo.m,
                n == topo.n,
                total == m * n,
                total < i32::MAX,
                rows.len() == m,
                rows[0].len() == n,
                topo.wf(),
                all_marks(rows),
                inside(m, n, start),
                dist.wf(),
                dist.m == topo.m,
                dist.n == topo.n,
                0 <= k,
                0 <= left,
                k + left0 < total,
                left + next@.len() == left0,
                left == unset(number_rows(dist.inner@)),
                fi <= frontier@.len(),
                seen(dist, start),
                forall|i: int|
                    0 <= i < frontier@.len() ==> reach(rows, slope, start, k as nat).contains(
                        #[trigger] frontier@[i],
                    ),
                forall|q: Point| #[trigger]
                    reach(rows, slope, start, k as nat).contains(q) ==> inside(m, n, q) && seen(
                        dist,
                        q,
                    ),
                forall|q: Point|
                    inside(m, n, q) && #[trigger] seen(dist, q) ==> reach(
                        rows,
                        slope,
                        start,
                        (k + 1) as nat,
                    ).contains(q),
                forall|i: int, q: Point|
                    0 <= i < fi && #[trigger] may_go(rows, slope, frontier@[i], q) ==> seen(dist, q),
                forall|x: int|
                    0 <= x < next@.len() ==> inside(m, n, #[trigger] next@[x]) && seen(
                        dist,
                        next@[x],
                    ) && !reach(rows, slope, start, k as nat).contains(next@[x]),
                forall|q: Point|
                    inside(m, n, q) && #[trigger] seen(dist, q) && !reach(
                        rows,
                        slope,
                        start,
                        k as nat,
                    ).contains(q) ==> next@.contains(q),
                forall|q: Point|
                    inside(m, n, q) && #[trigger] seen(dist, q) && q != start ==> !goal_mark(
                        target,
                        mark(rows, q),
                    ),
                forall|q: Point|
                    #[trigger] reach(rows, slope, start, k as nat).contains(q) && q != start
                        ==> !goal_mark(target, mark(rows, q)),
            decreases frontier@.len() - fi,
        {
            let p: Point = frontier[fi];
            proof {
                assert(reach(rows, slope, start, k as nat).contains(frontier@[fi as int]));
                assert(inside(m, n, p));
                assert(rows[p.0 as int] == topo.inner@[p.0 as int]@);
                assert(is_mark(rows[p.0 as int][p.1 as int] as char));
            }
            let here: i32 = match topo.get(&p) {
                Some(b) => val(&(*b as char)),
                None => 0,
            };
            let ns = topo.neighbors(&p);
            let mut ni: usize = 0;
            while ni < ns.len()
                invariant
                    rows == grid_rows(*topo),
                    m == topo.m,
                    n == topo.n,
                    total == m * n,
                    total < i32::MAX,
                    rows.len() == m,
                    rows[0].len() == n,
                    topo.wf(),
                    all_marks(rows),
                    inside(m, n, start),
                    dist.wf(),
                    dist.m == topo.m,
                    dist.n == topo.n,
                    0 <= k,
                    0 <= left,
                    k + left0 < total,
                    left + next@.len() == left0,
                    left == unset(number_rows(dist.inner@)),
                    fi < frontier@.len(),
                    p == frontier@[fi as int],
                    inside(m, n, p),
                    here == val_of(mark(rows, p) as char),
                    -10 <= here <= 25,
                    ni <= ns@.len(),
                    seen(dist, start),
                    forall|x: int|
                        0 <= x < ns@.len() ==> inside(m, n, #[trigger] ns@[x]) && around(p).contains(
                            ns@[x],
                        ),
                    forall|i: int|
                        0 <= i < frontier@.len() ==> reach(rows, slope, start, k as nat).contains(
                            #[trigger] frontier@[i],
                        ),
                    forall|q: Point| #[trigger]
                        reach(rows, slope, start, k as nat).contains(q) ==> inside(m, n, q) && seen(
                            dist,
                            q,
                        ),
                    forall|q: Point|
                        inside(m, n, q) && #[trigger] seen(dist, q) ==> reach(
                            rows,
                            slope,
                            start,
                            (k + 1) as nat,
                        ).contains(q),
                    forall|i: int, q: Point|
                        0 <= i < fi && #[trigger] may_go(rows, slope, frontier@[i], q) ==> seen(
                            dist,
                            q,
                        ),
                    forall|x: int|
                        0 <= x < ni && may_go(rows, slope, p, #[trigger] ns@[x]) ==> seen(
                            dist,
                            ns@[x],
                        ),
                    forall|x: int|
                        0 <= x < next@.len() ==> inside(m, n, #[trigger] next@[x]) && seen(
                            dist,
                            next@[x],
                        ) && !reach(rows, slope, start, k as nat).contains(next@[x]),
                    forall|q: Point|
                        inside(m, n, q) && #[trigger] seen(dist, q) && !reach(
                            rows,
                            slope,
                            start,
                            k as nat,
                        ).contains(q) ==> next@.contains(q),
                    forall|q: Point|
                        inside(m, n, q) && #[trigger] seen(dist, q) && q != start ==> !goal_mark(
                            target,
                            mark(rows, q),
                        ),
                    forall|q: Point|
                        #[trigger] reach(rows, slope, start, k as nat).contains(q) && q != start
                            ==> !goal_mark(target, mark(rows, q)),
                decreases ns@.len() - ni,
            {
                let q: Point = ns[ni];
                proof {
                    assert(inside(m, n, ns@[ni as int]));
                    assert(rows[q.0 as int] == topo.inner@[q.0 as int]@);
                    assert(is_mark(rows[q.0 as int][q.1 as int] as char));
                }
                let fresh: bool = match dist.get(&q) {
                    Some(d) => *d == i32::MAX,
                    None => false,
                };
                if fresh {
                    let mark_q: u8 = match topo.get(&q) {
                        Some(b) => *b,
                        None => 0,
                    };
                    let there: i32 = val(&(mark_q as char));
                    if path_ok(slope, here, there) {
                        let ghost before = dist;
                        let ghost next_before = next@;
                        proof {
                            assert(may_go(rows, slope, p, q));
                            lemma_reach_next(rows, slope, start, k as nat, q);
                            assert(!reach(rows, slope, start, k as nat).contains(q));
                        }
                        mark_seen(&mut dist, &q, k + 1);
                        left -= 1;
                        proof {
                            assert forall|z: Point| inside(m, n, z) && seen(before, z) implies seen(
                                dist,
                                z,
                            ) by {}
                        }
                        if is_goal(target, mark_q) {
                            proof {
                                assert(reach(rows, slope, start, (k + 1) as nat).contains(q));
                                assert(q != start);
                            }
                            return k + 1;
                        }
                        next.push(q);
                        proof {
                            assert(next@[next@.len() - 1] == q);
                            assert forall|z: Point|
                                inside(m, n, z) && #[trigger] seen(dist, z) && !reach(
                                    rows,
                                    slope,
                                    start,
                                    k as nat,
                                ).contains(z) implies next@.contains(z) by {
                                if z != q {
                                    assert(seen(before, z));
                                    let x = choose|x: int|
                                        0 <= x < next_before.len() && next_before[x] == z;
                                    assert(next@[x] == z);
                                }
                            }
                            assert forall|x: int| 0 <= x < next@.len() implies inside(
                                m,
                                n,
                                #[trigger] next@[x],
                            ) && seen(dist, next@[x]) && !reach(
                                rows,
                                slope,
                                start,
                                k as nat,
                            ).contains(next@[x]) by {
                                if x < next_before.len() {
                                    assert(next@[x] == next_before[x]);
                                    assert(seen(before, next_before[x]));
                                }
                            }
                        }
                    }
                }
                ni += 1;
            }
            proof {
                assert forall|q: Point| #[trigger] may_go(rows, slope, p, q) implies seen(dist, q) by {
                    let x = choose|x: int| 0 <= x < 4 && around(p)[x] == q;
                    assert(inside(m, n, around(p)[x]));
                    assert(ns@.contains(around(p)[x]));
                    let y = choose|y: int| 0 <= y < ns@.len() && ns@[y] == q;
                    assert(may_go(rows, slope, p, ns@[y]));
                }
            }
            fi += 1;
        }
        proof {
            assert forall|q: Point| #[trigger]
                reach(rows, slope, start, (k + 1) as nat).contains(q) implies inside(m, n, q)
                && seen(dist, q) by {
                lemma_reach_next(rows, slope, start, k as nat, q);
                if !reach(rows, slope, start, k as nat).contains(q) {
                    let p = choose|p: Point|
                        reach(rows, slope, start, k as nat).contains(p) && #[trigger] may_go(
                            rows,
                            slope,
                            p,
                            q,
                        );
                    if k >= 1 && reach(rows, slope, start, (k - 1) as nat).contains(p) {
                        lemma_reach_next(rows, slope, start, (k - 1) as nat, q);
                        assert(false);
                    }
                    assert(frontier@.contains(p));
                    let i = choose|i: int| 0 <= i < frontier@.len() && frontier@[i] == p;
                    assert(may_go(rows, slope, frontier@[i], q));
                }
            }
        }
        if next.len() == 0 {
            proof {
                let now = reach(rows, slope, start, k as nat);
                let then = reach(rows, slope, start, (k + 1) as nat);
                assert forall|q: Point| then.contains(q) <==> now.contains(q) by {
                    lemma_reach_next(rows, slope, start, k as nat, q);
                    if then.contains(q) && !now.contains(q) {
                        assert(seen(dist, q));
                        assert(next@.contains(q));
                    }
                }
                assert(then =~= now);
                if k >= 1 {
                    assert(now.contains(frontier@[0]));
                    assert(!reach(rows, slope, start, (k - 1) as nat).contains(frontier@[0]));
                }
            }
            return k + 1;
        }
        proof {
            assert forall|q: Point|
                #[trigger] reach(rows, slope, start, (k + 1) as nat).contains(q) && !reach(
                    rows,
                    slope,
                    start,
                    k as nat,
                ).contains(q) implies next@.contains(q) by {
                assert(seen(dist, q));
            }
            assert forall|q: Point|
                #[trigger] reach(rows, slope, start, (k + 1) as nat).contains(q) && q
                    != start implies !goal_mark(target, mark(rows, q)) by {
                assert(seen(dist, q));
            }
            assert forall|i: int| 0 <= i < next@.len() implies reach(
                rows,
                slope,
                start,
                (k + 1) as nat,
            ).contains(#[trigger] next@[i]) && !reach(rows, slope, start, k as nat).contains(
                next@[i],
            ) by {
                assert(seen(dist, next@[i]));
            }
        }
        frontier = next;
        k += 1;
    }
}

/// The place with the given row and column.
pub open spec fn place(p: (int, int)) -> Point {
    (p.0 as i32, p.1 as i32)
}

/// Whether the lines are a height map that the search can walk: a grid of letters and
/// digits with at least one column and fewer places than `i32` can count.
pub open spec fn is_trail_map(ls: Seq<Seq<u8>>) -> bool {
    &&& is_map(ls)
    &&& all_marks(ls)
    &&& ls[0].len() >= 1
    &&& ls.len() * ls[0].len() < i32::MAX
}

/// The fewest steps from the last `S` to an `E`, climbing by one at most in each step.
pub fn part1(input: &str) -> (r: i32)
    requires
        is_trail_map(lines(input.spec_bytes())),
    ensures
        is_fewest(
            lines(input.spec_bytes()),
            Slope::Climbing,
            Target::End,
            place(last_place(lines(input.spec_bytes()), lines(input.spec_bytes()).len() as int, 83)),
            r as int,
        ),
{
    let map = parse_input(input);
    let TrailMap { topo, start, end } = map;
    shortest_path(&topo, start, Slope::Climbing, Target::End)
}

/// The fewest steps from the last `E` to an `a` or an `S`, dropping by one at most in
/// each step.
pub fn part2(input: &str) -> (r: i32)
    requires
        is_trail_map(lines(input.spec_bytes())),
    ensures
        is_fewest(
            lines(input.spec_bytes()),
            Slope::Descending,
            Target::Lowest,
            place(last_place(lines(input.spec_bytes()), lines(input.spec_bytes()).len() as int, 69)),
            r as int,
        ),
{
    let map = parse_input(input);
    let TrailMap { topo, start, end } = map;
    shortest_path(&topo, end, Slope::Descending, Target::Lowest)
}

} // verus!
