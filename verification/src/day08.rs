//! A grid of tree heights: which trees can be seen from outside, and how far one can
//! see from a tree.

use crate::text::{is_digit, lines, rows_of, split_lines};
use vstd::prelude::*;
use vstd::string::StringSliceAdditionalSpecFns;

verus! {

/// The longest side of a grid for which every scenic score fits in `i32`.
pub const MAX_SIDE: usize = 215;

/// Whether `t` has `h` rows of `w` trees each.
pub open spec fn is_grid(t: Vec<Vec<u32>>, w: int, h: int) -> bool {
    &&& t@.len() == h
    &&& forall|x: int| 0 <= x < h ==> (#[trigger] t@[x])@.len() == w
}

/// The trees above the tree in row `x` and column `y`, the nearest first.
pub open spec fn above(t: Vec<Vec<u32>>, x: int, y: int) -> Seq<u32> {
    Seq::new(x as nat, |k: int| t@[x - 1 - k]@[y])
}

/// The trees below it, the nearest first.
pub open spec fn below(t: Vec<Vec<u32>>, x: int, y: int, h: int) -> Seq<u32> {
    Seq::new((h - x - 1) as nat, |k: int| t@[x + 1 + k]@[y])
}

/// The trees to its left, the nearest first.
pub open spec fn left_of(t: Vec<Vec<u32>>, x: int, y: int) -> Seq<u32> {
    Seq::new(y as nat, |k: int| t@[x]@[y - 1 - k])
}

/// The trees to its right, the nearest first.
pub open spec fn right_of(t: Vec<Vec<u32>>, x: int, y: int, w: int) -> Seq<u32> {
    Seq::new((w - y - 1) as nat, |k: int| t@[x]@[y + 1 + k])
}

/// How many trees of `line` can be seen from a tree of the given height, from position
/// `from` on: all up to and with the first that is as tall or taller.
pub open spec fn seen(line: Seq<u32>, from: int, height: u32) -> int
    decreases line.len() - from,
{
    if from < 0 || from >= line.len() {
        0
    } else if line[from] >= height {
        1
    } else {
        1 + seen(line, from + 1, height)
    }
}

/// Whether every tree of `line` is lower than `height`.
pub open spec fn clear(line: Seq<u32>, height: u32) -> bool {
    forall|k: int| 0 <= k < line.len() ==> #[trigger] line[k] < height
}

/// Whether the tree at (`x`, `y`) can be seen from outside the grid: it stands on the
/// edge, or all trees between it and some edge are lower.
pub open spec fn visible(t: Vec<Vec<u32>>, x: int, y: int, w: int, h: int) -> bool {
    let height = t@[x]@[y];
    clear(above(t, x, y), height) || clear(below(t, x, y, h), height) || clear(
        left_of(t, x, y),
        height,
    ) || clear(right_of(t, x, y, w), height)
}

/// The scenic score of the tree at (`x`, `y`): the numbers of trees seen in the four
/// directions, multiplied.
pub open spec fn scenic(t: Vec<Vec<u32>>, x: int, y: int, w: int, h: int) -> int {
    let height = t@[x]@[y];
    seen(above(t, x, y), 0, height) * seen(left_of(t, x, y), 0, height) * seen(
        right_of(t, x, y, w),
        0,
        height,
    ) * seen(below(t, x, y, h), 0, height)
}

/// The number of visible trees among the first `y` of row `x`.
pub open spec fn visible_in_row(t: Vec<Vec<u32>>, x: int, y: int, w: int, h: int) -> int
    decreases y,
{
    if y <= 0 {
        0
    } else {
        visible_in_row(t, x, y - 1, w, h) + if visible(t, x, y - 1, w, h) {
            1int
        } else {
            0int
        }
    }
}

/// The number of visible trees in the first `x` rows.
pub open spec fn visible_in_rows(t: Vec<Vec<u32>>, x: int, w: int, h: int) -> int
    decreases x,
{
    if x <= 0 {
        0
    } else {
        visible_in_rows(t, x - 1, w, h) + visible_in_row(t, x - 1, w, w, h)
    }
}

/// Whether the text is a grid of digits with at least one row.
pub open spec fn is_digits(ls: Seq<Seq<u8>>) -> bool {
    &&& ls.len() >= 1
    &&& forall|i: int, j: int|
        0 <= i < ls.len() && 0 <= j < ls[i].len() ==> is_digit(#[trigger] ls[i][j])
}

/// Whether `t` holds the digits of the lines as numbers.
pub open spec fn digits_of(ls: Seq<Seq<u8>>, t: Vec<Vec<u32>>) -> bool {
    &&& t@.len() == ls.len()
    &&& forall|i: int| 0 <= i < ls.len() ==> (#[trigger] t@[i])@.len() == ls[i].len()
    &&& forall|i: int, j: int|
        0 <= i < ls.len() && 0 <= j < ls[i].len() ==> #[trigger] t@[i]@[j] == ls[i][j] - 48
}

/// Whether the text is a grid of digits whose rows are all as long as the first, no
/// side longer than `MAX_SIDE`.
pub open spec fn is_forest(ls: Seq<Seq<u8>>) -> bool {
    &&& is_digits(ls)
    &&& ls.len() <= MAX_SIDE
    &&& 1 <= ls[0].len() <= MAX_SIDE
    &&& forall|i: int| 0 <= i < ls.len() ==> (#[trigger] ls[i]).len() == ls[0].len()
}

/// Reads a grid of digits; the numbers that come with it are the length of its first
/// row and the number of its rows.
pub fn parse_matrix(input: &str) -> (r: (Vec<Vec<u32>>, usize, usize))
    requires
        is_digits(lines(input.spec_bytes())),
    ensures
        digits_of(lines(input.spec_bytes()), r.0),
        r.1 == lines(input.spec_bytes())[0].len(),
        r.2 == lines(input.spec_bytes()).len(),
{
    let ls = split_lines(input.as_bytes());
    let ghost rows = rows_of(ls@);
    let mut matrix: Vec<Vec<u32>> = Vec::new();
    let mut i: usize = 0;
    while i < ls.len()
        invariant
            rows == rows_of(ls@),
            is_digits(rows),
            i <= ls@.len(),
            matrix@.len() == i,
            forall|a: int| 0 <= a < i ==> (#[trigger] matrix@[a])@.len() == rows[a].len(),
            forall|a: int, b: int|
                0 <= a < i && 0 <= b < rows[a].len() ==> #[trigger] matrix@[a]@[b] == rows[a][b]
                    - 48,
        decreases ls@.len() - i,
    {
        let mut row: Vec<u32> = Vec::new();
        let mut j: usize = 0;
        assert(rows[i as int] == ls@[i as int]@);
        while j < ls[i].len()
            invariant
                rows == rows_of(ls@),
                is_digits(rows),
                i < ls@.len(),
                rows[i as int] == ls@[i as int]@,
                j <= ls@[i as int]@.len(),
                row@.len() == j,
                forall|b: int| 0 <= b < j ==> #[trigger] row@[b] == rows[i as int][b] - 48,
            decreases ls@[i as int]@.len() - j,
        {
            assert(is_digit(rows[i as int][j as int]));
            row.push((ls[i][j] - 48) as u32);
            j += 1;
        }
        matrix.push(row);
        i += 1;
    }
    assert(rows[0] == ls@[0]@);
    let h: usize = matrix.len();
    let w: usize = matrix[0].len();
    (matrix, w, h)
}

/// Counts the trees of `line` that can be seen from a tree of the given height, and
/// tells whether all of them are lower.
pub fn look(line: &Vec<u32>, height: u32) -> (r: (usize, bool))
    ensures
        r.0 == seen(line@, 0, height),
        r.1 == clear(line@, height),
        r.0 <= line@.len(),
{
    let mut count: usize = 0;
    let mut i: usize = 0;
    while i < line.len()
        invariant
            i <= line@.len(),
            count == i,
            seen(line@, 0, height) == count + seen(line@, i as int, height),
            forall|k: int| 0 <= k < i ==> #[trigger] line@[k] < height,
        decreases line@.len() - i,
    {
        count += 1;
        if line[i] >= height {
            return (count, false);
        }
        i += 1;
    }
    (count, true)
}

/// Collects the trees above, to the left, to the right and below the tree at
/// (`x`, `y`), each list with the nearest tree first.
pub fn sight_lines(trees: &Vec<Vec<u32>>, x: usize, y: usize, w: usize, h: usize) -> (r: (
    Vec<u32>,
    Vec<u32>,
    Vec<u32>,
    Vec<u32>,
))
    requires
        is_grid(*trees, w as int, h as int),
        x < h,
        y < w,
    ensures
        r.0@ == above(*trees, x as int, y as int),
        r.1@ == left_of(*trees, x as int, y as int),
        r.2@ == right_of(*trees, x as int, y as int, w as int),
        r.3@ == below(*trees, x as int, y as int, h as int),
{
    let mut up: Vec<u32> = Vec::new();
    let mut xx: usize = x;
    while xx > 0
        invariant
            is_grid(*trees, w as int, h as int),
            x < h,
            y < w,
            xx <= x,
            up@.len() == x - xx,
            forall|k: int| 0 <= k < up@.len() ==> #[trigger] up@[k] == trees@[x - 1 - k]@[y as int],
        decreases xx,
    {
        xx -= 1;
        assert(trees@[xx as int]@.len() == w);
        up.push(trees[xx][y]);
    }
    assert(up@ =~= above(*trees, x as int, y as int));
    assert(trees@[x as int]@.len() == w);
    let mut left: Vec<u32> = Vec::new();
    let mut yy: usize = y;
    while yy > 0
        invariant
            x < h,
            y < w,
            trees@.len() == h,
            trees@[x as int]@.len() == w,
            yy <= y,
            left@.len() == y - yy,
            forall|k: int| 0 <= k < left@.len() ==> #[trigger] left@[k] == trees@[x as int]@[y - 1 - k],
        decreases yy,
    {
        yy -= 1;
        left.push(trees[x][yy]);
    }
    assert(left@ =~= left_of(*trees, x as int, y as int));
    let mut right: Vec<u32> = Vec::new();
    let mut yy: usize = y + 1;
    while yy < w
        invariant
            x < h,
            y < w,
            trees@.len() == h,
            trees@[x as int]@.len() == w,
            y < yy <= w,
            right@.len() == yy - y - 1,
            forall|k: int|
                0 <= k < right@.len() ==> #[trigger] right@[k] == trees@[x as int]@[y + 1 + k],
        decreases w - yy,
    {
        right.push(trees[x][yy]);
        yy += 1;
    }
    assert(right@ =~= right_of(*trees, x as int, y as int, w as int));
    let mut down: Vec<u32> = Vec::new();
    let mut xx: usize = x + 1;
    while xx < h
        invariant
            is_grid(*trees, w as int, h as int),
            x < h,
            y < w,
            x < xx <= h,
            down@.len() == xx - x - 1,
            forall|k: int| 0 <= k < down@.len() ==> #[trigger] down@[k] == trees@[x + 1 + k]@[y as int],
        decreases h - xx,
    {
        assert(trees@[xx as int]@.len() == w);
        down.push(trees[xx][y]);
        xx += 1;
    }
    assert(down@ =~= below(*trees, x as int, y as int, h as int));
    (up, left, right, down)
}

/// Tests whether the tree at (`x`, `y`) can be seen from outside the grid.
pub fn is_visible(trees: &Vec<Vec<u32>>, x: usize, y: usize, w: usize, h: usize) -> (r: bool)
    requires
        is_grid(*trees, w as int, h as int),
        x < h,
        y < w,
    ensures
        r == visible(*trees, x as int, y as int, w as int, h as int),
{
    assert(trees@[x as int]@.len() == w);
    let height: u32 = trees[x][y];
    let (up, left, right, down) = sight_lines(trees, x, y, w, h);
    look(&up, height).1 || look(&down, height).1 || look(&left, height).1 || look(&right, height).1
}

/// Computes the scenic score of a tree.
pub fn scenic_score(tree: (usize, usize), trees: &Vec<Vec<u32>>, w: usize, h: usize) -> (r: i32)
    requires
        is_grid(*trees, w as int, h as int),
        tree.0 < h <= MAX_SIDE,
        tree.1 < w <= MAX_SIDE,
    ensures
        r == scenic(*trees, tree.0 as int, tree.1 as int, w as int, h as int),
        0 <= r,
{
    let (x, y) = tree;
    assert(trees@[x as int]@.len() == w);
    let height: u32 = trees[x][y];
    let (ups, lefts, rights, downs) = sight_lines(trees, x, y, w, h);
    let up: i64 = look(&ups, height).0 as i64;
    let left: i64 = look(&lefts, height).0 as i64;
    let right: i64 = look(&rights, height).0 as i64;
    let down: i64 = look(&downs, height).0 as i64;
    assert(0 <= up * left <= 214 * 214) by (nonlinear_arith)
        requires
            0 <= up <= 214,
            0 <= left <= 214,
    ;
    assert(0 <= up * left * right <= 214 * 214 * 214) by (nonlinear_arith)
        requires
            0 <= up * left <= 214 * 214,
            0 <= right <= 214,
    ;
    assert(0 <= up * left * right * down <= 214 * 214 * 214 * 214) by (nonlinear_arith)
        requires
            0 <= up * left * right <= 214 * 214 * 214,
            0 <= down <= 214,
    ;
    (up * left * right * down) as i32
}

/// Counts the trees of a square grid that can be seen from outside it.
pub fn part1(input: &str) -> (r: i32)
    requires
        is_forest(lines(input.spec_bytes())),
        lines(input.spec_bytes()).len() == lines(input.spec_bytes())[0].len(),
    ensures
        exists|t: Vec<Vec<u32>>| #[trigger]
            digits_of(lines(input.spec_bytes()), t) && r == visible_in_rows(
                t,
                lines(input.spec_bytes()).len() as int,
                lines(input.spec_bytes())[0].len() as int,
                lines(input.spec_bytes()).len() as int,
            ),
{
    let (trees, w, h) = parse_matrix(input);
    let mut count: i32 = 0;
    let mut x: usize = 0;
    while x < h
        invariant
            is_grid(trees, w as int, h as int),
            1 <= w <= MAX_SIDE,
            h <= MAX_SIDE,
            x <= h,
            count == visible_in_rows(trees, x as int, w as int, h as int),
            0 <= count <= x * w,
        decreases h - x,
    {
        let mut in_row: i32 = 0;
        let mut y: usize = 0;
        while y < w
            invariant
                is_grid(trees, w as int, h as int),
                x < h,
                y <= w <= MAX_SIDE,
                in_row == visible_in_row(trees, x as int, y as int, w as int, h as int),
                0 <= in_row <= y,
            decreases w - y,
        {
            if is_visible(&trees, x, y, w, h) {
                in_row += 1;
            }
            y += 1;
        }
        assert(x * w + w == (x + 1) * w) by (nonlinear_arith);
        assert((x + 1) * w <= 215 * 215) by (nonlinear_arith)
            requires
                x + 1 <= 215,
                w <= 215,
        ;
        count += in_row;
        x += 1;
    }
    count
}

/// Whether `r` is the highest scenic score of the grid.
pub open spec fn is_best_view(t: Vec<Vec<u32>>, w: int, h: int, r: int) -> bool {
    &&& exists|x: int, y: int| 0 <= x < h && 0 <= y < w && #[trigger] scenic(t, x, y, w, h) == r
    &&& forall|x: int, y: int| 0 <= x < h && 0 <= y < w ==> #[trigger] scenic(t, x, y, w, h) <= r
}

/// Finds the highest scenic score of the grid.
pub fn part2(input: &str) -> (r: i32)
    requires
        is_forest(lines(input.spec_bytes())),
    ensures
        exists|t: Vec<Vec<u32>>| #[trigger]
            digits_of(lines(input.spec_bytes()), t) && is_best_view(
                t,
                lines(input.spec_bytes())[0].len() as int,
                lines(input.spec_bytes()).len() as int,
                r as int,
            ),
{
    let (trees, w, h) = parse_matrix(input);
    let mut top: i32 = scenic_score((0, 0), &trees, w, h);
    let ghost mut at: (int, int) = (0, 0);
    let mut x: usize = 0;
    while x < h
        invariant
            is_grid(trees, w as int, h as int),
            1 <= w <= MAX_SIDE,
            1 <= h <= MAX_SIDE,
            x <= h,
            0 <= at.0 < h && 0 <= at.1 < w,
            top == scenic(trees, at.0, at.1, w as int, h as int),
            forall|a: int, b: int|
                0 <= a < x && 0 <= b < w ==> #[trigger] scenic(trees, a, b, w as int, h as int)
                    <= top,
        decreases h - x,
    {
        let mut y: usize = 0;
        while y < w
            invariant
                is_grid(trees, w as int, h as int),
                1 <= w <= MAX_SIDE,
                1 <= h <= MAX_SIDE,
                x < h,
                y <= w,
                0 <= at.0 < h && 0 <= at.1 < w,
                top == scenic(trees, at.0, at.1, w as int, h as int),
                forall|a: int, b: int|
                    0 <= a < x && 0 <= b < w ==> #[trigger] scenic(trees, a, b, w as int, h as int)
                        <= top,
                forall|b: int|
                    0 <= b < y ==> #[trigger] scenic(trees, x as int, b, w as int, h as int) <= top,
            decreases w - y,
        {
            let got: i32 = scenic_score((x, y), &trees, w, h);
            if got > top {
                top = got;
                proof {
                    at = (x as int, y as int);
                }
            }
            y += 1;
        }
        x += 1;
    }
    assert(scenic(trees, at.0, at.1, w as int, h as int) == top);
    top
}

} // verus!
