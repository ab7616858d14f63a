//! Sand that pours into a cave of rock and comes to rest, unit by unit.

use crate::day15::{int_at, int_end, read_int};
use crate::text::{lines, rows_of, split_lines};
use crate::valve::{has_at, starts_at};
use std::collections::HashMap;
use vstd::prelude::*;
use vstd::string::StringSliceAdditionalSpecFns;

verus! {

/// A place: x, and y counted downwards.
pub type Point = (i32, i32);

/// What a place of the cave holds.
#[derive(Debug, Copy, Clone, PartialEq, Eq)]
pub enum Item {
    Sand,
    Rock,
    FallingSand,
}

/// The farthest that a rock may be from the origin along an axis.
pub const LIMIT: i32 = 0x0fff_ffff;

/// The x at which the sand pours in.
pub const SOURCE: i32 = 500;

/// The key under which the cave holds the place (`x`, `y`).
pub open spec fn key_of(x: int, y: int) -> u64 {
    ((x + 0x8000_0000) * 0x1_0000_0000 + (y + 0x8000_0000)) as u64
}

/// Computes the key of a place.
pub fn key(p: &Point) -> (k: u64)
    ensures
        k == key_of(p.0 as int, p.1 as int),
{
    let x: u64 = (p.0 as i64 + 0x8000_0000) as u64;
    let y: u64 = (p.1 as i64 + 0x8000_0000) as u64;
    x * 0x1_0000_0000 + y
}

/// The text " -> ".
pub open spec fn tag_arrow() -> Seq<u8> {
    seq![32u8, 45u8, 62u8, 32u8]
}

/// The place written at `at` as two numbers with a comma between them.
pub open spec fn point_at(s: Seq<u8>, at: int) -> Option<Point> {
    let a = int_end(s, at);
    if int_at(s, at) is Some && a < s.len() && s[a] == 44 && int_at(s, a + 1) is Some {
        Some((int_at(s, at).unwrap(), int_at(s, a + 1).unwrap()))
    } else {
        None
    }
}

/// Where the place written at `at` ends.
pub open spec fn point_end(s: Seq<u8>, at: int) -> int {
    int_end(s, int_end(s, at) + 1)
}

/// Whether another place follows the one that ends at `e`: an arrow and a place.
pub open spec fn more_points(s: Seq<u8>, e: int) -> bool {
    has_at(s, e, tag_arrow()) && point_at(s, e + 4) is Some
}

/// The places of a path that starts at `at`, with arrows between them.
pub open spec fn points_from(s: Seq<u8>, at: int) -> Seq<Point>
    decreases s.len() - at,
    via points_from_terminates
{
    if at < 0 || at > s.len() || point_at(s, at) is None {
        Seq::empty()
    } else if more_points(s, point_end(s, at)) {
        seq![point_at(s, at).unwrap()] + points_from(s, point_end(s, at) + 4)
    } else {
        seq![point_at(s, at).unwrap()]
    }
}

/// Shows that the recursion above ends.
#[via_fn]
proof fn points_from_terminates(s: Seq<u8>, at: int) {
    if 0 <= at <= s.len() && point_at(s, at) is Some {
        lemma_point_end(s, at);
    }
}

/// A place that is written ends behind its start, within the text.
pub proof fn lemma_point_end(s: Seq<u8>, at: int)
    requires
        0 <= at <= s.len(),
        point_at(s, at) is Some,
    ensures
        at < point_end(s, at) <= s.len(),
{
    crate::valve::lemma_digit_end(s, crate::valve::sign_end(s, at));
    let a = int_end(s, at);
    crate::valve::lemma_digit_end(s, crate::valve::sign_end(s, a + 1));
}

/// Reads the place written at `at`.
pub fn read_point(s: &[u8], at: usize) -> (r: Option<(Point, usize)>)
    requires
        at <= s@.len(),
    ensures
        match point_at(s@, at as int) {
            Some(p) => r == Some((p, point_end(s@, at as int) as usize)) && at < point_end(
                s@,
                at as int,
            ) <= s@.len(),
            None => r is None,
        },
{
    let n: usize = s.len();
    let (x, a) = match read_int(s, at) {
        Some(found) => found,
        None => {
            return None;
        },
    };
    if a >= n || s[a] != 44 {
        return None;
    }
    proof {
        if point_at(s@, at as int) is Some {
            lemma_point_end(s@, at as int);
        }
    }
    match read_int(s, a + 1) {
        Some((y, e)) => Some(((x, y), e)),
        None => None,
    }
}

/// Reads the path of rock that a line starts with, if it starts with a place.
pub fn rock(s: &[u8]) -> (r: Option<Vec<Point>>)
    ensures
        match r {
            Some(path) => point_at(s@, 0) is Some && path@ == points_from(s@, 0),
            None => point_at(s@, 0) is None,
        },
{
    let n: usize = s.len();
    let arrow: Vec<u8> = vec![32u8, 45u8, 62u8, 32u8];
    assert(arrow@ =~= tag_arrow());
    assert(tag_arrow().len() == 4);
    if read_point(s, 0).is_none() {
        return None;
    }
    let mut out: Vec<Point> = Vec::new();
    let mut cur: usize = 0;
    loop
        invariant
            n == s@.len(),
            arrow@ == tag_arrow(),
            cur <= n,
            point_at(s@, cur as int) is Some,
            points_from(s@, 0) == out@ + points_from(s@, cur as int),
        decreases n - cur,
    {
        let (p, e) = match read_point(s, cur) {
            Some(found) => found,
            None => ((0, 0), cur),
        };
        let ghost before = out@;
        out.push(p);
        assert(out@ =~= before + seq![p]);
        let more: bool = starts_at(s, e, &arrow) && read_point(s, e + 4).is_some();
        if !more {
            return Some(out);
        }
        assert(before + (seq![p] + points_from(s@, e + 4)) =~= (before + seq![p]) + points_from(
            s@,
            e + 4,
        ));
        cur = e + 4;
    }
}

/// Whether every line starts with a path of rock.
pub open spec fn all_rocks(ls: Seq<Seq<u8>>) -> bool {
    forall|i: int| 0 <= i < ls.len() ==> point_at(#[trigger] ls[i], 0) is Some
}

/// The paths of rock of the lines.
pub open spec fn rocks_of(ls: Seq<Seq<u8>>) -> Seq<Seq<Point>> {
    Seq::new(ls.len(), |i: int| points_from(ls[i], 0))
}

/// The paths of a vector of paths, as sequences.
pub open spec fn paths_of(v: Seq<Vec<Point>>) -> Seq<Seq<Point>> {
    Seq::new(v.len(), |i: int| v[i]@)
}

/// Reads the paths of rock of a text, one per line.
pub fn parse_input(input: &str) -> (r: Vec<Vec<Point>>)
    requires
        all_rocks(lines(input.spec_bytes())),
    ensures
        paths_of(r@) == rocks_of(lines(input.spec_bytes())),
{
    let ls = split_lines(input.as_bytes());
    let ghost rows = rows_of(ls@);
    let mut out: Vec<Vec<Point>> = Vec::new();
    let mut i: usize = 0;
    while i < ls.len()
        invariant
            rows == rows_of(ls@),
            all_rocks(rows),
            i <= ls@.len(),
            out@.len() == i,
            forall|k: int| 0 <= k < i ==> (#[trigger] out@[k])@ == points_from(rows[k], 0),
        decreases ls@.len() - i,
    {
        assert(rows[i as int] == ls@[i as int]@);
        match rock(ls[i].as_slice()) {
            Some(path) => {
                out.push(path);
            },
            None => {},
        }
        i += 1;
    }
    assert(paths_of(out@) =~= rocks_of(rows));
    out
}

/// Whether `p` lies on the straight line of rock from `a` to `b`.
pub open spec fn on_segment(a: Point, b: Point, p: Point) -> bool {
    if a.0 == b.0 {
        p.0 == a.0 && ((a.1 <= p.1 <= b.1) || (b.1 <= p.1 <= a.1))
    } else {
        a.1 == b.1 && p.1 == a.1 && ((a.0 <= p.0 <= b.0) || (b.0 <= p.0 <= a.0))
    }
}

/// Whether `p` lies on one of the first `k` lines of the path.
pub open spec fn on_path(path: Seq<Point>, k: int, p: Point) -> bool {
    exists|j: int| 0 <= j < k && j + 1 < path.len() && #[trigger] on_segment(path[j], path[j + 1], p)
}

/// Whether `p` lies on one of the first `k` paths.
pub open spec fn on_rocks(rocks: Seq<Seq<Point>>, k: int, p: Point) -> bool {
    exists|i: int| 0 <= i < k && i < rocks.len() && #[trigger] on_path(rocks[i], rocks[i].len() - 1, p)
}

/// Whether every line of every path runs along one axis.
pub open spec fn all_straight(rocks: Seq<Seq<Point>>) -> bool {
    forall|i: int, j: int|
        0 <= i < rocks.len() && 0 <= j && j + 1 < rocks[i].len() ==> (#[trigger] rocks[i][j]).0
            == rocks[i][j + 1].0 || rocks[i][j].1 == rocks[i][j + 1].1
}

/// The keys of the places for which `holds` is true.
pub open spec fn keys_where(holds: spec_fn(Point) -> bool) -> Set<u64> {
    Set::new(|k: u64| exists|p: Point| #[trigger] holds(p) && k == key_of(p.0 as int, p.1 as int))
}

/// The keys of the places that hold rock.
pub open spec fn rock_keys(rocks: Seq<Seq<Point>>) -> Set<u64> {
    keys_where(|p: Point| on_rocks(rocks, rocks.len() as int, p))
}

/// Conditions that hold of the same places have the same keys.
pub proof fn lemma_keys_same(f: spec_fn(Point) -> bool, g: spec_fn(Point) -> bool)
    requires
        forall|p: Point| #[trigger] f(p) == g(p),
    ensures
        keys_where(f) == keys_where(g),
{
    assert forall|k: u64| keys_where(f).contains(k) <==> keys_where(g).contains(k) by {
        if keys_where(f).contains(k) {
            let p = choose|p: Point| #[trigger] f(p) && k == key_of(p.0 as int, p.1 as int);
            assert(g(p));
        }
        if keys_where(g).contains(k) {
            let p = choose|p: Point| #[trigger] g(p) && k == key_of(p.0 as int, p.1 as int);
            assert(f(p));
        }
    }
    assert(keys_where(f) =~= keys_where(g));
}

/// A condition that holds of one place more has one key more.
pub proof fn lemma_keys_insert(f: spec_fn(Point) -> bool, g: spec_fn(Point) -> bool, q: Point)
    requires
        forall|p: Point| #[trigger] g(p) == (f(p) || p == q),
    ensures
        keys_where(g) == keys_where(f).insert(key_of(q.0 as int, q.1 as int)),
{
    let more = keys_where(f).insert(key_of(q.0 as int, q.1 as int));
    assert forall|k: u64| keys_where(g).contains(k) <==> more.contains(k) by {
        if keys_where(f).contains(k) {
            let p = choose|p: Point| #[trigger] f(p) && k == key_of(p.0 as int, p.1 as int);
            assert(g(p));
        }
        if k == key_of(q.0 as int, q.1 as int) {
            assert(g(q));
        }
        if keys_where(g).contains(k) {
            let p = choose|p: Point| #[trigger] g(p) && k == key_of(p.0 as int, p.1 as int);
            if p != q {
                assert(f(p));
            }
        }
    }
    assert(keys_where(g) =~= more);
}

/// The coordinate of `p` along which the line from `a` to `b` runs.
pub open spec fn along(a: Point, b: Point, p: Point) -> int {
    if a.0 == b.0 {
        p.1 as int
    } else {
        p.0 as int
    }
}

/// The lower end of the line from `a` to `b`, along its axis.
pub open spec fn low_end(a: Point, b: Point) -> int {
    if along(a, b, a) <= along(a, b, b) {
        along(a, b, a)
    } else {
        along(a, b, b)
    }
}

/// The upper end of the line from `a` to `b`, along its axis.
pub open spec fn high_end(a: Point, b: Point) -> int {
    if along(a, b, a) <= along(a, b, b) {
        along(a, b, b)
    } else {
        along(a, b, a)
    }
}

/// Puts rock on every place of the straight line from `a` to `b`.
fn lay_rock(map: &mut HashMap<u64, Item>, a: Point, b: Point, Ghost(base): Ghost<spec_fn(Point) -> bool>)
    requires
        a.0 == b.0 || a.1 == b.1,
        old(map)@.dom() == keys_where(base),
    ensures
        final(map)@.dom() == keys_where(|p: Point| base(p) || on_segment(a, b, p)),
{
    broadcast use vstd::std_specs::hash::group_hash_axioms;

    let upright: bool = a.0 == b.0;
    let from: i32 = if upright {
        a.1
    } else {
        a.0
    };
    let to: i32 = if upright {
        b.1
    } else {
        b.0
    };
    let lo: i64 = if from <= to {
        from as i64
    } else {
        to as i64
    };
    let hi: i64 = if from <= to {
        to as i64
    } else {
        from as i64
    };
    let mut t: i64 = lo;
    proof {
        lemma_keys_same(base, |p: Point| base(p) || (on_segment(a, b, p) && along(a, b, p) < t));
    }
    while t <= hi
        invariant
            a.0 == b.0 || a.1 == b.1,
            upright == (a.0 == b.0),
            lo == low_end(a, b),
            hi == high_end(a, b),
            lo <= t <= hi + 1,
            map@.dom() == keys_where(
                |p: Point| base(p) || (on_segment(a, b, p) && along(a, b, p) < t),
            ),
        decreases hi + 1 - t,
    {
        let q: Point = if upright {
            (a.0, t as i32)
        } else {
            (t as i32, a.1)
        };
        map.insert(key(&q), Item::Rock);
        proof {
            lemma_keys_insert(
                |p: Point| base(p) || (on_segment(a, b, p) && along(a, b, p) < t),
                |p: Point| base(p) || (on_segment(a, b, p) && along(a, b, p) < t + 1),
                q,
            );
        }
        t += 1;
    }
    proof {
        lemma_keys_same(
            |p: Point| base(p) || (on_segment(a, b, p) && along(a, b, p) < t),
            |p: Point| base(p) || on_segment(a, b, p),
        );
    }
}

/// Builds the cave: every place on a line of a path holds rock.
pub fn build_cave(rocks: Vec<Vec<Point>>) -> (map: HashMap<u64, Item>)
    requires
        all_straight(paths_of(rocks@)),
    ensures
        map@.dom() == rock_keys(paths_of(rocks@)),
{
    broadcast use vstd::std_specs::hash::group_hash_axioms;

    let ghost rs = paths_of(rocks@);
    let mut map: HashMap<u64, Item> = HashMap::new();
    let mut i: usize = 0;
    assert(map@.dom() =~= keys_where(|p: Point| on_rocks(rs, 0, p)));
    while i < rocks.len()
        invariant
            rs == paths_of(rocks@),
            all_straight(rs),
            i <= rocks@.len(),
            map@.dom() == keys_where(|p: Point| on_rocks(rs, i as int, p)),
        decreases rocks@.len() - i,
    {
        let ghost path = rs[i as int];
        assert(path == rocks@[i as int]@);
        let count: usize = rocks[i].len();
        let lines_of_path: usize = if count == 0 {
            0
        } else {
            count - 1
        };
        let mut j: usize = 0;
        proof {
            lemma_keys_same(
                |p: Point| on_rocks(rs, i as int, p),
                |p: Point| on_rocks(rs, i as int, p) || on_path(path, 0, p),
            );
        }
        while j < lines_of_path
            invariant
                rs == paths_of(rocks@),
                all_straight(rs),
                i < rocks@.len(),
                path == rs[i as int],
                path == rocks@[i as int]@,
                count == path.len(),
                lines_of_path + 1 == count || (count == 0 && lines_of_path == 0),
                j <= lines_of_path,
                map@.dom() == keys_where(
                    |p: Point| on_rocks(rs, i as int, p) || on_path(path, j as int, p),
                ),
            decreases lines_of_path - j,
        {
            let a: Point = rocks[i][j];
            let b: Point = rocks[i][j + 1];
            assert(rs[i as int][j as int].0 == rs[i as int][j + 1].0 || rs[i as int][j as int].1
                == rs[i as int][j + 1].1);
            let ghost base = |p: Point| on_rocks(rs, i as int, p) || on_path(path, j as int, p);
            lay_rock(&mut map, a, b, Ghost(base));
            proof {
                let laid = |p: Point| base(p) || on_segment(a, b, p);
                let wanted = |p: Point| on_rocks(rs, i as int, p) || on_path(path, j + 1, p);
                assert forall|p: Point| #[trigger] laid(p) == wanted(p) by {
                    if on_path(path, j as int, p) {
                        let x = choose|x: int|
                            0 <= x < j && x + 1 < path.len() && #[trigger] on_segment(
                                path[x],
                                path[x + 1],
                                p,
                            );
                        assert(on_segment(path[x], path[x + 1], p));
                    }
                    if on_segment(a, b, p) {
                        assert(on_segment(path[j as int], path[j + 1], p));
                    }
                    if on_path(path, j + 1, p) {
                        let x = choose|x: int|
                            0 <= x < j + 1 && x + 1 < path.len() && #[trigger] on_segment(
                                path[x],
                                path[x + 1],
                                p,
                            );
                        if x < j {
                            assert(on_segment(path[x], path[x + 1], p));
                        }
                    }
                }
                lemma_keys_same(laid, wanted);
            }
            j += 1;
        }
        proof {
            let laid = |p: Point| on_rocks(rs, i as int, p) || on_path(path, j as int, p);
            let wanted = |p: Point| on_rocks(rs, i + 1, p);
            assert forall|p: Point| #[trigger] laid(p) == wanted(p) by {
                if on_rocks(rs, i as int, p) {
                    let x = choose|x: int|
                        0 <= x < i && x < rs.len() && #[trigger] on_path(rs[x], rs[x].len() - 1, p);
                    assert(on_path(rs[x], rs[x].len() - 1, p));
                }
                if on_path(path, j as int, p) {
                    assert(on_path(rs[i as int], rs[i as int].len() - 1, p));
                }
                if on_rocks(rs, i + 1, p) {
                    let x = choose|x: int|
                        0 <= x < i + 1 && x < rs.len() && #[trigger] on_path(rs[x], rs[x].len() - 1, p);
                    if x < i {
                        assert(on_path(rs[x], rs[x].len() - 1, p));
                    }
                }
            }
            lemma_keys_same(laid, wanted);
        }
        i += 1;
    }
    map
}

/// Whether `y` is the depth of the lowest rock.
pub open spec fn is_deepest(rocks: Seq<Seq<Point>>, y: int) -> bool {
    &&& exists|p: Point| #[trigger] on_rocks(rocks, rocks.len() as int, p) && p.1 == y
    &&& forall|p: Point| #[trigger] on_rocks(rocks, rocks.len() as int, p) ==> p.1 <= y
}

/// Whether the first `i` paths and the first `j` lines of the next hold `p`.
pub open spec fn laid(rocks: Seq<Seq<Point>>, i: int, j: int, p: Point) -> bool {
    on_rocks(rocks, i, p) || (i < rocks.len() && on_path(rocks[i], j, p))
}

/// Finds the depth of the lowest rock, where there is any rock.
pub fn deepest(rocks: &Vec<Vec<Point>>) -> (r: Option<i32>)
    requires
        all_straight(paths_of(rocks@)),
    ensures
        match r {
            Some(y) => is_deepest(paths_of(rocks@), y as int),
            None => forall|p: Point| !#[trigger] on_rocks(paths_of(rocks@), rocks@.len() as int, p),
        },
{
    let ghost rs = paths_of(rocks@);
    let mut best: Option<i32> = None;
    let mut i: usize = 0;
    while i < rocks.len()
        invariant
            rs == paths_of(rocks@),
            all_straight(rs),
            i <= rocks@.len(),
            forall|p: Point| #[trigger] on_rocks(rs, i as int, p) ==> best is Some && p.1 <= best.unwrap(),
            best is Some ==> exists|p: Point| #[trigger] on_rocks(rs, i as int, p) && p.1 == best.unwrap(),
        decreases rocks@.len() - i,
    {
        let ghost path = rs[i as int];
        assert(path == rocks@[i as int]@);
        let count: usize = rocks[i].len();
        let lines_of_path: usize = if count == 0 {
            0
        } else {
            count - 1
        };
        let mut j: usize = 0;
        proof {
            if best is Some {
                let p = choose|p: Point| #[trigger] on_rocks(rs, i as int, p) && p.1 == best.unwrap();
                assert(laid(rs, i as int, 0, p));
            }
        }
        while j < lines_of_path
            invariant
                rs == paths_of(rocks@),
                all_straight(rs),
                i < rocks@.len(),
                path == rs[i as int],
                path == rocks@[i as int]@,
                count == path.len(),
                lines_of_path + 1 == count || (count == 0 && lines_of_path == 0),
                j <= lines_of_path,
                forall|p: Point| #[trigger]
                    laid(rs, i as int, j as int, p) ==> best is Some && p.1 <= best.unwrap(),
                best is Some ==> exists|p: Point|
                    #[trigger] laid(rs, i as int, j as int, p) && p.1 == best.unwrap(),
            decreases lines_of_path - j,
        {
            let a: Point = rocks[i][j];
            let b: Point = rocks[i][j + 1];
            assert(rs[i as int][j as int].0 == rs[i as int][j + 1].0 || rs[i as int][j as int].1
                == rs[i as int][j + 1].1);
            let lower: i32 = if a.1 >= b.1 {
                a.1
            } else {
                b.1
            };
            let ghost before = best;
            let better: bool = match best {
                Some(y) => lower > y,
                None => true,
            };
            if better {
                best = Some(lower);
            }
            proof {
                let end: Point = if a.1 >= b.1 {
                    a
                } else {
                    b
                };
                assert(on_segment(path[j as int], path[j + 1], end));
                assert(on_path(path, j + 1, end));
                assert(laid(rs, i as int, j + 1, end));
                if before is Some {
                    let p = choose|p: Point|
                        #[trigger] laid(rs, i as int, j as int, p) && p.1 == before.unwrap();
                    if on_path(path, j as int, p) {
                        let x = choose|x: int|
                            0 <= x < j && x + 1 < path.len() && #[trigger] on_segment(
                                path[x],
                                path[x + 1],
                                p,
                            );
                        assert(on_segment(path[x], path[x + 1], p));
                    }
                    assert(laid(rs, i as int, j + 1, p));
                }
                assert forall|p: Point| #[trigger] laid(rs, i as int, j + 1, p) implies best is Some
                    && p.1 <= best.unwrap() by {
                    if !on_rocks(rs, i as int, p) {
                        let x = choose|x: int|
                            0 <= x < j + 1 && x + 1 < path.len() && #[trigger] on_segment(
                                path[x],
                                path[x + 1],
                                p,
                            );
                        if x < j {
                            assert(on_segment(path[x], path[x + 1], p));
                            assert(laid(rs, i as int, j as int, p));
                        }
                    } else {
                        assert(laid(rs, i as int, j as int, p));
                    }
                }
            }
            j += 1;
        }
        proof {
            assert forall|p: Point| #[trigger] on_rocks(rs, i + 1, p) implies best is Some && p.1
                <= best.unwrap() by {
                let x = choose|x: int|
                    0 <= x < i + 1 && x < rs.len() && #[trigger] on_path(rs[x], rs[x].len() - 1, p);
                if x < i {
                    assert(on_path(rs[x], rs[x].len() - 1, p));
                    assert(on_rocks(rs, i as int, p));
                }
                assert(laid(rs, i as int, j as int, p));
            }
            if best is Some {
                let p = choose|p: Point|
                    #[trigger] laid(rs, i as int, j as int, p) && p.1 == best.unwrap();
                if on_rocks(rs, i as int, p) {
                    let x = choose|x: int|
                        0 <= x < i && x < rs.len() && #[trigger] on_path(rs[x], rs[x].len() - 1, p);
                    assert(on_path(rs[x], rs[x].len() - 1, p));
                } else {
                    assert(on_path(rs[i as int], rs[i as int].len() - 1, p));
                }
                assert(on_rocks(rs, i + 1, p));
            }
        }
        i += 1;
    }
    best
}

/// Whether the place (`x`, `y`) is free.
pub open spec fn free(occ: Set<u64>, x: int, y: int) -> bool {
    !occ.contains(key_of(x, y))
}

/// Where a unit of sand at (`x`, `y`) goes next: straight down, else down and to the
/// left, else down and to the right; nowhere where all three are taken.
pub open spec fn next_place(occ: Set<u64>, x: int, y: int) -> Option<(int, int)> {
    if free(occ, x, y + 1) {
        Some((x, y + 1))
    } else if free(occ, x - 1, y + 1) {
        Some((x - 1, y + 1))
    } else if free(occ, x + 1, y + 1) {
        Some((x + 1, y + 1))
    } else {
        None
    }
}

/// Where a unit of sand that is at (`x`, `y`) comes to rest; nowhere if it falls more
/// than three below the lowest rock.
pub open spec fn rest_place(occ: Set<u64>, ymax: int, x: int, y: int) -> Option<(int, int)>
    decreases ymax + 4 - y,
{
    match next_place(occ, x, y) {
        None => Some((x, y)),
        Some(n) => if n.1 > ymax + 3 {
            None
        } else {
            rest_place(occ, ymax, n.0, n.1)
        },
    }
}

/// Lets one unit of sand fall from the source. It comes to rest, and the function
/// returns true, unless it falls more than three below `ymax`. With `trace`, the
/// places that a unit passed on its way out hold falling sand afterwards.
pub fn drop_sand(cave: &mut HashMap<u64, Item>, ymax: i32, trace: bool) -> (r: bool)
    requires
        -LIMIT <= ymax <= LIMIT,
    ensures
        match rest_place(old(cave)@.dom(), ymax as int, SOURCE as int, 0) {
            Some(p) => r && final(cave)@ == old(cave)@.insert(key_of(p.0, p.1), Item::Sand),
            None => !r && (!trace ==> final(cave)@ == old(cave)@),
        },
{
    broadcast use vstd::std_specs::hash::group_hash_axioms;

    let ghost occ = cave@.dom();
    let ghost start = cave@;
    let mut x: i32 = SOURCE;
    let mut y: i32 = 0;
    let mut path: Vec<Point> = Vec::new();
    loop
        invariant
            -LIMIT <= ymax <= LIMIT,
            cave@ == start,
            occ == start.dom(),
            0 <= y,
            y <= ymax + 3 || y == 0,
            SOURCE - y <= x <= SOURCE + y,
            rest_place(occ, ymax as int, SOURCE as int, 0) == rest_place(
                occ,
                ymax as int,
                x as int,
                y as int,
            ),
            !trace ==> path@.len() == 0,
            start == old(cave)@,
        ensures
            next_place(occ, x as int, y as int) is None,
        decreases ymax + 4 - y,
    {
        let ghost x0 = x as int;
        let ghost y0 = y as int;
        let down: Point = (x, y + 1);
        let left: Point = (x - 1, y + 1);
        let right: Point = (x + 1, y + 1);
        let next: Option<Point> = if !cave.contains_key(&key(&down)) {
            Some(down)
        } else if !cave.contains_key(&key(&left)) {
            Some(left)
        } else if !cave.contains_key(&key(&right)) {
            Some(right)
        } else {
            None
        };
        match next {
            Some(n) => {
                assert(next_place(occ, x0, y0) == Some((n.0 as int, n.1 as int)));
                x = n.0;
                y = n.1;
                if trace {
                    path.push(n);
                }
                if y > ymax + 3 {
                    assert(rest_place(occ, ymax as int, x0, y0) is None);
                    let mut k: usize = 0;
                    while k < path.len()
                        invariant
                            k <= path@.len(),
                            !trace ==> path@.len() == 0,
                            !trace ==> cave@ == start,
                            start == old(cave)@,
                            occ == start.dom(),
                            rest_place(occ, ymax as int, SOURCE as int, 0) is None,
                        decreases path@.len() - k,
                    {
                        cave.insert(key(&path[k]), Item::FallingSand);
                        k += 1;
                    }
                    return false;
                }
            },
            None => {
                assert(next_place(occ, x0, y0) is None);
                break;
            },
        }
    }
    assert(rest_place(occ, ymax as int, x as int, y as int) == Some((x as int, y as int)));
    cave.insert(key(&(x, y)), Item::Sand);
    true
}

/// How many units of sand come to rest before one falls out, if that happens before
/// `fuel` units have come to rest.
pub open spec fn pour(occ: Set<u64>, ymax: int, fuel: nat) -> Option<nat>
    decreases fuel,
{
    if fuel == 0 {
        None
    } else {
        match rest_place(occ, ymax, SOURCE as int, 0) {
            None => Some(0),
            Some(p) => match pour(occ.insert(key_of(p.0, p.1)), ymax, (fuel - 1) as nat) {
                Some(k) => Some(k + 1),
                None => None,
            },
        }
    }
}

/// How many units of sand come to rest until one falls out or the source is taken,
/// if that happens before `fuel` units have come to rest.
pub open spec fn pour_full(occ: Set<u64>, ymax: int, fuel: nat) -> Option<nat>
    decreases fuel,
{
    if fuel == 0 {
        None
    } else {
        match rest_place(occ, ymax, SOURCE as int, 0) {
            None => Some(0),
            Some(p) => if !free(occ.insert(key_of(p.0, p.1)), SOURCE as int, 0) {
                Some(1)
            } else {
                match pour_full(occ.insert(key_of(p.0, p.1)), ymax, (fuel - 1) as nat) {
                    Some(k) => Some(k + 1),
                    None => None,
                }
            },
        }
    }
}

/// Whether all places of all paths are within `LIMIT` of the origin.
pub open spec fn all_near(rocks: Seq<Seq<Point>>) -> bool {
    forall|i: int, j: int|
        0 <= i < rocks.len() && 0 <= j < rocks[i].len() ==> -LIMIT <= (#[trigger] rocks[i][j]).0
            <= LIMIT && -LIMIT <= rocks[i][j].1 <= LIMIT
}

/// The lowest rock is no lower than the lowest end of a line.
pub proof fn lemma_deepest_near(rocks: Seq<Seq<Point>>, y: int)
    requires
        all_near(rocks),
        is_deepest(rocks, y),
    ensures
        -LIMIT <= y <= LIMIT,
{
    let p = choose|p: Point| #[trigger] on_rocks(rocks, rocks.len() as int, p) && p.1 == y;
    let i = choose|i: int|
        0 <= i < rocks.len() && i < rocks.len() && #[trigger] on_path(rocks[i], rocks[i].len() - 1, p);
    let j = choose|j: int|
        0 <= j < rocks[i].len() - 1 && j + 1 < rocks[i].len() && #[trigger] on_segment(
            rocks[i][j],
            rocks[i][j + 1],
            p,
        );
    assert(-LIMIT <= rocks[i][j].1 <= LIMIT);
    assert(-LIMIT <= rocks[i][j + 1].1 <= LIMIT);
}

/// Pours sand into the cave until a unit falls out, and counts the units at rest.
pub fn fill(cave: &mut HashMap<u64, Item>, ymax: i32) -> (r: i32)
    requires
        -LIMIT <= ymax <= LIMIT,
        pour(old(cave)@.dom(), ymax as int, i32::MAX as nat) is Some,
    ensures
        Some(r as nat) == pour(old(cave)@.dom(), ymax as int, i32::MAX as nat),
        0 <= r,
{
    let ghost start = cave@.dom();
    let mut sands: i32 = 0;
    while sands < i32::MAX
        invariant
            -LIMIT <= ymax <= LIMIT,
            0 <= sands <= i32::MAX,
            start == old(cave)@.dom(),
            pour(start, ymax as int, i32::MAX as nat) is Some,
            pour(cave@.dom(), ymax as int, (i32::MAX - sands) as nat) is Some,
            pour(start, ymax as int, i32::MAX as nat).unwrap() == pour(
                cave@.dom(),
                ymax as int,
                (i32::MAX - sands) as nat,
            ).unwrap() + sands,
        decreases i32::MAX - sands,
    {
        let ghost before = cave@;
        if !drop_sand(cave, ymax, false) {
            assert(pour(cave@.dom(), ymax as int, (i32::MAX - sands) as nat) == Some(0nat));
            return sands;
        }
        proof {
            let p = rest_place(before.dom(), ymax as int, SOURCE as int, 0).unwrap();
            assert(cave@.dom() =~= before.dom().insert(key_of(p.0, p.1)));
        }
        sands += 1;
    }
    sands
}

/// Whether a list of paths can be poured into: its lines are straight, near the
/// origin, and there is some rock.
pub open spec fn is_cave(rocks: Seq<Seq<Point>>) -> bool {
    &&& all_straight(rocks)
    &&& all_near(rocks)
    &&& exists|p: Point| #[trigger] on_rocks(rocks, rocks.len() as int, p)
}

/// The number of units of sand that come to rest before one falls into the void.
pub fn part1(input: &str) -> (r: i32)
    requires
        all_rocks(lines(input.spec_bytes())),
        is_cave(rocks_of(lines(input.spec_bytes()))),
        forall|y: int|
            is_deepest(rocks_of(lines(input.spec_bytes())), y) ==> (#[trigger] pour(
                rock_keys(rocks_of(lines(input.spec_bytes()))),
                y,
                i32::MAX as nat,
            )) is Some,
    ensures
        exists|y: int|
            is_deepest(rocks_of(lines(input.spec_bytes())), y) && Some(r as nat) == #[trigger] pour(
                rock_keys(rocks_of(lines(input.spec_bytes()))),
                y,
                i32::MAX as nat,
            ),
{
    let rocks = parse_input(input);
    let ghost rs = paths_of(rocks@);
    let ymax: i32 = match deepest(&rocks) {
        Some(y) => y,
        None => 0,
    };
    proof {
        let p = choose|p: Point| #[trigger] on_rocks(rs, rs.len() as int, p);
        assert(on_rocks(rs, rs.len() as int, p));
        lemma_deepest_near(rs, ymax as int);
    }
    let mut cave = build_cave(rocks);
    let sands = fill(&mut cave, ymax);
    drop_sand(&mut cave, ymax, true);
    sands
}

/// Whether `p` lies on the floor: two below the lowest rock, from `495 - ymax` up to
/// but not including `505 + ymax`.
pub open spec fn on_floor(ymax: int, p: Point) -> bool {
    p.1 == ymax + 2 && 495 - ymax <= p.0 < 505 + ymax
}

/// The keys of the places that hold rock once the floor is laid.
pub open spec fn floored_keys(rocks: Seq<Seq<Point>>, ymax: int) -> Set<u64> {
    keys_where(|p: Point| on_rocks(rocks, rocks.len() as int, p) || on_floor(ymax, p))
}

/// Pours sand into the cave until a unit falls out or one comes to rest at the
/// source, and counts the units at rest.
pub fn fill_up(cave: &mut HashMap<u64, Item>, ymax: i32) -> (r: i32)
    requires
        -LIMIT <= ymax <= LIMIT,
        pour_full(old(cave)@.dom(), ymax as int, i32::MAX as nat) is Some,
    ensures
        Some(r as nat) == pour_full(old(cave)@.dom(), ymax as int, i32::MAX as nat),
        0 <= r,
{
    broadcast use vstd::std_specs::hash::group_hash_axioms;

    let ghost start = cave@.dom();
    let mut sands: i32 = 0;
    while sands < i32::MAX
        invariant
            -LIMIT <= ymax <= LIMIT,
            0 <= sands <= i32::MAX,
            start == old(cave)@.dom(),
            pour_full(start, ymax as int, i32::MAX as nat) is Some,
            pour_full(cave@.dom(), ymax as int, (i32::MAX - sands) as nat) is Some,
            pour_full(start, ymax as int, i32::MAX as nat).unwrap() == pour_full(
                cave@.dom(),
                ymax as int,
                (i32::MAX - sands) as nat,
            ).unwrap() + sands,
        decreases i32::MAX - sands,
    {
        let ghost before = cave@;
        if !drop_sand(cave, ymax, false) {
            assert(pour_full(cave@.dom(), ymax as int, (i32::MAX - sands) as nat) == Some(0nat));
            return sands;
        }
        proof {
            let p = rest_place(before.dom(), ymax as int, SOURCE as int, 0).unwrap();
            assert(cave@.dom() =~= before.dom().insert(key_of(p.0, p.1)));
        }
        if cave.contains_key(&key(&(SOURCE, 0))) {
            assert(pour_full(before.dom(), ymax as int, (i32::MAX - sands) as nat) == Some(1nat));
            return sands + 1;
        }
        sands += 1;
    }
    sands
}

/// The number of units of sand that come to rest, on a floor two below the lowest
/// rock, until one rests at the source.
pub fn part2(input: &str) -> (r: i32)
    requires
        all_rocks(lines(input.spec_bytes())),
        is_cave(rocks_of(lines(input.spec_bytes()))),
        forall|y: int|
            is_deepest(rocks_of(lines(input.spec_bytes())), y) ==> (#[trigger] pour_full(
                floored_keys(rocks_of(lines(input.spec_bytes())), y),
                y,
                i32::MAX as nat,
            )) is Some,
    ensures
        exists|y: int|
            is_deepest(rocks_of(lines(input.spec_bytes())), y) && Some(r as nat)
                == #[trigger] pour_full(
                floored_keys(rocks_of(lines(input.spec_bytes())), y),
                y,
                i32::MAX as nat,
            ),
{
    broadcast use vstd::std_specs::hash::group_hash_axioms;

    let rocks = parse_input(input);
    let ghost rs = paths_of(rocks@);
    let ymax: i32 = match deepest(&rocks) {
        Some(y) => y,
        None => 0,
    };
    proof {
        let p = choose|p: Point| #[trigger] on_rocks(rs, rs.len() as int, p);
        assert(on_rocks(rs, rs.len() as int, p));
        lemma_deepest_near(rs, ymax as int);
    }
    let mut cave = build_cave(rocks);
    let mut x: i32 = 495 - ymax;
    proof {
        lemma_keys_same(
            |p: Point| on_rocks(rs, rs.len() as int, p),
            |p: Point| on_rocks(rs, rs.len() as int, p) || (on_floor(ymax as int, p) && p.0 < x),
        );
    }
    while x < 505 + ymax
        invariant
            -LIMIT <= ymax <= LIMIT,
            495 - ymax <= x,
            x <= 505 + ymax || x == 495 - ymax,
            cave@.dom() == keys_where(
                |p: Point| on_rocks(rs, rs.len() as int, p) || (on_floor(ymax as int, p) && p.0 < x),
            ),
        decreases 505 + ymax - x,
    {
        let q: Point = (x, ymax + 2);
        cave.insert(key(&q), Item::Rock);
        proof {
            lemma_keys_insert(
                |p: Point| on_rocks(rs, rs.len() as int, p) || (on_floor(ymax as int, p) && p.0 < x),
                |p: Point|
                    on_rocks(rs, rs.len() as int, p) || (on_floor(ymax as int, p) && p.0 < x + 1),
                q,
            );
        }
        x += 1;
    }
    proof {
        lemma_keys_same(
            |p: Point| on_rocks(rs, rs.len() as int, p) || (on_floor(ymax as int, p) && p.0 < x),
            |p: Point| on_rocks(rs, rs.len() as int, p) || on_floor(ymax as int, p),
        );
        assert(cave@.dom() == floored_keys(rs, ymax as int));
        assert(is_deepest(rs, ymax as int));
        assert(pour_full(floored_keys(rs, ymax as int), ymax as int, i32::MAX as nat) is Some);
    }
    fill_up(&mut cave, ymax)
}

} // verus!
