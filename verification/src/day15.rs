//! Sensors and their closest beacons: where on a row no beacon can be, and where in a
//! square the one beacon is that no sensor sees.

use crate::text::{copy_range, decimal_i32, lines, parse_i32, rows_of, split_lines};
use crate::valve::{digit_end, digit_run, has_at, sign_end, starts_at};
use std::collections::HashSet;
use vstd::prelude::*;
use vstd::string::StringSliceAdditionalSpecFns;

verus! {

/// A place: x and y.
pub type Point = (i32, i32);

/// The farthest that a coordinate may be from 0.
pub const LIMIT: i32 = 0x0fff_ffff;

/// The text "Sensor at x=".
pub open spec fn tag_sensor() -> Seq<u8> {
    seq![83u8, 101u8, 110u8, 115u8, 111u8, 114u8, 32u8, 97u8, 116u8, 32u8, 120u8, 61u8]
}

/// The text ", y=".
pub open spec fn tag_y() -> Seq<u8> {
    seq![44u8, 32u8, 121u8, 61u8]
}

/// The text ": closest beacon is at x=".
pub open spec fn tag_beacon() -> Seq<u8> {
    seq![58u8, 32u8, 99u8, 108u8, 111u8, 115u8, 101u8, 115u8, 116u8, 32u8, 98u8, 101u8, 97u8, 99u8, 111u8, 110u8, 32u8, 105u8, 115u8, 32u8, 97u8, 116u8, 32u8, 120u8, 61u8]
}

/// The end of the number that starts at `at`: behind a sign, if there is one, and the
/// digits after it.
pub open spec fn int_end(s: Seq<u8>, at: int) -> int {
    digit_end(s, sign_end(s, at))
}

/// The number that starts at `at`, where it fits in `i32`.
pub open spec fn int_at(s: Seq<u8>, at: int) -> Option<i32> {
    decimal_i32(s.subrange(at, int_end(s, at)))
}

/// The sensor and the beacon that a line starts with the report of.
pub open spec fn sensor_of(s: Seq<u8>) -> Option<(Point, Point)> {
    let a = int_end(s, 12);
    let b = int_end(s, a + 4);
    let c = int_end(s, b + 25);
    if has_at(s, 0, tag_sensor()) && int_at(s, 12) is Some && has_at(s, a, tag_y()) && int_at(
        s,
        a + 4,
    ) is Some && has_at(s, b, tag_beacon()) && int_at(s, b + 25) is Some && has_at(s, c, tag_y())
        && int_at(s, c + 4) is Some {
        Some(
            (
                (int_at(s, 12).unwrap(), int_at(s, a + 4).unwrap()),
                (int_at(s, b + 25).unwrap(), int_at(s, c + 4).unwrap()),
            ),
        )
    } else {
        None
    }
}

/// Reads the number that starts at `at`.
pub fn read_int(s: &[u8], at: usize) -> (r: Option<(i32, usize)>)
    requires
        at <= s@.len(),
    ensures
        match int_at(s@, at as int) {
            Some(v) => r == Some((v, int_end(s@, at as int) as usize)),
            None => r is None,
        },
        at <= int_end(s@, at as int) <= s@.len(),
{
    let n: usize = s.len();
    let c1: usize = if at < n && (s[at] == 45 || s[at] == 43) {
        at + 1
    } else {
        at
    };
    let e: usize = digit_run(s, c1);
    let token = copy_range(s, at, e);
    match parse_i32(token.as_slice()) {
        Some(v) => Some((v, e)),
        None => None,
    }
}

/// Reads the report of a sensor from the bytes of a line.
pub fn parse_sensor(s: &[u8]) -> (r: Option<(Point, Point)>)
    ensures
        r == sensor_of(s@),
{
    let n: usize = s.len();
    let sensor: Vec<u8> = vec![83u8, 101u8, 110u8, 115u8, 111u8, 114u8, 32u8, 97u8, 116u8, 32u8, 120u8, 61u8];
    let y_tag: Vec<u8> = vec![44u8, 32u8, 121u8, 61u8];
    let beacon: Vec<u8> = vec![58u8, 32u8, 99u8, 108u8, 111u8, 115u8, 101u8, 115u8, 116u8, 32u8, 98u8, 101u8, 97u8, 99u8, 111u8, 110u8, 32u8, 105u8, 115u8, 32u8, 97u8, 116u8, 32u8, 120u8, 61u8];
    assert(sensor@ =~= tag_sensor());
    assert(y_tag@ =~= tag_y());
    assert(beacon@ =~= tag_beacon());
    assert(tag_sensor().len() == 12 && tag_y().len() == 4 && tag_beacon().len() == 25);
    if !starts_at(s, 0, &sensor) {
        return None;
    }
    let (sx, a) = match read_int(s, 12) {
        Some(found) => found,
        None => {
            return None;
        },
    };
    if !starts_at(s, a, &y_tag) {
        return None;
    }
    let (sy, b) = match read_int(s, a + 4) {
        Some(found) => found,
        None => {
            return None;
        },
    };
    if !starts_at(s, b, &beacon) {
        return None;
    }
    let (bx, c) = match read_int(s, b + 25) {
        Some(found) => found,
        None => {
            return None;
        },
    };
    if !starts_at(s, c, &y_tag) {
        return None;
    }
    match read_int(s, c + 4) {
        Some((by, d)) => Some(((sx, sy), (bx, by))),
        None => None,
    }
}

/// Whether every line starts with the report of a sensor.
pub open spec fn all_sensors(ls: Seq<Seq<u8>>) -> bool {
    forall|i: int| 0 <= i < ls.len() ==> sensor_of(#[trigger] ls[i]) is Some
}

/// The sensors of the lines, each with its beacon.
pub open spec fn sensors_of(ls: Seq<Seq<u8>>) -> Seq<(Point, Point)> {
    Seq::new(ls.len(), |i: int| sensor_of(ls[i]).unwrap())
}

/// Reads the sensors of a text, one per line.
pub fn parse_input(input: &str) -> (r: Vec<(Point, Point)>)
    requires
        all_sensors(lines(input.spec_bytes())),
    ensures
        r@ == sensors_of(lines(input.spec_bytes())),
{
    let ls = split_lines(input.as_bytes());
    let ghost rows = rows_of(ls@);
    let mut out: Vec<(Point, Point)> = Vec::new();
    let mut i: usize = 0;
    while i < ls.len()
        invariant
            rows == rows_of(ls@),
            all_sensors(rows),
            i <= ls@.len(),
            out@.len() == i,
            forall|k: int| 0 <= k < i ==> Some(#[trigger] out@[k]) == sensor_of(rows[k]),
        decreases ls@.len() - i,
    {
        assert(rows[i as int] == ls@[i as int]@);
        match parse_sensor(ls[i].as_slice()) {
            Some(pair) => {
                out.push(pair);
            },
            None => {},
        }
        i += 1;
    }
    assert(out@ =~= sensors_of(rows));
    out
}

/// The distance between two numbers.
pub open spec fn gap(a: int, b: int) -> int {
    if a >= b {
        a - b
    } else {
        b - a
    }
}

/// The distance between two places when every step goes along one axis.
pub open spec fn dist(a: Point, b: Point) -> int {
    gap(a.0 as int, b.0 as int) + gap(a.1 as int, b.1 as int)
}

/// Computes the distance between two places.
pub fn manhattan_dist(a: &Point, b: &Point) -> (r: i32)
    requires
        dist(*a, *b) <= i32::MAX,
    ensures
        r == dist(*a, *b),
{
    let dx: i64 = a.0 as i64 - b.0 as i64;
    let dy: i64 = a.1 as i64 - b.1 as i64;
    let dx: i64 = if dx < 0 {
        -dx
    } else {
        dx
    };
    let dy: i64 = if dy < 0 {
        -dy
    } else {
        dy
    };
    (dx + dy) as i32
}

/// Whether a place is within `LIMIT` of the origin along both axes.
pub open spec fn near(p: Point) -> bool {
    -LIMIT <= p.0 <= LIMIT && -LIMIT <= p.1 <= LIMIT
}

/// Whether all sensors and beacons are within `LIMIT` of the origin.
pub open spec fn all_near(sensors: Seq<(Point, Point)>) -> bool {
    forall|i: int| 0 <= i < sensors.len() ==> near((#[trigger] sensors[i]).0) && near(sensors[i].1)
}

/// Whether the place (`x`, `y`) is no farther from the sensor than its beacon and is
/// not the place of the beacon.
pub open spec fn swept(s: (Point, Point), y: int, x: int) -> bool {
    gap(s.0.0 as int, x) + gap(s.0.1 as int, y) <= dist(s.0, s.1) && !(x == s.1.0 && y == s.1.1)
}

/// Whether the sensor rules out a beacon at (`x`, `y`): every place of row `y` from
/// the sensor's column to `x` is swept.
pub open spec fn ruled_out(s: (Point, Point), y: int, x: int) -> bool {
    forall|z: int| (s.0.0 <= z <= x || x <= z <= s.0.0) ==> #[trigger] swept(s, y, z)
}

/// The columns of row `y` at which one of the first `k` sensors rules out a beacon.
pub open spec fn row_of(sensors: Seq<(Point, Point)>, k: int, y: int) -> Set<i32> {
    Set::new(|x: i32| exists|i: int| 0 <= i < k && #[trigger] ruled_out(sensors[i], y, x as int))
}

/// Counts the places of row `y` at which a beacon is ruled out.
pub fn count_row(sensor_data: &Vec<(Point, Point)>, y: i32) -> (r: usize)
    requires
        all_near(sensor_data@),
        -LIMIT <= y <= LIMIT,
    ensures
        r == row_of(sensor_data@, sensor_data@.len() as int, y as int).len(),
{
    broadcast use vstd::std_specs::hash::group_hash_axioms;

    let ghost ss = sensor_data@;
    let mut row: HashSet<i32> = HashSet::new();
    let mut k: usize = 0;
    assert(row@ =~= row_of(ss, 0, y as int));
    while k < sensor_data.len()
        invariant
            ss == sensor_data@,
            all_near(ss),
            -LIMIT <= y <= LIMIT,
            k <= ss.len(),
            row@ == row_of(ss, k as int, y as int),
        decreases ss.len() - k,
    {
        let (sensor, beacon) = sensor_data[k];
        let ghost s = ss[k as int];
        assert(near(s.0) && near(s.1));
        let beacon_dist: i32 = manhattan_dist(&sensor, &beacon);
        let ghost base = row@;
        let mut x: i32 = sensor.0;
        while manhattan_dist(&sensor, &(x, y)) <= beacon_dist && !(x == beacon.0 && y == beacon.1)
            invariant
                s == (sensor, beacon),
                near(sensor),
                near(beacon),
                -LIMIT <= y <= LIMIT,
                beacon_dist == dist(sensor, beacon),
                sensor.0 <= x <= sensor.0 + beacon_dist + 1,
                forall|z: int| sensor.0 <= z < x ==> #[trigger] swept(s, y as int, z),
                row@ == base.union(Set::new(|z: i32| sensor.0 <= z < x)),
            decreases sensor.0 + beacon_dist + 1 - x,
        {
            let ghost before = row@;
            row.insert(x);
            assert(row@ =~= base.union(Set::new(|z: i32| sensor.0 <= z < x + 1)));
            x += 1;
        }
        let ghost right = x;
        let ghost mid = row@;
        assert(!swept(s, y as int, right as int));
        let mut x: i32 = sensor.0;
        while manhattan_dist(&sensor, &(x, y)) <= beacon_dist && !(x == beacon.0 && y == beacon.1)
            invariant
                s == (sensor, beacon),
                near(sensor),
                near(beacon),
                -LIMIT <= y <= LIMIT,
                beacon_dist == dist(sensor, beacon),
                sensor.0 - beacon_dist - 1 <= x <= sensor.0,
                forall|z: int| x < z <= sensor.0 ==> #[trigger] swept(s, y as int, z),
                row@ == mid.union(Set::new(|z: i32| x < z <= sensor.0)),
            decreases x - (sensor.0 - beacon_dist - 1),
        {
            row.insert(x);
            assert(row@ =~= mid.union(Set::new(|z: i32| x - 1 < z <= sensor.0)));
            x -= 1;
        }
        let ghost left = x;
        proof {
            assert(!swept(s, y as int, left as int));
            let now = row_of(ss, k + 1, y as int);
            assert forall|z: i32| row@.contains(z) <==> now.contains(z) by {
                if base.contains(z) {
                    let i = choose|i: int| 0 <= i < k && #[trigger] ruled_out(ss[i], y as int, z as int);
                    assert(ruled_out(ss[i], y as int, z as int));
                }
                if left < z < right {
                    assert(ruled_out(s, y as int, z as int));
                    assert(ruled_out(ss[k as int], y as int, z as int));
                }
                if now.contains(z) && !base.contains(z) {
                    let i = choose|i: int|
                        0 <= i < k + 1 && #[trigger] ruled_out(ss[i], y as int, z as int);
                    if i < k {
                        assert(ruled_out(ss[i], y as int, z as int));
                        assert(row_of(ss, k as int, y as int).contains(z));
                    }
                    assert(ruled_out(s, y as int, z as int));
                    if z >= right {
                        assert(swept(s, y as int, right as int));
                    }
                    if z <= left {
                        assert(swept(s, y as int, left as int));
                    }
                }
            }
            assert(row@ =~= now);
        }
        k += 1;
    }
    row.len()
}

/// Counts the places of row `y` at which the sensors of the text rule out a beacon.
pub fn part1(input: &str, y: i32) -> (r: usize)
    requires
        all_sensors(lines(input.spec_bytes())),
        all_near(sensors_of(lines(input.spec_bytes()))),
        -LIMIT <= y <= LIMIT,
    ensures
        r == row_of(
            sensors_of(lines(input.spec_bytes())),
            lines(input.spec_bytes()).len() as int,
            y as int,
        ).len(),
{
    let sensor_data = parse_input(input);
    count_row(&sensor_data, y)
}

/// Whether some sensor is no farther from (`x`, `y`) than from its beacon.
pub open spec fn covered(sensors: Seq<(Point, Point)>, x: int, y: int) -> bool {
    exists|i: int| 0 <= i < sensors.len() && #[trigger] sees(sensors[i], x, y)
}

/// Whether the sensor is no farther from (`x`, `y`) than from its beacon.
pub open spec fn sees(s: (Point, Point), x: int, y: int) -> bool {
    gap(s.0.0 as int, x) + gap(s.0.1 as int, y) <= dist(s.0, s.1)
}

/// Whether (`x`, `y`) is the first place of the square from 0 to `bound` that no
/// sensor covers, the rows read from 0 up and each row from 0 up.
pub open spec fn is_first_gap(sensors: Seq<(Point, Point)>, bound: int, x: int, y: int) -> bool {
    &&& 0 <= x <= bound
    &&& 0 <= y <= bound
    &&& !covered(sensors, x, y)
    &&& forall|a: int, b: int|
        0 <= a <= bound && 0 <= b <= bound && (b < y || (b == y && a < x)) ==> #[trigger] covered(
            sensors,
            a,
            b,
        )
}

/// Finds the first place of the square from 0 to `bound` that no sensor covers, and
/// returns its x times 4000000 plus its y.
pub fn find_gap(sensor_data: &Vec<(Point, Point)>, bound: i32) -> (r: u64)
    requires
        all_near(sensor_data@),
        bound <= LIMIT,
        exists|x: int, y: int|
            0 <= x <= bound && 0 <= y <= bound && !#[trigger] covered(sensor_data@, x, y),
    ensures
        exists|x: int, y: int|
            #[trigger] is_first_gap(sensor_data@, bound as int, x, y) && r == x * 4000000 + y,
{
    let ghost ss = sensor_data@;
    let mut y: i32 = 0;
    while y <= bound
        invariant
            ss == sensor_data@,
            all_near(ss),
            bound <= LIMIT,
            0 <= y <= bound + 1,
            forall|a: int, b: int|
                0 <= a <= bound && 0 <= b < y ==> #[trigger] covered(ss, a, b),
        decreases bound + 1 - y,
    {
        let mut x: i32 = 0;
        while x <= bound
            invariant
                ss == sensor_data@,
                all_near(ss),
                bound <= LIMIT,
                0 <= y <= bound,
                0 <= x,
                forall|a: int, b: int|
                    0 <= a <= bound && 0 <= b < y ==> #[trigger] covered(ss, a, b),
                forall|a: int| 0 <= a < x && a <= bound ==> #[trigger] covered(ss, a, y as int),
            decreases
                    (if x <= bound {
                        bound + 1 - x
                    } else {
                        0
                    }),
        {
            let mut skip_to: Option<i32> = None;
            let mut k: usize = 0;
            while k < sensor_data.len() && skip_to.is_none()
                invariant
                    ss == sensor_data@,
                    all_near(ss),
                    bound <= LIMIT,
                    0 <= y <= bound,
                    0 <= x <= bound,
                    k <= ss.len(),
                    skip_to is None ==> forall|i: int|
                        0 <= i < k ==> !#[trigger] sees(ss[i], x as int, y as int),
                    skip_to is Some ==> x < skip_to.unwrap() && forall|a: int|
                        x <= a < skip_to.unwrap() ==> #[trigger] covered(ss, a, y as int),
                decreases ss.len() - k, if skip_to is None { 1int } else { 0int },
            {
                let (sensor, beacon) = sensor_data[k];
                assert(near(ss[k as int].0) && near(ss[k as int].1));
                let range: i32 = manhattan_dist(&sensor, &beacon);
                if manhattan_dist(&sensor, &(x, y)) <= range {
                    let y_dist: i32 = if y >= sensor.1 {
                        y - sensor.1
                    } else {
                        sensor.1 - y
                    };
                    let next: i32 = sensor.0 + (range - y_dist) + 1;
                    proof {
                        assert forall|a: int| x <= a < next implies #[trigger] covered(
                            ss,
                            a,
                            y as int,
                        ) by {
                            assert(sees(ss[k as int], a, y as int));
                        }
                    }
                    skip_to = Some(next);
                } else {
                    k += 1;
                }
            }
            match skip_to {
                Some(next) => {
                    x = next;
                },
                None => {
                    proof {
                        assert(!covered(ss, x as int, y as int));
                        assert(is_first_gap(ss, bound as int, x as int, y as int));
                    }
                    return x as u64 * 4000000 + y as u64;
                },
            }
        }
        y += 1;
    }
    proof {
        let (x, y) = choose|x: int, y: int|
            0 <= x <= bound && 0 <= y <= bound && !#[trigger] covered(sensor_data@, x, y);
        assert(covered(ss, x, y));
    }
    0
}

/// Finds the place of the square from 0 to `bound` that the sensors of the text leave
/// uncovered, and returns its x times 4000000 plus its y.
pub fn part2(input: &str, bound: i32) -> (r: u64)
    requires
        all_sensors(lines(input.spec_bytes())),
        all_near(sensors_of(lines(input.spec_bytes()))),
        bound <= LIMIT,
        exists|x: int, y: int|
            0 <= x <= bound && 0 <= y <= bound && !#[trigger] covered(
                sensors_of(lines(input.spec_bytes())),
                x,
                y,
            ),
    ensures
        exists|x: int, y: int|
            #[trigger] is_first_gap(sensors_of(lines(input.spec_bytes())), bound as int, x, y) && r
                == x * 4000000 + y,
{
    let sensor_data = parse_input(input);
    find_gap(&sensor_data, bound)
}

} // verus!
