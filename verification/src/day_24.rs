//! Hailstones and the rock that hits them all.

use crate::text::{all_fit, lines, read_signed_numbers, rows_of, signed_in, split_lines};
use vstd::prelude::*;
use vstd::slice::*;
use vstd::string::*;

verus! {

/// Three numbers: a place or a speed.
#[derive(Clone, Copy, Debug, PartialEq, Eq, Structural)]
pub struct Vector {
    pub x: i64,
    pub y: i64,
    pub z: i64,
}

/// A hailstone: where it is, and how fast it moves.
#[derive(Clone, Copy, Debug, PartialEq, Eq, Structural)]
pub struct Hailstone {
    pub position: Vector,
    pub velocity: Vector,
}

/// The least coordinate of the test area.
pub const AREA_MIN: i64 = 200_000_000_000_000;

/// The greatest coordinate of the test area.
pub const AREA_MAX: i64 = 400_000_000_000_000;

/// Whether the place lies in the test area, seen from above.
pub fn within_test_area_2d(intersection: Vector) -> (r: bool)
    ensures
        r == (AREA_MIN <= intersection.x <= AREA_MAX && AREA_MIN <= intersection.y <= AREA_MAX),
{
    intersection.x >= AREA_MIN && intersection.x <= AREA_MAX && intersection.y >= AREA_MIN
        && intersection.y <= AREA_MAX
}

/// The speed fits a rock that hits, at whole times, two hailstones of the
/// speed `velocity` that are `distance` apart: it is another speed, and the
/// difference of the two divides the distance.
pub open spec fn fitting(distance: int, velocity: int, speed: int) -> bool {
    speed != velocity && multiple(distance, speed - velocity)
}

/// `x` is a multiple of `d`.
pub open spec fn multiple(x: int, d: int) -> bool {
    exists|k: int| x == #[trigger] (k * d)
}

/// The greatest speed that is tried for the rock, either way.
pub const MAX_SPEED: i64 = 500;

/// The speeds from 500 the other way to 500 this way that are `fitting`, in
/// their order.
pub fn possible_speeds(distance: i64, velocity: i64) -> (r: Vec<i64>)
    requires
        i64::MIN + 500 < velocity < i64::MAX - 500,
        i64::MIN < distance,
    ensures
        forall|speed: int|
            r@.contains(speed as i64) && -500 <= speed <= 500 <==> -500 <= speed <= 500
                && #[trigger] fitting(distance as int, velocity as int, speed),
        forall|k: int| 0 <= k < r@.len() ==> -500 <= #[trigger] r@[k] <= 500,
        forall|i: int, j: int| 0 <= i < j < r@.len() ==> r@[i] < r@[j],
{
    let mut speeds: Vec<i64> = Vec::new();
    let mut possible_speed: i64 = -500;
    while possible_speed <= 500
        invariant
            i64::MIN + 500 < velocity < i64::MAX - 500,
            i64::MIN < distance,
            -500 <= possible_speed <= 501,
            forall|k: int| 0 <= k < speeds@.len() ==> -500 <= #[trigger] speeds@[k] < possible_speed,
            forall|i: int, j: int| 0 <= i < j < speeds@.len() ==> speeds@[i] < speeds@[j],
            forall|speed: int|
                -500 <= speed < possible_speed ==> (speeds@.contains(speed as i64) <==> #[trigger] fitting(
                    distance as int,
                    velocity as int,
                    speed,
                )),
        decreases 501 - possible_speed,
    {
        let relative_speed = possible_speed - velocity;
        let ghost before = speeds@;
        let mut fits = false;
        if relative_speed != 0 {
            fits = divides(relative_speed, distance);
        }
        if fits {
            speeds.push(possible_speed);
        }
        proof {
            assert forall|speed: int| -500 <= speed < possible_speed + 1 implies (speeds@.contains(
                speed as i64,
            ) <==> #[trigger] fitting(distance as int, velocity as int, speed)) by {
                if speed < possible_speed {
                    if before.contains(speed as i64) {
                        let k = choose|k: int| 0 <= k < before.len() && before[k] == speed as i64;
                        assert(speeds@[k] == speed as i64);
                    }
                    if speeds@.contains(speed as i64) {
                        let k = choose|k: int| 0 <= k < speeds@.len() && speeds@[k] == speed as i64;
                        if k < before.len() {
                            assert(before[k] == speed as i64);
                        }
                    }
                } else {
                    if fits {
                        assert(speeds@[before.len() as int] == possible_speed);
                    } else if speeds@.contains(speed as i64) {
                        let k = choose|k: int| 0 <= k < speeds@.len() && speeds@[k] == speed as i64;
                        assert(before[k] == speed as i64);
                    }
                }
            }
        }
        possible_speed = possible_speed + 1;
    }
    proof {
        assert forall|speed: int|
            speeds@.contains(speed as i64) && -500 <= speed <= 500 <==> -500 <= speed <= 500
                && #[trigger] fitting(distance as int, velocity as int, speed) by {}
    }
    speeds
}

/// Whether `d` divides `x`.
fn divides(d: i64, x: i64) -> (r: bool)
    requires
        d != 0,
        i64::MIN < d,
        i64::MIN < x,
    ensures
        r == multiple(x as int, d as int),
{
    let size: u64 = if d < 0 {
        (-d) as u64
    } else {
        d as u64
    };
    let whole: u64 = if x < 0 {
        (-x) as u64
    } else {
        x as u64
    };
    let rest = whole % size;
    proof {
        let (n, a, q) = (size as int, whole as int, whole as int / size as int);
        vstd::arithmetic::div_mod::lemma_fundamental_div_mod(a, n);
        if rest == 0 {
            let k = if (x < 0) == (d < 0) {
                q
            } else {
                -q
            };
            assert(x as int == k * d) by (nonlinear_arith)
                requires
                    a == n * q,
                    a == (if x < 0 {
                        -x
                    } else {
                        x as int
                    }),
                    n == (if d < 0 {
                        -d
                    } else {
                        d as int
                    }),
                    k == (if (x < 0) == (d < 0) {
                        q
                    } else {
                        -q
                    }),
            ;
        } else if multiple(x as int, d as int) {
            let k = choose|k: int| x as int == #[trigger] (k * d);
            let t = if (x < 0) == (d < 0) {
                k
            } else {
                -k
            };
            assert(a == t * n + 0) by (nonlinear_arith)
                requires
                    x as int == k * d,
                    a == (if x < 0 {
                        -x
                    } else {
                        x as int
                    }),
                    n == (if d < 0 {
                        -d
                    } else {
                        d as int
                    }),
                    t == (if (x < 0) == (d < 0) {
                        k
                    } else {
                        -k
                    }),
            ;
            vstd::arithmetic::div_mod::lemma_fundamental_div_mod_converse(a, n, t, 0);
        }
    }
    rest == 0
}

/// The speeds that are still possible once more have been found: those
/// found where none was possible before, else those of the possible ones
/// that are among those found, in their order.
pub fn narrow(possible: Vec<i64>, found: Vec<i64>) -> (r: Vec<i64>)
    ensures
        possible@.len() == 0 ==> r@ == found@,
        possible@.len() > 0 ==> r@ == possible@.filter(|speed: i64| found@.contains(speed)),
{
    if possible.len() == 0 {
        return found;
    }
    let mut kept: Vec<i64> = Vec::new();
    let ghost all = possible@;
    let ghost keep = |speed: i64| found@.contains(speed);
    proof {
        assert(all.take(0).filter(keep) =~= Seq::<i64>::empty());
    }
    let mut i: usize = 0;
    while i < possible.len()
        invariant
            all == possible@,
            keep == |speed: i64| found@.contains(speed),
            i <= all.len(),
            kept@ == all.take(i as int).filter(keep),
        decreases all.len() - i,
    {
        let speed = possible[i];
        let mut held = false;
        let mut k: usize = 0;
        while k < found.len() && !held
            invariant
                k <= found@.len(),
                held ==> found@.contains(speed),
                !held ==> forall|j: int| 0 <= j < k ==> found@[j] != speed,
            decreases found@.len() - k, !held as int,
        {
            if found[k] == speed {
                held = true;
            } else {
                k = k + 1;
            }
        }
        proof {
            let done = all.take(i as int);
            let more = all.take(i + 1);
            assert(more =~= done.push(speed));
            assert(more.drop_last() =~= done);
            reveal(Seq::filter);
            assert(more.filter(keep) == if keep(speed) {
                done.filter(keep).push(speed)
            } else {
                done.filter(keep)
            });
        }
        if held {
            kept.push(speed);
        }
        i = i + 1;
    }
    proof {
        assert(all.take(all.len() as int) =~= all);
    }
    kept
}

impl Hailstone {
    /// The line holds just the six numbers of the hailstone: the three of
    /// its place and the three of its speed.
    pub open spec fn stands_in(self, line: Seq<u8>) -> bool {
        signed_in(line) == seq![
            self.position.x as int,
            self.position.y as int,
            self.position.z as int,
            self.velocity.x as int,
            self.velocity.y as int,
            self.velocity.z as int,
        ]
    }

    /// Reads a hailstone: the three numbers of its place and the three of
    /// its speed, with or without a minus sign, in a line that holds no other
    /// number. `None` where the line does not hold just six numbers, or where
    /// one of them is no number of the machine.
    pub fn from(bytes: &[u8], from: usize, to: usize) -> (r: Option<Self>)
        requires
            from <= to <= bytes@.len(),
        ensures
            r matches Some(stone) ==> signed_in(bytes@.subrange(from as int, to as int)) == seq![
                stone.position.x as int,
                stone.position.y as int,
                stone.position.z as int,
                stone.velocity.x as int,
                stone.velocity.y as int,
                stone.velocity.z as int,
            ],
            r is None ==> signed_in(bytes@.subrange(from as int, to as int)).len() != 6 || exists|
                k: int,
            |
                0 <= k < 6 && !(isize::MIN < #[trigger] signed_in(
                    bytes@.subrange(from as int, to as int),
                )[k] <= isize::MAX),
            r is Some <==> readable(bytes@.subrange(from as int, to as int)),
    {
        let numbers = match read_signed_numbers(bytes, from, to) {
            Some(numbers) => numbers,
            None => {
                return None;
            },
        };
        proof {
            assert(numbers@.map_values(|n: isize| n as int).len() == numbers@.len());
        }
        if numbers.len() != 6 {
            return None;
        }
        let stone = Hailstone {
            position: Vector {
                x: numbers[0] as i64,
                y: numbers[1] as i64,
                z: numbers[2] as i64,
            },
            velocity: Vector {
                x: numbers[3] as i64,
                y: numbers[4] as i64,
                z: numbers[5] as i64,
            },
        };
        proof {
            assert(numbers@.map_values(|n: isize| n as int) =~= seq![
                stone.position.x as int,
                stone.position.y as int,
                stone.position.z as int,
                stone.velocity.x as int,
                stone.velocity.y as int,
                stone.velocity.z as int,
            ]);
        }
        Some(stone)
    }
}

/// The line holds a hailstone: just six numbers, each a number of the
/// machine and not the least of them.
pub open spec fn readable(line: Seq<u8>) -> bool {
    signed_in(line).len() == 6 && all_fit(signed_in(line))
}

/// An axis of space.
#[derive(Clone, Copy, Debug, PartialEq, Eq, Structural)]
pub enum Axis {
    X,
    Y,
    Z,
}

impl Vector {
    /// The number along the axis.
    pub open spec fn along(self, axis: Axis) -> i64 {
        match axis {
            Axis::X => self.x,
            Axis::Y => self.y,
            Axis::Z => self.z,
        }
    }

    /// The number along the axis.
    pub fn get(self, axis: Axis) -> (r: i64)
        ensures
            r == self.along(axis),
    {
        match axis {
            Axis::X => self.x,
            Axis::Y => self.y,
            Axis::Z => self.z,
        }
    }
}

/// `found` holds the speeds from 500 the other way to 500 this way that
/// are `fitting`, in their order.
pub open spec fn listed(found: Seq<i64>, distance: int, velocity: int) -> bool {
    &&& forall|speed: int|
        found.contains(speed as i64) && -500 <= speed <= 500 <==> -500 <= speed <= 500
            && #[trigger] fitting(distance, velocity, speed)
    &&& forall|k: int| 0 <= k < found.len() ==> -500 <= #[trigger] found[k] <= 500
    &&& forall|i: int, j: int| 0 <= i < j < found.len() ==> found[i] < found[j]
}

/// What is left of the possible speeds when more were found: those that
/// were found too; all that were found, where none was possible.
pub open spec fn kept(possible: Seq<i64>, found: Seq<i64>) -> Seq<i64> {
    if possible.len() == 0 {
        found
    } else {
        possible.filter(|speed: i64| found.contains(speed))
    }
}

/// `after` is what is left of the speeds `before` when the hailstones `a`
/// and `b` have been looked at: where they are as fast along the axis, the
/// speeds are narrowed by those that fit the two.
pub open spec fn paired(
    hail: Seq<Hailstone>,
    axis: Axis,
    a: int,
    b: int,
    before: Seq<i64>,
    after: Seq<i64>,
) -> bool {
    if hail[a].velocity.along(axis) == hail[b].velocity.along(axis) {
        exists|found: Seq<i64>|
            #![trigger kept(before, found)]
            listed(
                found,
                hail[b].position.along(axis) - hail[a].position.along(axis),
                hail[a].velocity.along(axis) as int,
            ) && after == kept(before, found)
    } else {
        after == before
    }
}

/// `list` is what is left of the speeds when each hailstone before `i` has
/// been looked at with each one behind it, and the hailstone `i` with those
/// behind it that come before `j`.
pub open spec fn narrowed(hail: Seq<Hailstone>, axis: Axis, i: int, j: int, list: Seq<i64>) -> bool
    decreases i, j,
{
    if i < 0 {
        list.len() == 0
    } else if j <= i + 1 {
        if i == 0 {
            list.len() == 0
        } else {
            narrowed(hail, axis, i - 1, hail.len() as int, list)
        }
    } else {
        exists|before: Seq<i64>|
            #![trigger paired(hail, axis, i, j - 1, before, list)]
            narrowed(hail, axis, i, j - 1, before) && paired(hail, axis, i, j - 1, before, list)
    }
}

/// The speeds along an axis that remain possible for a rock that hits all
/// the hailstones at whole times. `None` where there is no hailstone, or
/// where a pair of hailstones lies `at_edge`.
pub fn axis_speeds(hailstones: &Vec<Hailstone>, axis: Axis) -> (r: Option<Vec<i64>>)
    ensures
        match r {
            Some(list) => hailstones@.len() >= 1 && !at_edge(hailstones@, axis) && narrowed(
                hailstones@,
                axis,
                hailstones@.len() - 1,
                hailstones@.len() as int,
                list@,
            ),
            None => hailstones@.len() == 0 || at_edge(hailstones@, axis),
        },
{
    let n = hailstones.len();
    if n == 0 {
        return None;
    }
    let ghost hail = hailstones@;
    let mut list: Vec<i64> = Vec::new();
    let mut i: usize = 0;
    while i < n - 1
        invariant
            n >= 1,
            n == hail.len(),
            hail == hailstones@,
            i <= n - 1,
            narrowed(hail, axis, i as int, i + 1, list@),
            forall|a: int, b: int| 0 <= a < i && a < b < n ==> !#[trigger] edgy(hail, axis, a, b),
        decreases n - 1 - i,
    {
        let a = hailstones[i];
        let mut j: usize = i + 1;
        while j < n
            invariant
                n == hail.len(),
                hail == hailstones@,
                i < n - 1,
                i + 1 <= j <= n,
                a == hail[i as int],
                narrowed(hail, axis, i as int, j as int, list@),
                forall|a: int, b: int|
                    0 <= a < i && a < b < n ==> !#[trigger] edgy(hail, axis, a, b),
                forall|b: int| i < b < j ==> !#[trigger] edgy(hail, axis, i as int, b),
            decreases n - j,
        {
            let b = hailstones[j];
            let ghost before = list@;
            if a.velocity.get(axis) == b.velocity.get(axis) {
                let distance = match b.position.get(axis).checked_sub(a.position.get(axis)) {
                    Some(distance) => distance,
                    None => {
                        proof {
                            assert(edgy(hail, axis, i as int, j as int));
                        }
                        return None;
                    },
                };
                let velocity = a.velocity.get(axis);
                if distance == i64::MIN || velocity <= i64::MIN + 500 || velocity >= i64::MAX
                    - 500 {
                    proof {
                        assert(edgy(hail, axis, i as int, j as int));
                    }
                    return None;
                }
                let found = possible_speeds(distance, velocity);
                let ghost seen = found@;
                list = narrow(list, found);
                proof {
                    assert(listed(seen, distance as int, velocity as int));
                    assert(list@ == kept(before, seen));
                    assert(paired(hail, axis, i as int, j as int, before, list@));
                }
            } else {
                proof {
                    assert(paired(hail, axis, i as int, j as int, before, list@));
                }
            }
            proof {
                let next = j + 1;
                assert(narrowed(hail, axis, i as int, next - 1, before) && paired(
                    hail,
                    axis,
                    i as int,
                    next - 1,
                    before,
                    list@,
                ));
                assert(narrowed(hail, axis, i as int, next, list@));
                assert(!edgy(hail, axis, i as int, j as int));
            }
            j = j + 1;
        }
        proof {
            let next = i + 1;
            assert(narrowed(hail, axis, next - 1, hail.len() as int, list@));
            assert(narrowed(hail, axis, next, next + 1, list@));
        }
        i = i + 1;
    }
    Some(list)
}

/// Two hailstones are as fast along the axis, and how far they are apart,
/// or how fast they are, lies at the edge of the numbers of the machine:
/// the distance is no such number or the least of them, or the speed is
/// within 500 of the least or the greatest.
pub open spec fn edgy(hail: Seq<Hailstone>, axis: Axis, a: int, b: int) -> bool {
    let distance = hail[b].position.along(axis) - hail[a].position.along(axis);
    let velocity = hail[a].velocity.along(axis);
    velocity == hail[b].velocity.along(axis) && (distance <= i64::MIN || distance > i64::MAX
        || velocity <= i64::MIN + 500 || velocity >= i64::MAX - 500)
}

/// A hailstone and one behind it are `edgy`.
pub open spec fn at_edge(hail: Seq<Hailstone>, axis: Axis) -> bool {
    exists|a: int, b: int| 0 <= a < b < hail.len() && #[trigger] edgy(hail, axis, a, b)
}

/// The speeds along the three axes that remain possible for the rock.
/// `None` where there is no hailstone, or where a pair of hailstones lies
/// `at_edge` along an axis.
pub fn rock_speeds(hailstones: &Vec<Hailstone>) -> (r: Option<(Vec<i64>, Vec<i64>, Vec<i64>)>)
    ensures
        match r {
            Some(lists) => hailstones@.len() >= 1 && !at_edge(hailstones@, Axis::X) && !at_edge(
                hailstones@,
                Axis::Y,
            ) && !at_edge(hailstones@, Axis::Z) && narrowed(
                hailstones@,
                Axis::X,
                hailstones@.len() - 1,
                hailstones@.len() as int,
                lists.0@,
            ) && narrowed(
                hailstones@,
                Axis::Y,
                hailstones@.len() - 1,
                hailstones@.len() as int,
                lists.1@,
            ) && narrowed(
                hailstones@,
                Axis::Z,
                hailstones@.len() - 1,
                hailstones@.len() as int,
                lists.2@,
            ),
            None => hailstones@.len() == 0 || at_edge(hailstones@, Axis::X) || at_edge(
                hailstones@,
                Axis::Y,
            ) || at_edge(hailstones@, Axis::Z),
        },
{
    let x = match axis_speeds(hailstones, Axis::X) {
        Some(x) => x,
        None => {
            return None;
        },
    };
    let y = match axis_speeds(hailstones, Axis::Y) {
        Some(y) => y,
        None => {
            return None;
        },
    };
    let z = match axis_speeds(hailstones, Axis::Z) {
        Some(z) => z,
        None => {
            return None;
        },
    };
    Some((x, y, z))
}

/// The hailstones of the text, one in each line. `None` where a line does
/// not hold just the six numbers of a hailstone.
pub fn read_hailstones(input: &str) -> (r: Option<Vec<Hailstone>>)
    ensures
        match r {
            Some(hailstones) => hailstones@.len() == lines(input.spec_bytes()).len() && (forall|
                i: int,
            |
                0 <= i < hailstones@.len() ==> readable(#[trigger] lines(input.spec_bytes())[i]))
                && (forall|i: int|
                0 <= i < hailstones@.len() ==> (#[trigger] hailstones@[i]).stands_in(
                    lines(input.spec_bytes())[i],
                )),
            None => exists|i: int|
                0 <= i < lines(input.spec_bytes()).len() && !readable(
                    #[trigger] lines(input.spec_bytes())[i],
                ),
        },
{
    let rows = split_lines(input.as_bytes());
    let ghost text = lines(input.spec_bytes());
    let mut hailstones: Vec<Hailstone> = Vec::new();
    let mut i: usize = 0;
    while i < rows.len()
        invariant
            i <= rows@.len(),
            rows_of(rows@) == text,
            text == lines(input.spec_bytes()),
            hailstones@.len() == i,
            forall|k: int| 0 <= k < i ==> readable(#[trigger] text[k]),
            forall|k: int| 0 <= k < i ==> (#[trigger] hailstones@[k]).stands_in(text[k]),
        decreases rows@.len() - i,
    {
        let row = &rows[i];
        proof {
            assert(row@.subrange(0, row@.len() as int) =~= row@);
            assert(text[i as int] == row@);
        }
        match Hailstone::from(row.as_slice(), 0, row.len()) {
            Some(hailstone) => {
                hailstones.push(hailstone);
                proof {
                    assert(readable(text[i as int]));
                }
            },
            None => {
                proof {
                    assert(!readable(text[i as int]));
                }
                return None;
            },
        }
        i = i + 1;
    }
    Some(hailstones)
}

} // verus!
