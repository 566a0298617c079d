//! Digging out a lagoon along a plan of trenches.

use crate::text::{
    decimal, lemma_until, lines, read_number, rows_of, run, split_lines, until,
};
use vstd::prelude::*;
use vstd::slice::*;
use vstd::string::*;

verus! {

/// The way in which a trench runs.
#[derive(Clone, Copy, Debug, PartialEq, Eq, Structural)]
pub enum Direction {
    Up,
    Down,
    Left,
    Right,
}

impl Direction {
    /// The direction that a byte of the plan stands for: a letter, or the
    /// last digit of a colour.
    pub open spec fn of(byte: u8) -> Option<Direction> {
        if byte == 0x55 || byte == 0x33 {
            Some(Direction::Up)
        } else if byte == 0x44 || byte == 0x31 {
            Some(Direction::Down)
        } else if byte == 0x4c || byte == 0x32 {
            Some(Direction::Left)
        } else if byte == 0x52 || byte == 0x30 {
            Some(Direction::Right)
        } else {
            None
        }
    }

    /// The direction that a byte of the plan stands for.
    pub fn from(byte: u8) -> (r: Option<Self>)
        ensures
            r == Direction::of(byte),
    {
        if byte == 0x55 || byte == 0x33 {
            Some(Direction::Up)
        } else if byte == 0x44 || byte == 0x31 {
            Some(Direction::Down)
        } else if byte == 0x4c || byte == 0x32 {
            Some(Direction::Left)
        } else if byte == 0x52 || byte == 0x30 {
            Some(Direction::Right)
        } else {
            None
        }
    }
}

/// An order to dig a trench.
#[derive(Clone, Copy, Debug, PartialEq, Eq, Structural)]
pub struct DigInstruction {
    pub direction: Direction,
    pub distance: isize,
}

/// A corner of the lagoon.
#[derive(Clone, Copy, Debug, PartialEq, Eq, Structural)]
pub struct Point {
    pub row: isize,
    pub col: isize,
}

/// Where a trench of `distance` in `direction` ends that starts at `from`.
pub open spec fn moved(from: (int, int), direction: Direction, distance: int) -> (int, int) {
    match direction {
        Direction::Up => (from.0 - distance, from.1),
        Direction::Down => (from.0 + distance, from.1),
        Direction::Left => (from.0, from.1 - distance),
        Direction::Right => (from.0, from.1 + distance),
    }
}

/// The number is one of the machine.
pub open spec fn fits(value: int) -> bool {
    isize::MIN <= value <= isize::MAX
}

impl Point {
    pub fn new(row: isize, col: isize) -> (r: Self)
        ensures
            r == (Point { row, col }),
    {
        Point { row, col }
    }

    /// The corner as a pair of numbers.
    pub open spec fn at(self) -> (int, int) {
        (self.row as int, self.col as int)
    }

    /// The corner at `distance` from this one in `direction`.
    pub fn shift(self, direction: Direction, distance: isize) -> (r: Self)
        requires
            fits(moved(self.at(), direction, distance as int).0),
            fits(moved(self.at(), direction, distance as int).1),
        ensures
            r.at() == moved(self.at(), direction, distance as int),
    {
        match direction {
            Direction::Up => Point::new(self.row - distance, self.col),
            Direction::Down => Point::new(self.row + distance, self.col),
            Direction::Left => Point::new(self.row, self.col - distance),
            Direction::Right => Point::new(self.row, self.col + distance),
        }
    }
}

/// The corners of a lagoon in the order in which they were dug, and the
/// length of the trenches between them.
pub struct Plot {
    pub vertices: Vec<Point>,
    pub perimeter: isize,
}

/// The corners that the first `upto` orders lead to, from the corner `from`
/// on.
pub open spec fn corners(from: (int, int), orders: Seq<DigInstruction>, upto: int) -> Seq<
    (int, int),
>
    decreases upto,
{
    if upto <= 0 {
        seq![from]
    } else {
        let before = corners(from, orders, upto - 1);
        before.push(moved(before.last(), orders[upto - 1].direction, orders[upto - 1].distance as int))
    }
}

/// The length of the trenches of the first `upto` orders.
pub open spec fn length(orders: Seq<DigInstruction>, upto: int) -> int
    decreases upto,
{
    if upto <= 0 {
        0
    } else {
        length(orders, upto - 1) + orders[upto - 1].distance
    }
}

/// Twice the area within the first `upto` corners, taken with its sign: the
/// sum, over each corner and the next, of the row of the one times the
/// column of the other less the column of the one times the row of the other.
pub open spec fn twice_area(corners: Seq<(int, int)>, upto: int) -> int
    decreases upto,
{
    if upto <= 1 {
        0
    } else {
        twice_area(corners, upto - 1) + corners[upto - 2].0 * corners[upto - 1].1 - corners[upto
            - 2].1 * corners[upto - 1].0
    }
}

/// How far a number is from 0.
pub open spec fn size(value: int) -> int {
    if value < 0 {
        -value
    } else {
        value
    }
}

impl Plot {
    /// The corners as pairs of numbers.
    pub open spec fn places(&self) -> Seq<(int, int)> {
        self.vertices@.map_values(|point: Point| point.at())
    }

    /// A plot on which nothing has been dug.
    pub fn default() -> (r: Self)
        ensures
            r.vertices@.len() == 0,
            r.perimeter == 0,
    {
        Plot { vertices: Vec::new(), perimeter: 0 }
    }

    /// The orders can be followed without leaving the numbers of the
    /// machine.
    pub open spec fn can_dig(perimeter: int, orders: Seq<DigInstruction>) -> bool {
        forall|k: int|
            0 <= k <= orders.len() ==> fits(perimeter + length(orders, k)) && fits(
                (#[trigger] corners((0, 0), orders, k)).last().0,
            ) && fits(corners((0, 0), orders, k).last().1)
    }

    /// Digs the trenches of the orders, one after the other, from the corner
    /// at row 0 and column 0 on.
    pub fn dig(&mut self, instructions: &Vec<DigInstruction>)
        requires
            Plot::can_dig(old(self).perimeter as int, instructions@),
        ensures
            final(self).places() == old(self).places() + corners(
                (0, 0),
                instructions@,
                instructions@.len() as int,
            ),
            final(self).perimeter == old(self).perimeter + length(
                instructions@,
                instructions@.len() as int,
            ),
    {
        let ghost orders = instructions@;
        let ghost before = self.places();
        let ghost first = self.perimeter as int;
        let mut current = Point::new(0, 0);
        self.vertices.push(current);
        let mut i: usize = 0;
        proof {
            assert(self.places() =~= before + corners((0, 0), orders, 0));
        }
        while i < instructions.len()
            invariant
                orders == instructions@,
                Plot::can_dig(first, orders),
                i <= orders.len(),
                self.places() == before + corners((0, 0), orders, i as int),
                current.at() == corners((0, 0), orders, i as int).last(),
                self.perimeter == first + length(orders, i as int),
            decreases orders.len() - i,
        {
            let instruction = instructions[i];
            let ghost so_far = self.places();
            proof {
                assert(fits(corners((0, 0), orders, i + 1).last().0));
                assert(fits(first + length(orders, i + 1)));
            }
            current = current.shift(instruction.direction, instruction.distance);
            self.vertices.push(current);
            self.perimeter = self.perimeter + instruction.distance;
            proof {
                assert(self.places() =~= so_far.push(current.at()));
                assert(self.places() =~= before + corners((0, 0), orders, i + 1));
            }
            i = i + 1;
        }
    }

    /// The area can be reckoned without leaving the numbers of the machine.
    pub open spec fn can_count(&self) -> bool {
        &&& forall|k: int|
            1 <= k < self.places().len() ==> fits(
                (#[trigger] self.places()[k - 1]).0 * self.places()[k].1,
            ) && fits(self.places()[k - 1].1 * self.places()[k].0) && fits(
                self.places()[k - 1].0 * self.places()[k].1 - self.places()[k - 1].1
                    * self.places()[k].0,
            )
        &&& forall|k: int| 0 <= k <= self.places().len() ==> fits(#[trigger] twice_area(self.places(), k))
        &&& fits(size(twice_area(self.places(), self.places().len() as int)))
        &&& fits(size(twice_area(self.places(), self.places().len() as int)) + self.perimeter)
        &&& size(twice_area(self.places(), self.places().len() as int)) + self.perimeter >= 0
    }

    /// How many cubic metres the lagoon holds, its trenches one metre wide
    /// and all within them dug out: half of twice the area within the corners
    /// and of the length of the trenches, and one more.
    pub fn count_space(&self) -> (r: isize)
        requires
            self.can_count(),
        ensures
            r == (size(twice_area(self.places(), self.places().len() as int)) + self.perimeter) / 2
                + 1,
    {
        let mut pair_sums: isize = 0;
        let mut i: usize = 1;
        while i < self.vertices.len()
            invariant
                self.can_count(),
                1 <= i,
                i <= self.vertices@.len() || (self.vertices@.len() == 0 && i == 1),
                pair_sums == twice_area(self.places(), i as int),
            decreases self.vertices@.len() - i,
        {
            let first = self.vertices[i - 1];
            let second = self.vertices[i];
            proof {
                assert(self.places()[i - 1] == first.at());
                assert(self.places()[i as int] == second.at());
                assert(fits(self.places()[i - 1].0 * self.places()[i as int].1));
                assert(fits(twice_area(self.places(), i + 1)));
            }
            pair_sums = pair_sums + (first.row * second.col - first.col * second.row);
            i = i + 1;
        }
        proof {
            assert(self.places().len() == self.vertices@.len());
            if self.vertices@.len() == 0 {
                assert(i == 1);
                assert(twice_area(self.places(), 1) == 0);
                assert(twice_area(self.places(), 0) == 0);
            } else {
                assert(i == self.vertices@.len());
            }
            assert(pair_sums == twice_area(self.places(), self.places().len() as int));
        }
        let area = if pair_sums < 0 {
            -pair_sums
        } else {
            pair_sums
        };
        ((area + self.perimeter) / 2) + 1
    }
}

impl DigInstruction {
    /// The order that a line stands for as it stands: the letter of the
    /// direction, a blank, and the digits of the distance. `None` where the
    /// line does not start so, or where the distance is no number of the
    /// machine.
    pub open spec fn plain_of(text: Seq<u8>) -> Option<DigInstruction> {
        let digits = run(text.skip(2)) as int;
        let distance = decimal(text.subrange(2, 2 + digits));
        if text.len() < 2 || text[1] != 0x20 || distance > isize::MAX {
            None
        } else {
            match Direction::of(text[0]) {
                Some(direction) => Some(DigInstruction { direction, distance: distance as isize }),
                None => None,
            }
        }
    }

    /// Reads an order as it stands.
    pub fn from_part1(bytes: &[u8], from: usize, to: usize) -> (r: Option<Self>)
        requires
            from <= to <= bytes@.len(),
        ensures
            r == DigInstruction::plain_of(bytes@.subrange(from as int, to as int)),
    {
        if to - from < 2 || bytes[from + 1] != 0x20 {
            return None;
        }
        let direction = match Direction::from(bytes[from]) {
            Some(direction) => direction,
            None => {
                return None;
            },
        };
        let line = slice_subrange(bytes, from, to);
        let (distance, end) = read_number(line, 2);
        match distance {
            Some(distance) => {
                if distance > isize::MAX as usize {
                    None
                } else {
                    Some(DigInstruction { direction, distance: distance as isize })
                }
            },
            None => None,
        }
    }

    /// The number that a digit to the base 16 stands for.
    pub open spec fn hex(byte: u8) -> Option<int> {
        if 0x30 <= byte <= 0x39 {
            Some(byte - 0x30)
        } else if 0x61 <= byte <= 0x66 {
            Some(byte - 0x61 + 10)
        } else if 0x41 <= byte <= 0x46 {
            Some(byte - 0x41 + 10)
        } else {
            None
        }
    }

    /// The number that the first `upto` digits to the base 16 stand for.
    pub open spec fn hex_value(digits: Seq<u8>, upto: int) -> int
        decreases upto,
    {
        if upto <= 0 {
            0
        } else {
            DigInstruction::hex_value(digits, upto - 1) * 16 + DigInstruction::hex(
                digits[upto - 1],
            ).unwrap_or(0)
        }
    }

    /// All of the first `upto` bytes are digits to the base 16.
    pub open spec fn all_hex(digits: Seq<u8>, upto: int) -> bool {
        forall|k: int| 0 <= k < upto ==> DigInstruction::hex(#[trigger] digits[k]) is Some
    }

    /// The order that the colour of a line stands for: after the first hash
    /// sign, five digits to the base 16 give the distance, and one more the
    /// direction. `None` where the line holds no hash sign with six such
    /// digits after it.
    pub open spec fn colour_of(text: Seq<u8>) -> Option<DigInstruction> {
        let hash = until(text, 0x23) as int;
        if text.len() - hash < 7 || !DigInstruction::all_hex(text.subrange(hash + 1, hash + 6), 5) {
            None
        } else {
            match Direction::of(text[hash + 6]) {
                Some(direction) => Some(
                    DigInstruction {
                        direction,
                        distance: DigInstruction::hex_value(text.subrange(hash + 1, hash + 6), 5) as isize,
                    },
                ),
                None => None,
            }
        }
    }

    /// Reads an order out of the colour of a line.
    pub fn from_part2(bytes: &[u8], from: usize, to: usize) -> (r: Option<Self>)
        requires
            from <= to <= bytes@.len(),
        ensures
            r == DigInstruction::colour_of(bytes@.subrange(from as int, to as int)),
    {
        let ghost text = bytes@.subrange(from as int, to as int);
        let mut hash = from;
        while hash < to && bytes[hash] != 0x23
            invariant
                from <= hash <= to <= bytes@.len(),
                forall|k: int| from <= k < hash ==> #[trigger] bytes@[k] != 0x23,
            decreases to - hash,
        {
            hash = hash + 1;
        }
        proof {
            assert forall|k: int| 0 <= k < hash - from implies #[trigger] text[k] != 0x23 by {
                assert(text[k] == bytes@[from + k]);
            }
            lemma_until(text, 0x23, hash - from);
        }
        if to - hash < 7 {
            return None;
        }
        proof {
            assert(text.subrange(hash - from + 1, hash - from + 6) =~= bytes@.subrange(
                hash + 1,
                hash + 6,
            ));
        }
        let mut distance: isize = 0;
        let mut k: usize = 0;
        let ghost digits = bytes@.subrange(hash + 1, hash + 6);
        while k < 5
            invariant
                hash + 7 <= to <= bytes@.len(),
                digits == bytes@.subrange(hash + 1, hash + 6),
                k <= 5,
                text == bytes@.subrange(from as int, to as int),
                until(text, 0x23) == hash - from,
                digits == text.subrange(hash - from + 1, hash - from + 6),
                DigInstruction::all_hex(digits, k as int),
                distance == DigInstruction::hex_value(digits, k as int),
                0 <= distance < 0x100000,
            decreases 5 - k,
        {
            let byte = bytes[hash + 1 + k];
            proof {
                assert(digits[k as int] == byte);
            }
            let digit: isize = if 0x30 <= byte && byte <= 0x39 {
                (byte - 0x30) as isize
            } else if 0x61 <= byte && byte <= 0x66 {
                (byte - 0x61 + 10) as isize
            } else if 0x41 <= byte && byte <= 0x46 {
                (byte - 0x41 + 10) as isize
            } else {
                return None;
            };
            proof {
                assert(distance < 0x10000) by {
                    lemma_hex(digits, k as int);
                }
            }
            distance = distance * 16 + digit;
            k = k + 1;
        }
        match Direction::from(bytes[hash + 6]) {
            Some(direction) => Some(DigInstruction { direction, distance }),
            None => None,
        }
    }
}

/// A number of `upto` digits to the base 16 is below the `upto`th power of
/// 16.
proof fn lemma_hex(digits: Seq<u8>, upto: int)
    requires
        0 <= upto <= 4,
    ensures
        0 <= DigInstruction::hex_value(digits, upto) < 0x10000,
        upto <= 3 ==> DigInstruction::hex_value(digits, upto) < 0x1000,
        upto <= 2 ==> DigInstruction::hex_value(digits, upto) < 0x100,
        upto <= 1 ==> DigInstruction::hex_value(digits, upto) < 0x10,
        upto <= 0 ==> DigInstruction::hex_value(digits, upto) == 0,
    decreases upto,
{
    if upto > 0 {
        lemma_hex(digits, upto - 1);
    }
}

impl Plot {
    /// Whether the orders can be followed without leaving the numbers of
    /// the machine.
    pub fn fits_orders(perimeter: isize, orders: &Vec<DigInstruction>) -> (r: bool)
        ensures
            r == Plot::can_dig(perimeter as int, orders@),
    {
        let ghost list = orders@;
        let ghost first = perimeter as int;
        let mut row: isize = 0;
        let mut col: isize = 0;
        let mut dug = perimeter;
        let mut i: usize = 0;
        proof {
            assert(Plot::within(first, list, -1));
            assert(corners((0, 0), list, 0) == seq![(0int, 0int)]);
        }
        while i < orders.len()
            invariant
                list == orders@,
                first == perimeter,
                i <= list.len(),
                (row as int, col as int) == corners((0, 0), list, i as int).last(),
                dug == first + length(list, i as int),
                Plot::within(first, list, i as int),
            decreases list.len() - i,
        {
            let order = orders[i];
            let ghost next = corners((0, 0), list, i + 1);
            let to_row = match order.direction {
                Direction::Up => row.checked_sub(order.distance),
                Direction::Down => row.checked_add(order.distance),
                _ => Some(row),
            };
            let to_col = match order.direction {
                Direction::Left => col.checked_sub(order.distance),
                Direction::Right => col.checked_add(order.distance),
                _ => Some(col),
            };
            let longer = dug.checked_add(order.distance);
            proof {
                let before = corners((0, 0), list, i as int);
                assert(next.last() == moved(
                    before.last(),
                    order.direction,
                    order.distance as int,
                ));
                assert(length(list, i + 1) == length(list, i as int) + order.distance);
            }
            match (to_row, to_col, longer) {
                (Some(to_row), Some(to_col), Some(longer)) => {
                    row = to_row;
                    col = to_col;
                    dug = longer;
                },
                _ => {
                    proof {
                        assert(!Plot::within(first, list, i + 1));
                        Plot::lemma_within(first, list, i + 1, list.len() as int);
                    }
                    return false;
                },
            }
            i = i + 1;
        }
        proof {
            Plot::lemma_within(first, list, list.len() as int, list.len() as int);
        }
        true
    }

    /// The first `upto` orders can be followed without leaving the numbers
    /// of the machine.
    pub open spec fn within(perimeter: int, orders: Seq<DigInstruction>, upto: int) -> bool
        decreases upto + 1,
    {
        if upto < 0 {
            true
        } else {
            Plot::within(perimeter, orders, upto - 1) && fits(perimeter + length(orders, upto))
                && fits(corners((0, 0), orders, upto).last().0) && fits(
                corners((0, 0), orders, upto).last().1,
            )
        }
    }

    /// The orders can be followed just where each of them can.
    proof fn lemma_within(perimeter: int, orders: Seq<DigInstruction>, upto: int, all: int)
        requires
            -1 <= upto <= all,
            all == orders.len(),
        ensures
            !Plot::within(perimeter, orders, upto) ==> !Plot::can_dig(perimeter, orders),
            upto == all && Plot::within(perimeter, orders, upto) ==> Plot::can_dig(
                perimeter,
                orders,
            ),
        decreases upto + 1,
    {
        if upto >= 0 {
            Plot::lemma_within(perimeter, orders, upto - 1, all);
            let last = corners((0, 0), orders, upto);
            if !Plot::within(perimeter, orders, upto) {
                if Plot::can_dig(perimeter, orders) {
                    assert(fits(last.last().0));
                    assert(fits(perimeter + length(orders, upto)));
                    assert(fits(last.last().1));
                }
            }
        }
        if upto == all && Plot::within(perimeter, orders, upto) {
            assert forall|k: int| 0 <= k <= orders.len() implies fits(perimeter + length(orders, k))
                && fits((#[trigger] corners((0, 0), orders, k)).last().0) && fits(
                corners((0, 0), orders, k).last().1,
            ) by {
                Plot::lemma_within_each(perimeter, orders, upto, k);
            }
            assert forall|k: int| 0 <= k <= orders.len() implies fits(
                perimeter + #[trigger] length(orders, k),
            ) by {
                Plot::lemma_within_each(perimeter, orders, upto, k);
            }
            assert(Plot::can_dig(perimeter, orders));
        }
    }

    /// Where the first orders can be followed, so can each of them.
    proof fn lemma_within_each(perimeter: int, orders: Seq<DigInstruction>, upto: int, k: int)
        requires
            0 <= k <= upto,
            Plot::within(perimeter, orders, upto),
        ensures
            fits(perimeter + length(orders, k)),
            fits(corners((0, 0), orders, k).last().0),
            fits(corners((0, 0), orders, k).last().1),
        decreases upto + 1,
    {
        if k < upto {
            Plot::lemma_within_each(perimeter, orders, upto - 1, k);
        }
    }

    /// Whether the area can be reckoned without leaving the numbers of the
    /// machine.
    pub fn fits_count(&self) -> (r: bool)
        ensures
            r == self.can_count(),
    {
        let mut pair_sums: isize = 0;
        let mut i: usize = 1;
        while i < self.vertices.len()
            invariant
                1 <= i,
                i <= self.vertices@.len() || (self.vertices@.len() == 0 && i == 1),
                pair_sums == twice_area(self.places(), i as int),
                forall|k: int|
                    1 <= k < i ==> fits((#[trigger] self.places()[k - 1]).0 * self.places()[k].1)
                        && fits(self.places()[k - 1].1 * self.places()[k].0) && fits(
                        self.places()[k - 1].0 * self.places()[k].1 - self.places()[k - 1].1
                            * self.places()[k].0,
                    ),
                forall|k: int| 0 <= k <= i ==> fits(#[trigger] twice_area(self.places(), k)),
            decreases self.vertices@.len() - i,
        {
            let first = self.vertices[i - 1];
            let second = self.vertices[i];
            proof {
                assert(self.places()[i - 1] == first.at());
                assert(self.places()[i as int] == second.at());
            }
            let one = first.row.checked_mul(second.col);
            let other = first.col.checked_mul(second.row);
            let sum = match (one, other) {
                (Some(one), Some(other)) => match one.checked_sub(other) {
                    Some(cross) => pair_sums.checked_add(cross),
                    None => {
                        proof {
                            assert(!fits(self.places()[i - 1].0 * self.places()[i as int].1
                                - self.places()[i - 1].1 * self.places()[i as int].0));
                        }
                        return false;
                    },
                },
                _ => {
                    proof {
                        assert(!(fits(self.places()[i - 1].0 * self.places()[i as int].1) && fits(
                            self.places()[i - 1].1 * self.places()[i as int].0,
                        )));
                    }
                    return false;
                },
            };
            pair_sums = match sum {
                Some(sum) => sum,
                None => {
                    proof {
                        assert(!fits(twice_area(self.places(), i + 1)));
                    }
                    return false;
                },
            };
            i = i + 1;
        }
        proof {
            assert(self.places().len() == self.vertices@.len());
            if self.vertices@.len() == 0 {
                assert(twice_area(self.places(), 1) == 0);
                assert(twice_area(self.places(), 0) == 0);
            }
            assert(pair_sums == twice_area(self.places(), self.places().len() as int));
        }
        if pair_sums == isize::MIN {
            return false;
        }
        let area = if pair_sums < 0 {
            -pair_sums
        } else {
            pair_sums
        };
        match area.checked_add(self.perimeter) {
            Some(sum) => sum >= 0,
            None => false,
        }
    }
}

/// The orders are the ones that the lines stand for, read from their
/// colours where `coloured` holds.
pub open spec fn ordered(orders: Seq<DigInstruction>, text: Seq<Seq<u8>>, coloured: bool) -> bool {
    orders.len() == text.len() && forall|i: int|
        0 <= i < text.len() ==> Some(#[trigger] orders[i]) == if coloured {
            DigInstruction::colour_of(text[i])
        } else {
            DigInstruction::plain_of(text[i])
        }
}

/// How many cubic metres the lagoon of the orders holds.
pub open spec fn lagoon(orders: Seq<DigInstruction>) -> int {
    (size(twice_area(corners((0, 0), orders, orders.len() as int), orders.len() as int + 1))
        + length(
        orders,
        orders.len() as int,
    )) / 2 + 1
}

/// A line holds no order, or the reckoning of the lagoon of the orders
/// leaves the numbers of the machine.
pub open spec fn undug(text: Seq<Seq<u8>>, coloured: bool) -> bool {
    (exists|i: int|
        0 <= i < text.len() && (if coloured {
            DigInstruction::colour_of(#[trigger] text[i])
        } else {
            DigInstruction::plain_of(text[i])
        }) is None) || exists|orders: Seq<DigInstruction>, plot: Plot|
        #![trigger ordered(orders, text, coloured), plot.can_count()]
        ordered(orders, text, coloured) && (!Plot::can_dig(0, orders) || (plot.places() == corners(
            (0, 0),
            orders,
            orders.len() as int,
        ) && plot.perimeter == length(orders, orders.len() as int) && !plot.can_count()))
}

/// How many cubic metres the lagoon of the orders of the text holds.
/// `None` where a line holds no order, or where the reckoning leaves the
/// numbers of the machine.
fn solve(input: &str, coloured: bool) -> (r: Option<isize>)
    ensures
        match r {
            Some(space) => exists|orders: Seq<DigInstruction>| #[trigger]
                ordered(orders, lines(input.spec_bytes()), coloured) && space == lagoon(orders),
            None => undug(lines(input.spec_bytes()), coloured),
        },
{
    let rows = split_lines(input.as_bytes());
    let ghost text = lines(input.spec_bytes());
    let mut orders: Vec<DigInstruction> = Vec::new();
    let mut i: usize = 0;
    while i < rows.len()
        invariant
            i <= rows@.len(),
            text == rows_of(rows@),
            text == lines(input.spec_bytes()),
            orders@.len() == i,
            forall|k: int|
                0 <= k < i ==> Some(#[trigger] orders@[k]) == if coloured {
                    DigInstruction::colour_of(text[k])
                } else {
                    DigInstruction::plain_of(text[k])
                },
        decreases rows@.len() - i,
    {
        let row = &rows[i];
        proof {
            assert(row@.subrange(0, row@.len() as int) =~= row@);
            assert(text[i as int] == row@);
        }
        let order = if coloured {
            DigInstruction::from_part2(row.as_slice(), 0, row.len())
        } else {
            DigInstruction::from_part1(row.as_slice(), 0, row.len())
        };
        match order {
            Some(order) => {
                orders.push(order);
            },
            None => {
                proof {
                    assert((if coloured {
                        DigInstruction::colour_of(text[i as int])
                    } else {
                        DigInstruction::plain_of(text[i as int])
                    }) is None);
                }
                return None;
            },
        }
        i = i + 1;
    }
    proof {
        assert(ordered(orders@, text, coloured));
    }
    let mut plot = Plot::default();
    if !Plot::fits_orders(0, &orders) {
        proof {
            let countable = plot.can_count();
            assert(ordered(orders@, text, coloured) && !Plot::can_dig(0, orders@) && (countable
                || !countable));
        }
        return None;
    }
    plot.dig(&orders);
    proof {
        let all = corners((0, 0), orders@, orders@.len() as int);
        assert(plot.places() =~= all);
        lemma_corners(orders@, orders@.len() as int);
    }
    if !plot.fits_count() {
        proof {
            assert(ordered(orders@, text, coloured) && !plot.can_count());
        }
        return None;
    }
    Some(plot.count_space())
}

/// The first `upto` orders lead to one corner more than there are orders.
proof fn lemma_corners(orders: Seq<DigInstruction>, upto: int)
    requires
        0 <= upto,
    ensures
        corners((0, 0), orders, upto).len() == upto + 1,
    decreases upto,
{
    if upto > 0 {
        lemma_corners(orders, upto - 1);
    }
}

/// How many cubic metres the lagoon holds that the orders of the text dig
/// as they stand.
pub fn solve_part1(input: &str) -> (r: Option<isize>)
    ensures
        match r {
            Some(space) => exists|orders: Seq<DigInstruction>| #[trigger]
                ordered(orders, lines(input.spec_bytes()), false) && space == lagoon(orders),
            None => undug(lines(input.spec_bytes()), false),
        },
{
    solve(input, false)
}

/// How many cubic metres the lagoon holds that the orders in the colours
/// of the text dig.
pub fn solve_part2(input: &str) -> (r: Option<isize>)
    ensures
        match r {
            Some(space) => exists|orders: Seq<DigInstruction>| #[trigger]
                ordered(orders, lines(input.spec_bytes()), true) && space == lagoon(orders),
            None => undug(lines(input.spec_bytes()), true),
        },
{
    solve(input, true)
}

} // verus!
