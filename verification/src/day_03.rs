//! An engine schematic: part numbers next to symbols, and gears.

use crate::text::{decimal, is_digit, lines, rows_of, split_lines};
use vstd::prelude::*;
use vstd::slice::*;
use vstd::string::*;

verus! {

/// A place in the schematic.
#[derive(Clone, Copy, Debug, PartialEq, Eq, Structural)]
pub struct Point {
    pub row: isize,
    pub col: isize,
}

impl Point {
    pub fn new(row: isize, col: isize) -> (r: Self)
        ensures
            r == (Point { row, col }),
    {
        Point { row, col }
    }

    /// The eight places around this one, row by row.
    pub open spec fn around(self) -> Seq<Point> {
        seq![
            Point { row: (self.row - 1) as isize, col: (self.col - 1) as isize },
            Point { row: (self.row - 1) as isize, col: self.col },
            Point { row: (self.row - 1) as isize, col: (self.col + 1) as isize },
            Point { row: self.row, col: (self.col - 1) as isize },
            Point { row: self.row, col: (self.col + 1) as isize },
            Point { row: (self.row + 1) as isize, col: (self.col - 1) as isize },
            Point { row: (self.row + 1) as isize, col: self.col },
            Point { row: (self.row + 1) as isize, col: (self.col + 1) as isize },
        ]
    }

    /// The eight places around this one, row by row.
    pub fn neighbors(self) -> (r: Vec<Point>)
        requires
            isize::MIN < self.row < isize::MAX,
            isize::MIN < self.col < isize::MAX,
        ensures
            r@ == self.around(),
    {
        let mut r = Vec::with_capacity(8);
        r.push(Point::new(self.row - 1, self.col - 1));
        r.push(Point::new(self.row - 1, self.col));
        r.push(Point::new(self.row - 1, self.col + 1));
        r.push(Point::new(self.row, self.col - 1));
        r.push(Point::new(self.row, self.col + 1));
        r.push(Point::new(self.row + 1, self.col - 1));
        r.push(Point::new(self.row + 1, self.col));
        r.push(Point::new(self.row + 1, self.col + 1));
        proof {
            assert(r@ =~= self.around());
        }
        r
    }

    /// The place one column to the left.
    pub fn left(self) -> (r: Self)
        requires
            self.col > isize::MIN,
        ensures
            r.row == self.row,
            r.col == self.col - 1,
    {
        Point { row: self.row, col: self.col - 1 }
    }

    /// The place one column to the right.
    pub fn right(self) -> (r: Self)
        requires
            self.col < isize::MAX,
        ensures
            r.row == self.row,
            r.col == self.col + 1,
    {
        Point { row: self.row, col: self.col + 1 }
    }
}

/// A schematic, row by row, and the places where a part number starts that
/// has been read.
pub struct Schematic {
    pub values: Vec<Vec<u8>>,
    pub seen_part_numbers: Vec<Vec<bool>>,
}

/// The rows of a schematic.
pub type Sheet = Seq<Seq<u8>>;

/// What stands at a place; `None` outside the sheet.
pub open spec fn glyph(sheet: Sheet, point: Point) -> Option<u8> {
    if 0 <= point.row < sheet.len() && 0 <= point.col < sheet[point.row as int].len() {
        Some(sheet[point.row as int][point.col as int])
    } else {
        None
    }
}

/// Where the number starts that has a digit at the place `at` of the row:
/// at the first of the digits that run up to that place.
pub open spec fn number_start(row: Seq<u8>, at: int) -> int
    decreases at,
{
    if at <= 0 || !is_digit(row[at - 1]) {
        at
    } else {
        number_start(row, at - 1)
    }
}

/// Where the number ends that has a digit at the place `at` of the row:
/// after the last of the digits that run on from that place.
pub open spec fn number_end(row: Seq<u8>, at: int) -> int
    decreases row.len() - at,
{
    if at >= row.len() || !is_digit(row[at]) {
        at
    } else {
        number_end(row, at + 1)
    }
}

/// The number that has a digit at the place `at` of the row.
pub open spec fn number_at(row: Seq<u8>, at: int) -> nat {
    decimal(row.subrange(number_start(row, at), number_end(row, at)))
}

proof fn lemma_start(row: Seq<u8>, at: int)
    requires
        0 <= at <= row.len(),
    ensures
        0 <= number_start(row, at) <= at,
        forall|k: int| number_start(row, at) <= k < at ==> is_digit(#[trigger] row[k]),
        number_start(row, at) == 0 || !is_digit(row[number_start(row, at) - 1]),
    decreases at,
{
    if !(at <= 0 || !is_digit(row[at - 1])) {
        lemma_start(row, at - 1);
    }
}

proof fn lemma_same_start(row: Seq<u8>, from: int, at: int)
    requires
        0 <= from <= at <= row.len(),
        forall|k: int| from <= k < at ==> is_digit(#[trigger] row[k]),
    ensures
        number_start(row, at) == number_start(row, from),
    decreases at - from,
{
    if from < at {
        assert(is_digit(row[at - 1]));
        lemma_same_start(row, from, at - 1);
    }
}

proof fn lemma_same_end(row: Seq<u8>, from: int, at: int)
    requires
        0 <= from <= at <= row.len(),
        forall|k: int| from <= k < at ==> is_digit(#[trigger] row[k]),
    ensures
        number_end(row, from) == number_end(row, at),
    decreases at - from,
{
    if from < at {
        assert(is_digit(row[from]));
        lemma_same_end(row, from + 1, at);
    }
}

impl Schematic {
    /// The rows of the schematic.
    pub open spec fn sheet(&self) -> Sheet {
        Seq::new(self.values@.len(), |row: int| self.values@[row]@)
    }

    /// The marks of the schematic.
    pub open spec fn marks(&self) -> Seq<Seq<bool>> {
        Seq::new(self.seen_part_numbers@.len(), |row: int| self.seen_part_numbers@[row]@)
    }

    /// The schematic is in order: it has a mark for every place.
    pub open spec fn wf(&self) -> bool {
        &&& self.marks().len() == self.sheet().len()
        &&& forall|row: int|
            0 <= row < self.sheet().len() ==> (#[trigger] self.marks()[row]).len()
                == self.sheet()[row].len()
    }

    /// Reads a schematic: a row for each line of the text, with no mark
    /// yet.
    pub fn from(input: &str) -> (r: Self)
        ensures
            r.wf(),
            r.sheet() == lines(input.spec_bytes()),
            forall|row: int, col: int|
                0 <= row < r.marks().len() && 0 <= col < r.marks()[row].len() ==> !(
                #[trigger] r.marks()[row][col]),
    {
        let values = split_lines(input.as_bytes());
        let mut seen: Vec<Vec<bool>> = Vec::new();
        let mut row: usize = 0;
        while row < values.len()
            invariant
                row <= values@.len(),
                seen@.len() == row,
                forall|r: int| 0 <= r < row ==> (#[trigger] seen@[r])@.len() == values@[r]@.len(),
                forall|r: int, c: int|
                    0 <= r < seen@.len() && 0 <= c < seen@[r]@.len() ==> !(#[trigger] seen@[r]@[c]),
            decreases values@.len() - row,
        {
            let mut flags: Vec<bool> = Vec::new();
            let mut col: usize = 0;
            while col < values[row].len()
                invariant
                    row < values@.len(),
                    col <= values@[row as int]@.len(),
                    flags@.len() == col,
                    forall|k: int| 0 <= k < flags@.len() ==> !(#[trigger] flags@[k]),
                decreases values@[row as int]@.len() - col,
            {
                flags.push(false);
                col = col + 1;
            }
            seen.push(flags);
            row = row + 1;
        }
        let r = Schematic { values, seen_part_numbers: seen };
        proof {
            assert(r.sheet() =~= rows_of(r.values@));
            assert forall|row: int| 0 <= row < r.sheet().len() implies (#[trigger] r.marks()[row]).len()
                == r.sheet()[row].len() by {
                assert(r.seen_part_numbers@[row]@.len() == r.values@[row]@.len());
            }
            assert forall|row: int, col: int|
                0 <= row < r.marks().len() && 0 <= col < r.marks()[row].len() implies !(
            #[trigger] r.marks()[row][col]) by {
                assert(!r.seen_part_numbers@[row]@[col]);
            }
        }
        r
    }

    /// What stands at a place; `None` outside the schematic.
    fn get(&self, point: Point) -> (r: Option<u8>)
        ensures
            r == glyph(self.sheet(), point),
    {
        if point.row < 0 || point.col < 0 {
            return None;
        }
        let row = point.row as usize;
        let col = point.col as usize;
        if row >= self.values.len() {
            return None;
        }
        if col >= self.values[row].len() {
            return None;
        }
        Some(self.values[row][col])
    }

    /// Whether a symbol stands at the place: anything but a digit and a
    /// dot.
    pub fn is_symbol(&self, point: Point) -> (r: bool)
        ensures
            r == (glyph(self.sheet(), point) matches Some(byte) && !is_digit(byte) && byte != 0x2e),
    {
        match self.get(point) {
            Some(byte) => !(0x30 <= byte && byte <= 0x39) && byte != 0x2e,
            None => false,
        }
    }

    /// Whether a digit stands at the place.
    pub fn is_digit(&self, point: Point) -> (r: bool)
        ensures
            r == (glyph(self.sheet(), point) matches Some(byte) && is_digit(byte)),
    {
        match self.get(point) {
            Some(byte) => 0x30 <= byte && byte <= 0x39,
            None => false,
        }
    }

    /// The number that has a digit at `start`, and whether it has been read
    /// before; it counts as read from now on. `None` where the number is none
    /// of the machine; then nothing changes.
    pub fn read_part_number(&mut self, start: Point) -> (r: Option<(usize, bool)>)
        requires
            old(self).wf(),
            glyph(old(self).sheet(), start) matches Some(byte) && is_digit(byte),
        ensures
            final(self).wf(),
            final(self).sheet() == old(self).sheet(),
            ({
                let row = old(self).sheet()[start.row as int];
                let first = number_start(row, start.col as int);
                match r {
                    Some((number, seen)) => {
                        &&& number == number_at(row, start.col as int)
                        &&& seen == old(self).marks()[start.row as int][first]
                        &&& final(self).marks() == old(self).marks().update(
                            start.row as int,
                            old(self).marks()[start.row as int].update(first, true),
                        )
                    },
                    None => number_at(row, start.col as int) > usize::MAX && final(self).marks()
                        == old(self).marks(),
                }
            }),
    {
        let row = start.row as usize;
        let ghost line = self.sheet()[row as int];
        let n = self.values[row].len();
        let mut first = start.col as usize;
        proof {
            assert(self.values@[row as int]@ == line);
        }
        while first > 0 && 0x30 <= self.values[row][first - 1] && self.values[row][first - 1] <= 0x39
            invariant
                row < self.values@.len(),
                line == self.values@[row as int]@,
                first <= start.col < line.len(),
                number_start(line, first as int) == number_start(line, start.col as int),
            decreases first,
        {
            first = first - 1;
        }
        let mut number: usize = 0;
        let mut end = first;
        let mut fits = true;
        proof {
            lemma_start(line, start.col as int);
            assert(number_start(line, first as int) == first);
            assert(line.subrange(first as int, first as int) =~= Seq::<u8>::empty());
        }
        while end < n && 0x30 <= self.values[row][end] && self.values[row][end] <= 0x39
            invariant
                row < self.values@.len(),
                line == self.values@[row as int]@,
                n == line.len(),
                first <= end <= n,
                forall|k: int| first <= k < end ==> is_digit(#[trigger] line[k]),
                fits ==> number == decimal(line.subrange(first as int, end as int)),
                fits <==> decimal(line.subrange(first as int, end as int)) <= usize::MAX,
            decreases n - end,
        {
            let digit = (self.values[row][end] - 0x30) as usize;
            proof {
                let longer = line.subrange(first as int, end + 1);
                assert(longer.drop_last() =~= line.subrange(first as int, end as int));
                assert(longer.last() == line[end as int]);
            }
            if fits {
                if number > (usize::MAX - digit) / 10 {
                    fits = false;
                    proof {
                        assert(number * 10 + digit > usize::MAX) by (nonlinear_arith)
                            requires
                                number > (usize::MAX - digit) / 10,
                                0 <= digit <= 9,
                        ;
                    }
                } else {
                    proof {
                        assert(number * 10 + digit <= usize::MAX) by (nonlinear_arith)
                            requires
                                number <= (usize::MAX - digit) / 10,
                                0 <= digit <= 9,
                        ;
                    }
                    number = number * 10 + digit;
                }
            }
            end = end + 1;
        }
        proof {
            lemma_start(line, start.col as int);
            lemma_same_end(line, first as int, end as int);
            lemma_same_start(line, first as int, start.col as int);
            lemma_same_end(line, first as int, start.col as int);
            assert(number_end(line, end as int) == end);
        }
        if !fits {
            return None;
        }
        let ghost before = self.marks();
        let ghost sheet = self.sheet();
        proof {
            assert(before[row as int].len() == sheet[row as int].len());
            assert(self.seen_part_numbers@[row as int]@ == before[row as int]);
        }
        let seen = self.seen_part_numbers[row][first];
        self.seen_part_numbers[row][first] = true;
        proof {
            assert(self.sheet() =~= sheet);
            assert(self.marks() =~= before.update(
                row as int,
                before[row as int].update(first as int, true),
            ));
            assert forall|r: int| 0 <= r < self.sheet().len() implies (#[trigger] self.marks()[r]).len()
                == self.sheet()[r].len() by {
                assert(before[r].len() == sheet[r].len());
            }
        }
        Some((number, seen))
    }
}

/// The numbers that have a digit at one of the first `upto` places, in the
/// order of the places; a number comes once for each such place.
pub open spec fn numbers_near(sheet: Sheet, places: Seq<Point>, upto: int) -> Seq<nat>
    decreases upto,
{
    if upto <= 0 {
        Seq::empty()
    } else {
        let before = numbers_near(sheet, places, upto - 1);
        let point = places[upto - 1];
        match glyph(sheet, point) {
            Some(byte) if is_digit(byte) => before.push(
                number_at(sheet[point.row as int], point.col as int),
            ),
            _ => before,
        }
    }
}

/// What a gear holds after the first `upto` numbers next to it: the first
/// number, the first number other than that, and whether a third number has
/// come that is neither. A number counts as none while it is 0.
pub open spec fn meshed(numbers: Seq<nat>, upto: int) -> (nat, nat, bool)
    decreases upto,
{
    if upto <= 0 {
        (0, 0, false)
    } else {
        let (first, second, third) = meshed(numbers, upto - 1);
        let candidate = numbers[upto - 1];
        if third {
            (first, second, true)
        } else if first == 0 {
            (candidate, second, false)
        } else if second == 0 {
            if first != candidate {
                (first, candidate, false)
            } else {
                (first, second, false)
            }
        } else if first != candidate && second != candidate {
            (first, second, true)
        } else {
            (first, second, false)
        }
    }
}

/// The ratio of the gear at a place: the product of the two numbers next to
/// a star; 0 where no star stands there, or more than two numbers next to
/// it.
pub open spec fn gear_ratio(sheet: Sheet, point: Point) -> nat {
    if glyph(sheet, point) == Some(0x2au8) {
        let numbers = numbers_near(sheet, point.around(), 8);
        let (first, second, third) = meshed(numbers, numbers.len() as int);
        if third {
            0
        } else {
            first * second
        }
    } else {
        0
    }
}

impl Schematic {
    /// The ratio of the gear at a place. The numbers next to a star count
    /// as read from now on. `None` where the gear cannot be read: where a
    /// number next to the star, or the ratio, is no number of the machine.
    pub fn read_gear(&mut self, point: Point) -> (r: Option<usize>)
        requires
            old(self).wf(),
            point.row < isize::MAX,
            point.col < isize::MAX,
        ensures
            final(self).wf(),
            final(self).sheet() == old(self).sheet(),
            match r {
                Some(ratio) => ratio == gear_ratio(old(self).sheet(), point) && !gear_unread(
                    old(self).sheet(),
                    point,
                ) && final(self).marks() == if glyph(old(self).sheet(), point) == Some(0x2au8) {
                    marked_near(old(self).sheet(), old(self).marks(), point.around(), 8)
                } else {
                    old(self).marks()
                },
                None => gear_unread(old(self).sheet(), point),
            },
    {
        let ghost sheet = self.sheet();
        match self.get(point) {
            Some(byte) => {
                if byte != 0x2a {
                    return Some(0);
                }
            },
            None => {
                return Some(0);
            },
        }
        let places = point.neighbors();
        let mut first: usize = 0;
        let mut second: usize = 0;
        let mut third = false;
        let ghost mut numbers = Seq::<nat>::empty();
        let mut k: usize = 0;
        while k < places.len()
            invariant
                self.wf(),
                self.sheet() == sheet,
                sheet == old(self).sheet(),
                places@ == point.around(),
                k <= 8,
                numbers == numbers_near(sheet, places@, k as int),
                forall|j: int| 0 <= j < numbers.len() ==> #[trigger] numbers[j] <= usize::MAX,
                self.marks() == marked_near(sheet, old(self).marks(), places@, k as int),
                glyph(sheet, point) == Some(0x2au8),
                (first as nat, second as nat, third) == meshed(numbers, numbers.len() as int),
            decreases places@.len() - k,
        {
            let neighbor = places[k];
            if self.is_digit(neighbor) {
                let candidate = match self.read_part_number(neighbor) {
                    Some((candidate, _)) => candidate,
                    None => {
                        proof {
                            let all = numbers_near(sheet, places@, 8);
                            lemma_near(sheet, places@, k + 1, 8);
                            assert(all[numbers.len() as int] == numbers_near(
                                sheet,
                                places@,
                                k + 1,
                            )[numbers.len() as int]);
                            assert(all[numbers.len() as int] > usize::MAX);
                        }
                        return None;
                    },
                };
                proof {
                    let longer = numbers.push(candidate as nat);
                    assert(longer.drop_last() =~= numbers);
                    lemma_meshed(numbers, longer);
                    numbers = longer;
                }
                if third {
                } else if first == 0 {
                    first = candidate;
                } else if second == 0 {
                    if first != candidate {
                        second = candidate;
                    }
                } else if first != candidate && second != candidate {
                    third = true;
                }
            }
            k = k + 1;
        }
        if third {
            return Some(0);
        }
        first.checked_mul(second)
    }
}

/// One of the numbers is no number of the machine.
pub open spec fn oversized(numbers: Seq<nat>) -> bool {
    exists|k: int| 0 <= k < numbers.len() && #[trigger] numbers[k] > usize::MAX
}

/// The gear at the place cannot be read: a star stands there, and a number
/// next to it, or the ratio, is no number of the machine.
pub open spec fn gear_unread(sheet: Sheet, point: Point) -> bool {
    glyph(sheet, point) == Some(0x2au8) && (oversized(numbers_near(sheet, point.around(), 8))
        || gear_ratio(sheet, point) > usize::MAX)
}

/// The marks when the numbers at the first `upto` places have been read:
/// each of them is marked at its start.
pub open spec fn marked_near(sheet: Sheet, marks: Seq<Seq<bool>>, places: Seq<Point>, upto: int) -> Seq<
    Seq<bool>,
>
    decreases upto,
{
    if upto <= 0 {
        marks
    } else {
        let before = marked_near(sheet, marks, places, upto - 1);
        let point = places[upto - 1];
        match glyph(sheet, point) {
            Some(byte) if is_digit(byte) => before.update(
                point.row as int,
                before[point.row as int].update(
                    number_start(sheet[point.row as int], point.col as int),
                    true,
                ),
            ),
            _ => before,
        }
    }
}

/// The numbers at the first places are the first of the numbers at more
/// places.
proof fn lemma_near(sheet: Sheet, places: Seq<Point>, at: int, upto: int)
    requires
        0 <= at <= upto,
    ensures
        numbers_near(sheet, places, at).is_prefix_of(numbers_near(sheet, places, upto)),
    decreases upto - at,
{
    if at < upto {
        lemma_near(sheet, places, at, upto - 1);
    }
}

/// What a gear holds after numbers is what it holds after more numbers as
/// far as those go.
proof fn lemma_meshed(numbers: Seq<nat>, longer: Seq<nat>)
    requires
        numbers.is_prefix_of(longer),
    ensures
        meshed(longer, numbers.len() as int) == meshed(numbers, numbers.len() as int),
{
    lemma_meshed_upto(numbers, longer, numbers.len() as int);
}

proof fn lemma_meshed_upto(numbers: Seq<nat>, longer: Seq<nat>, upto: int)
    requires
        numbers.is_prefix_of(longer),
        0 <= upto <= numbers.len(),
    ensures
        meshed(longer, upto) == meshed(numbers, upto),
    decreases upto,
{
    if upto > 0 {
        lemma_meshed_upto(numbers, longer, upto - 1);
        assert(longer[upto - 1] == numbers[upto - 1]);
    }
}

/// As many rows and columns of a schematic as are looked at.
pub const SIDE: usize = 140;

/// The place of the tile with a number, counted row by row.
pub open spec fn cell(index: int) -> Point {
    Point { row: (index / 140) as isize, col: (index % 140) as isize }
}

/// The sum of the gear ratios at the first `upto` places.
pub open spec fn geared(sheet: Sheet, upto: int) -> int
    decreases upto,
{
    if upto <= 0 {
        0
    } else {
        geared(sheet, upto - 1) + gear_ratio(sheet, cell(upto - 1))
    }
}

/// The sum of the gear ratios of the schematic of the text, over its first
/// 140 rows and columns. `None` where a gear cannot be read, or where the
/// sum is no number of the machine.
pub fn solve_part2(input: &str) -> (r: Option<usize>)
    ensures
        match r {
            Some(total) => total == geared(lines(input.spec_bytes()), 19600) && !gears_unread(
                lines(input.spec_bytes()),
                19600,
            ),
            None => gears_unread(lines(input.spec_bytes()), 19600) || geared(
                lines(input.spec_bytes()),
                19600,
            ) > usize::MAX,
        },
{
    let mut schematic = Schematic::from(input);
    let ghost sheet = schematic.sheet();
    let mut total: usize = 0;
    let mut row: usize = 0;
    while row < SIDE
        invariant
            row <= SIDE,
            schematic.wf(),
            schematic.sheet() == sheet,
            sheet == lines(input.spec_bytes()),
            total == geared(sheet, row * 140),
            !gears_unread(sheet, row * 140),
        decreases SIDE - row,
    {
        let mut col: usize = 0;
        while col < SIDE
            invariant
                row < SIDE,
                col <= SIDE,
                schematic.wf(),
                schematic.sheet() == sheet,
                sheet == lines(input.spec_bytes()),
                total == geared(sheet, row * 140 + col),
                !gears_unread(sheet, row * 140 + col),
            decreases SIDE - col,
        {
            let point = Point::new(row as isize, col as isize);
            proof {
                assert(cell(row * 140 + col) == point) by {
                    assert((row * 140 + col) / 140 == row && (row * 140 + col) % 140 == col)
                        by (nonlinear_arith)
                        requires
                            0 <= col < 140,
                            0 <= row,
                    ;
                }
                lemma_geared(sheet, row * 140 + col + 1, 19600);
            }
            let ratio = match schematic.read_gear(point) {
                Some(ratio) => ratio,
                None => {
                    proof {
                        assert(gear_unread(sheet, cell(row * 140 + col)));
                    }
                    return None;
                },
            };
            total = match total.checked_add(ratio) {
                Some(total) => total,
                None => {
                    return None;
                },
            };
            col = col + 1;
        }
        row = row + 1;
    }
    Some(total)
}

/// One of the gears at the first `upto` places cannot be read.
pub open spec fn gears_unread(sheet: Sheet, upto: int) -> bool {
    exists|index: int| 0 <= index < upto && gear_unread(sheet, #[trigger] cell(index))
}

/// The sum of the gear ratios at more places is no less.
proof fn lemma_geared(sheet: Sheet, at: int, upto: int)
    requires
        0 <= at <= upto,
    ensures
        geared(sheet, at) <= geared(sheet, upto),
    decreases upto - at,
{
    if at < upto {
        lemma_geared(sheet, at, upto - 1);
    }
}

/// The marks and the sum when the number at a place has been looked at: a
/// number that has no mark yet is marked at its start and added.
pub open spec fn looked(sheet: Sheet, state: (Seq<Seq<bool>>, int), point: Point) -> (
    Seq<Seq<bool>>,
    int,
) {
    if glyph(sheet, point) matches Some(byte) && is_digit(byte) {
        let row = sheet[point.row as int];
        let first = number_start(row, point.col as int);
        if state.0[point.row as int][first] {
            state
        } else {
            (
                state.0.update(point.row as int, state.0[point.row as int].update(first, true)),
                state.1 + number_at(row, point.col as int),
            )
        }
    } else {
        state
    }
}

/// The marks and the sum when the first `upto` of the places around
/// `point` have been looked at.
pub open spec fn looked_around(
    sheet: Sheet,
    state: (Seq<Seq<bool>>, int),
    point: Point,
    upto: int,
) -> (Seq<Seq<bool>>, int)
    decreases upto,
{
    if upto <= 0 {
        state
    } else {
        looked(sheet, looked_around(sheet, state, point, upto - 1), point.around()[upto - 1])
    }
}

/// The marks and the sum when the first `upto` places have been passed:
/// around each symbol the numbers are looked at.
pub open spec fn parts(sheet: Sheet, marks: Seq<Seq<bool>>, upto: int) -> (Seq<Seq<bool>>, int)
    decreases upto,
{
    if upto <= 0 {
        (marks, 0)
    } else {
        let before = parts(sheet, marks, upto - 1);
        let point = cell(upto - 1);
        if glyph(sheet, point) matches Some(byte) && !is_digit(byte) && byte != 0x2e {
            looked_around(sheet, before, point, 8)
        } else {
            before
        }
    }
}

/// No place is marked.
pub open spec fn unmarked(sheet: Sheet) -> Seq<Seq<bool>> {
    Seq::new(sheet.len(), |row: int| Seq::new(sheet[row].len(), |col: int| false))
}

/// The sum of the numbers of the schematic of the text that stand next to
/// a symbol, over its first 140 rows and columns, each number once. `None`
/// where the sum is no number of the machine; it is none where one of the
/// numbers is none.
pub fn solve_part1(input: &str) -> (r: Option<usize>)
    ensures
        match r {
            Some(total) => total == parts(
                lines(input.spec_bytes()),
                unmarked(lines(input.spec_bytes())),
                19600,
            ).1,
            None => parts(lines(input.spec_bytes()), unmarked(lines(input.spec_bytes())), 19600).1
                > usize::MAX,
        },
{
    let mut schematic = Schematic::from(input);
    let ghost sheet = schematic.sheet();
    let ghost blank = unmarked(sheet);
    proof {
        assert(schematic.marks() =~= blank) by {
            assert forall|row: int| 0 <= row < sheet.len() implies (#[trigger] schematic.marks()[row])
                =~= blank[row] by {
                assert forall|col: int| 0 <= col < sheet[row].len() implies schematic.marks()[row][col]
                    == blank[row][col] by {
                    assert(!schematic.marks()[row][col]);
                }
            }
        }
    }
    let mut total: usize = 0;
    let mut row: usize = 0;
    while row < SIDE
        invariant
            row <= SIDE,
            schematic.wf(),
            schematic.sheet() == sheet,
            sheet == lines(input.spec_bytes()),
            blank == unmarked(sheet),
            (schematic.marks(), total as int) == parts(sheet, blank, row * 140),
        decreases SIDE - row,
    {
        let mut col: usize = 0;
        while col < SIDE
            invariant
                row < SIDE,
                col <= SIDE,
                schematic.wf(),
                schematic.sheet() == sheet,
                sheet == lines(input.spec_bytes()),
                blank == unmarked(sheet),
                (schematic.marks(), total as int) == parts(sheet, blank, row * 140 + col),
            decreases SIDE - col,
        {
            let point = Point::new(row as isize, col as isize);
            let ghost index = row * 140 + col;
            proof {
                assert(cell(row * 140 + col) == point) by {
                    assert((row * 140 + col) / 140 == row && (row * 140 + col) % 140 == col)
                        by (nonlinear_arith)
                        requires
                            0 <= col < 140,
                            0 <= row,
                    ;
                }
                lemma_parts(sheet, index);
                lemma_parts_grow(sheet, index + 1, 19600);
            }
            if schematic.is_symbol(point) {
                let around = point.neighbors();
                let ghost start = (schematic.marks(), total as int);
                let mut k: usize = 0;
                while k < around.len()
                    invariant
                        k <= 8,
                        around@ == point.around(),
                        around@.len() == 8,
                        schematic.wf(),
                        schematic.sheet() == sheet,
                        sheet == lines(input.spec_bytes()),
                        blank == unmarked(sheet),
                        counted(sheet, start),
                        looked_around(sheet, start, point, 8).1 <= parts(sheet, blank, 19600).1,
                        (schematic.marks(), total as int) == looked_around(
                            sheet,
                            start,
                            point,
                            k as int,
                        ),
                    decreases around@.len() - k,
                {
                    let neighbor = around[k];
                    let ghost held = schematic.marks();
                    proof {
                        lemma_looked_around(sheet, start, point, k as int);
                        lemma_looked(sheet, (held, total as int), neighbor);
                        lemma_looked_grow(sheet, start, point, k + 1, 8);
                    }
                    if schematic.is_digit(neighbor) {
                        match schematic.read_part_number(neighbor) {
                            Some((number, seen)) => {
                                if !seen {
                                    total = match total.checked_add(number) {
                                        Some(total) => total,
                                        None => {
                                            return None;
                                        },
                                    };
                                } else {
                                    proof {
                                        let line = sheet[neighbor.row as int];
                                        let first = number_start(line, neighbor.col as int);
                                        lemma_start(line, neighbor.col as int);
                                        assert(held[neighbor.row as int].len() == line.len());
                                        assert(held[neighbor.row as int].update(first, true)
                                            =~= held[neighbor.row as int]);
                                        assert(schematic.marks() =~= held);
                                    }
                                }
                            },
                            None => {
                                return None;
                            },
                        }
                    }
                    k = k + 1;
                }
            }
            col = col + 1;
        }
        row = row + 1;
    }
    Some(total)
}

/// The marks have the shape of the sheet, and each number that is marked at
/// its start is part of the sum, which is not below 0.
pub open spec fn counted(sheet: Sheet, state: (Seq<Seq<bool>>, int)) -> bool {
    &&& state.1 >= 0
    &&& state.0.len() == sheet.len()
    &&& forall|row: int| 0 <= row < sheet.len() ==> (#[trigger] state.0[row]).len() == sheet[row].len()
    &&& forall|row: int, col: int|
        0 <= row < sheet.len() && 0 <= col < sheet[row].len() && #[trigger] state.0[row][col]
            ==> number_at(sheet[row], col) <= state.1
}

/// A number that has been looked at is part of the sum, and no sum falls.
proof fn lemma_looked(sheet: Sheet, state: (Seq<Seq<bool>>, int), point: Point)
    requires
        counted(sheet, state),
    ensures
        counted(sheet, looked(sheet, state, point)),
        state.1 <= looked(sheet, state, point).1,
        glyph(sheet, point) matches Some(byte) && is_digit(byte) ==> number_at(
            sheet[point.row as int],
            point.col as int,
        ) <= looked(sheet, state, point).1,
{
    if glyph(sheet, point) matches Some(byte) && is_digit(byte) {
        let line = sheet[point.row as int];
        let at = point.col as int;
        let first = number_start(line, at);
        lemma_start(line, at);
        lemma_same_start(line, first, at);
        lemma_same_end(line, first, at);
        lemma_start(line, first);
        assert(number_at(line, first) == number_at(line, at));
        let after = looked(sheet, state, point);
        assert(state.0[point.row as int].len() == line.len());
        if !state.0[point.row as int][first] {
            assert forall|row: int, col: int|
                0 <= row < sheet.len() && 0 <= col < sheet[row].len()
                    && #[trigger] after.0[row][col] implies number_at(sheet[row], col)
                <= after.1 by {
                if !(row == point.row && col == first) {
                    assert(state.0[row][col]);
                }
            }
            assert forall|row: int| 0 <= row < sheet.len() implies (#[trigger] after.0[row]).len()
                == sheet[row].len() by {
                assert(state.0[row].len() == sheet[row].len());
            }
        }
    }
}

/// The numbers that have been looked at around a place are part of the
/// sum, and the sum has not fallen.
proof fn lemma_looked_around(sheet: Sheet, state: (Seq<Seq<bool>>, int), point: Point, upto: int)
    requires
        counted(sheet, state),
    ensures
        counted(sheet, looked_around(sheet, state, point, upto)),
        state.1 <= looked_around(sheet, state, point, upto).1,
    decreases upto,
{
    if upto > 0 {
        lemma_looked_around(sheet, state, point, upto - 1);
        lemma_looked(
            sheet,
            looked_around(sheet, state, point, upto - 1),
            point.around()[upto - 1],
        );
    }
}

/// The sum does not fall while more places around a place are looked at.
proof fn lemma_looked_grow(
    sheet: Sheet,
    state: (Seq<Seq<bool>>, int),
    point: Point,
    at: int,
    upto: int,
)
    requires
        counted(sheet, state),
        0 <= at <= upto,
    ensures
        looked_around(sheet, state, point, at).1 <= looked_around(sheet, state, point, upto).1,
    decreases upto - at,
{
    if at < upto {
        lemma_looked_grow(sheet, state, point, at, upto - 1);
        lemma_looked_around(sheet, state, point, upto - 1);
        lemma_looked(
            sheet,
            looked_around(sheet, state, point, upto - 1),
            point.around()[upto - 1],
        );
    }
}

/// Each number that is marked when the first places have been passed is
/// part of the sum.
proof fn lemma_parts(sheet: Sheet, upto: int)
    ensures
        counted(sheet, parts(sheet, unmarked(sheet), upto)),
    decreases upto,
{
    if upto > 0 {
        lemma_parts(sheet, upto - 1);
        lemma_looked_around(sheet, parts(sheet, unmarked(sheet), upto - 1), cell(upto - 1), 8);
    }
}

/// The sum does not fall while more places are passed.
proof fn lemma_parts_grow(sheet: Sheet, at: int, upto: int)
    requires
        0 <= at <= upto,
    ensures
        parts(sheet, unmarked(sheet), at).1 <= parts(sheet, unmarked(sheet), upto).1,
    decreases upto - at,
{
    if at < upto {
        lemma_parts_grow(sheet, at, upto - 1);
        lemma_parts(sheet, upto - 1);
        lemma_looked_around(sheet, parts(sheet, unmarked(sheet), upto - 1), cell(upto - 1), 8);
    }
}

} // verus!
