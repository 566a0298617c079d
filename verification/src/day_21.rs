//! The garden plots that an elf can reach in a number of steps.

use crate::text::{lines, read_grid, rectangle};
use std::collections::HashSet;
use vstd::prelude::*;
use vstd::slice::*;
use vstd::string::*;

verus! {

broadcast use vstd::std_specs::hash::group_hash_axioms;

/// The most rows and columns of a garden, and the most steps of a walk.
pub const LIMIT: usize = 0x2000_0000;

/// A way to step.
#[derive(Clone, Copy, Debug, PartialEq, Eq, Structural)]
pub enum Direction {
    Up,
    Down,
    Left,
    Right,
}

/// A place, in the garden or beyond it.
#[derive(Clone, Copy, Debug, PartialEq, Eq, Structural)]
pub struct Point {
    pub row: isize,
    pub col: isize,
}

impl Point {
    pub fn new(row: isize, col: isize) -> (r: Self)
        ensures
            r == (Point { row, col }),
    {
        Point { row, col }
    }

    /// The place one step on.
    pub open spec fn shifted(self, direction: Direction) -> (int, int) {
        match direction {
            Direction::Up => (self.row - 1, self.col as int),
            Direction::Down => (self.row + 1, self.col as int),
            Direction::Left => (self.row as int, self.col - 1),
            Direction::Right => (self.row as int, self.col + 1),
        }
    }

    /// The place one step on.
    pub fn shift(self, direction: Direction) -> (r: Self)
        requires
            isize::MIN < self.row < isize::MAX,
            isize::MIN < self.col < isize::MAX,
        ensures
            (r.row as int, r.col as int) == self.shifted(direction),
    {
        match direction {
            Direction::Up => Point::new(self.row - 1, self.col),
            Direction::Down => Point::new(self.row + 1, self.col),
            Direction::Left => Point::new(self.row, self.col - 1),
            Direction::Right => Point::new(self.row, self.col + 1),
        }
    }
}

/// What lies at a place of the garden.
#[derive(Clone, Copy, Debug, PartialEq, Eq, Structural)]
pub enum Space {
    Rock,
    Plot,
    Start,
}

impl Space {
    /// What a character of the plan stands for.
    pub open spec fn of(value: char) -> Option<Space> {
        if value == '.' {
            Some(Space::Plot)
        } else if value == '#' {
            Some(Space::Rock)
        } else if value == 'S' {
            Some(Space::Start)
        } else {
            None
        }
    }

    /// What a character of the plan stands for.
    pub fn from(value: char) -> (r: Self)
        requires
            Space::of(value) is Some,
        ensures
            Some(r) == Space::of(value),
    {
        if value == '.' {
            Space::Plot
        } else if value == '#' {
            Space::Rock
        } else {
            Space::Start
        }
    }
}

/// A garden, row by row, and the place where the elf starts.
pub struct Garden {
    spaces: Vec<Vec<Space>>,
    rows: usize,
    cols: usize,
    start: Point,
}

/// Two places lie next to each other.
pub open spec fn beside(a: Point, b: Point) -> bool {
    exists|direction: Direction| (b.row as int, b.col as int) == #[trigger] a.shifted(direction)
}

/// One number for a place near the garden.
pub open spec fn code(point: Point) -> u64 {
    ((point.row + 0x4000_0000) * 0x1_0000_0000 + (point.col + 0x4000_0000)) as u64
}

/// The place that has a number.
pub open spec fn decode(code: u64) -> Point {
    Point {
        row: (code / 0x1_0000_0000 - 0x4000_0000) as isize,
        col: (code % 0x1_0000_0000 - 0x4000_0000) as isize,
    }
}

/// The place is no further from the garden than a walk can lead.
pub open spec fn near(point: Point) -> bool {
    -0x4000_0000 < point.row < 0x4000_0000 && -0x4000_0000 < point.col < 0x4000_0000
}

proof fn lemma_code(point: Point)
    requires
        near(point),
    ensures
        decode(code(point)) == point,
{
}

/// The lines are the plan of a garden: there is a line, each line is as long
/// as the first, neither are there more than `LIMIT` of them nor is one
/// longer, every byte stands for a space, and one of them is the start.
pub open spec fn plan(text: Seq<Seq<u8>>) -> bool {
    &&& rectangle(text, LIMIT as nat)
    &&& forall|row: int, col: int|
        0 <= row < text.len() && 0 <= col < text[row].len() ==> Space::of(
            #[trigger] text[row][col] as char,
        ) is Some
    &&& exists|row: int, col: int|
        0 <= row < text.len() && 0 <= col < text[row].len() && #[trigger] text[row][col] == 0x53
}

impl Garden {
    /// How many rows the garden has.
    pub closed spec fn height(&self) -> int {
        self.rows as int
    }

    /// How many columns the garden has.
    pub closed spec fn width(&self) -> int {
        self.cols as int
    }

    /// Where the elf starts.
    pub closed spec fn origin(&self) -> Point {
        self.start
    }

    /// What lies at a place of the garden.
    pub closed spec fn space(&self, row: int, col: int) -> Space {
        self.spaces@[row]@[col]
    }

    /// The garden is in order: it has a place, is no larger than `LIMIT`
    /// each way, and the elf starts within it.
    pub closed spec fn wf(&self) -> bool {
        &&& 1 <= self.rows <= LIMIT
        &&& 1 <= self.cols <= LIMIT
        &&& self.spaces@.len() == self.rows
        &&& forall|row: int| 0 <= row < self.rows ==> (#[trigger] self.spaces@[row])@.len() == self.cols
        &&& 0 <= self.start.row < self.rows
        &&& 0 <= self.start.col < self.cols
    }

    /// The elf can stand at the place: a plot of the garden, or the start.
    /// Where `endless` holds, the garden goes on without end each way, one
    /// copy of it next to the other.
    pub open spec fn plot(&self, endless: bool, point: Point) -> bool {
        if endless {
            self.space(point.row as int % self.height(), point.col as int % self.width())
                != Space::Rock
        } else {
            0 <= point.row < self.height() && 0 <= point.col < self.width() && self.space(
                point.row as int,
                point.col as int,
            ) != Space::Rock
        }
    }

    /// The places at which the elf can stand after just `steps` steps.
    pub open spec fn reached(&self, endless: bool, steps: nat) -> Set<Point>
        decreases steps,
    {
        if steps == 0 {
            set![self.origin()]
        } else {
            Set::new(
                |point: Point|
                    self.plot(endless, point) && exists|from: Point|
                        #[trigger] self.reached(endless, (steps - 1) as nat).contains(from)
                            && beside(from, point),
            )
        }
    }

    /// Whether the elf can stand at the place.
    fn is_plot(&self, endless: bool, point: Point) -> (r: bool)
        requires
            self.wf(),
            near(point),
        ensures
            r == self.plot(endless, point),
    {
        if endless {
            let row = wrap(point.row, self.rows);
            let col = wrap(point.col, self.cols);
            !matches!(self.spaces[row][col], Space::Rock)
        } else {
            if point.row < 0 || point.col < 0 {
                return false;
            }
            let row = point.row as usize;
            let col = point.col as usize;
            if row >= self.rows || col >= self.cols {
                return false;
            }
            !matches!(self.spaces[row][col], Space::Rock)
        }
    }
}

/// What is left of `value` on division by `size`, taken from 0 up.
fn wrap(value: isize, size: usize) -> (r: usize)
    requires
        -0x4000_0000 < value < 0x4000_0000,
        1 <= size <= LIMIT,
    ensures
        r == value as int % size as int,
        r < size,
{
    let shifted = (value + 0x4000_0000) as usize;
    let a = shifted % size;
    let b = 0x4000_0000usize % size;
    let r = if a >= b {
        a - b
    } else {
        a + size - b
    };
    proof {
        let n = size as int;
        let qa = shifted as int / n;
        let qb = 0x4000_0000int / n;
        vstd::arithmetic::div_mod::lemma_fundamental_div_mod(shifted as int, n);
        vstd::arithmetic::div_mod::lemma_fundamental_div_mod(0x4000_0000int, n);
        let q = if a >= b {
            qa - qb
        } else {
            qa - qb - 1
        };
        assert(value as int == q * n + r) by (nonlinear_arith)
            requires
                shifted == n * qa + a,
                0x4000_0000int == n * qb + b,
                value == shifted - 0x4000_0000int,
                q == (if a >= b {
                    qa - qb
                } else {
                    qa - qb - 1
                }),
                r == (if a >= b {
                    a - b
                } else {
                    a + n - b
                }),
        ;
        vstd::arithmetic::div_mod::lemma_fundamental_div_mod_converse(value as int, n, q, r as int);
    }
    r
}

/// The place is within `steps` steps of `from`, rocks or none.
pub open spec fn within(from: Point, point: Point, steps: int) -> bool {
    &&& from.row - steps <= point.row <= from.row + steps
    &&& from.col - steps <= point.col <= from.col + steps
}

fn key(point: Point) -> (r: u64)
    requires
        near(point),
    ensures
        r == code(point),
{
    ((point.row + 0x4000_0000) as u64) * 0x1_0000_0000 + (point.col + 0x4000_0000) as u64
}

impl Garden {
    /// The places found so far for the next layer are in order: each is
    /// found once, is one of the layer, and has its number among the numbers
    /// seen, which are the numbers of the places found.
    pub closed spec fn gathering(
        &self,
        endless: bool,
        steps: nat,
        found: Seq<Point>,
        seen: Set<u64>,
    ) -> bool {
        &&& found.no_duplicates()
        &&& forall|k: int|
            0 <= k < found.len() ==> self.reached(endless, steps).contains(#[trigger] found[k])
                && within(self.origin(), found[k], steps as int) && seen.contains(code(found[k]))
        &&& forall|number: u64| #[trigger]
            seen.contains(number) ==> exists|k: int|
                0 <= k < found.len() && code(#[trigger] found[k]) == number
    }

    /// Takes the place into the next layer, if the elf can stand there and
    /// it has not been found before.
    fn gather(
        &self,
        endless: bool,
        Ghost(steps): Ghost<nat>,
        Ghost(from): Ghost<Point>,
        point: Point,
        found: &mut Vec<Point>,
        seen: &mut HashSet<u64>,
    )
        requires
            self.wf(),
            1 <= steps <= LIMIT,
            self.reached(endless, (steps - 1) as nat).contains(from),
            within(self.origin(), from, steps - 1),
            beside(from, point),
            self.gathering(endless, steps, old(found)@, old(seen)@),
        ensures
            self.gathering(endless, steps, final(found)@, final(seen)@),
            forall|other: Point| old(found)@.contains(other) ==> final(found)@.contains(other),
            self.plot(endless, point) ==> final(found)@.contains(point),
    {
        proof {
            assert(within(self.origin(), point, steps as int));
        }
        if !self.is_plot(endless, point) {
            return ;
        }
        let number = key(point);
        let ghost before = found@;
        let ghost marks = seen@;
        if seen.contains(&number) {
            proof {
                let k = choose|k: int| 0 <= k < before.len() && code(#[trigger] before[k]) == number;
                lemma_code(point);
                lemma_code(before[k]);
            }
            return ;
        }
        seen.insert(number);
        found.push(point);
        proof {
            assert(self.reached(endless, steps).contains(point));
            assert forall|i: int, j: int|
                0 <= i < found@.len() && 0 <= j < found@.len() && i != j implies found@[i]
                != found@[j] by {
                if i < before.len() && j < before.len() {
                    assert(found@[i] == before[i]);
                    assert(found@[j] == before[j]);
                } else if i < before.len() {
                    assert(found@[i] == before[i]);
                    assert(marks.contains(code(before[i])));
                } else if j < before.len() {
                    assert(found@[j] == before[j]);
                    assert(marks.contains(code(before[j])));
                }
            }
            assert forall|k: int| 0 <= k < found@.len() implies self.reached(
                endless,
                steps,
            ).contains(#[trigger] found@[k]) && within(self.origin(), found@[k], steps as int)
                && seen@.contains(code(found@[k])) by {
                if k < before.len() {
                    assert(found@[k] == before[k]);
                }
            }
            assert forall|n: u64| #[trigger] seen@.contains(n) implies exists|k: int|
                0 <= k < found@.len() && code(#[trigger] found@[k]) == n by {
                if n == number {
                    assert(code(found@[before.len() as int]) == n);
                } else {
                    let k = choose|k: int| 0 <= k < before.len() && code(#[trigger] before[k]) == n;
                    assert(found@[k] == before[k]);
                }
            }
            assert forall|other: Point| before.contains(other) implies found@.contains(other) by {
                let k = choose|k: int| 0 <= k < before.len() && before[k] == other;
                assert(found@[k] == other);
            }
            assert(found@[before.len() as int] == point);
        }
    }

    /// At how many places the elf can stand after just `steps` steps.
    pub fn available_spaces_internal(&self, steps: usize, endless: bool) -> (r: usize)
        requires
            self.wf(),
            steps <= LIMIT,
        ensures
            r == self.reached(endless, steps as nat).len(),
    {
        let mut plots: Vec<Point> = Vec::new();
        plots.push(self.start);
        let mut done: usize = 0;
        proof {
            assert(plots@.to_set() =~= self.reached(endless, 0)) by {
                assert(plots@[0] == self.origin());
                assert forall|point: Point| plots@.to_set().contains(point) implies point
                    == self.origin() by {
                    let k = choose|k: int| 0 <= k < plots@.len() && plots@[k] == point;
                }
            }
        }
        while done < steps
            invariant
                self.wf(),
                done <= steps <= LIMIT,
                plots@.no_duplicates(),
                plots@.to_set() == self.reached(endless, done as nat),
                forall|k: int|
                    0 <= k < plots@.len() ==> within(self.origin(), #[trigger] plots@[k], done as int),
            decreases steps - done,
        {
            let mut new_plots: Vec<Point> = Vec::new();
            let mut seen: HashSet<u64> = HashSet::new();
            let ghost layer = (done + 1) as nat;
            let mut i: usize = 0;
            while i < plots.len()
                invariant
                    self.wf(),
                    done < steps <= LIMIT,
                    layer == done + 1,
                    i <= plots@.len(),
                    plots@.to_set() == self.reached(endless, done as nat),
                    forall|k: int|
                        0 <= k < plots@.len() ==> within(
                            self.origin(),
                            #[trigger] plots@[k],
                            done as int,
                        ),
                    self.gathering(endless, layer, new_plots@, seen@),
                    forall|k: int, point: Point|
                        0 <= k < i && #[trigger] beside(plots@[k], point) && self.plot(
                            endless,
                            point,
                        ) ==> new_plots@.contains(point),
                decreases plots@.len() - i,
            {
                let position = plots[i];
                let ghost before = new_plots@;
                proof {
                    assert(plots@.to_set().contains(position));
                    assert(within(self.origin(), plots@[i as int], done as int));
                }
                let up = position.shift(Direction::Up);
                let down = position.shift(Direction::Down);
                let left = position.shift(Direction::Left);
                let right = position.shift(Direction::Right);
                proof {
                    assert(up.row == position.shifted(Direction::Up).0);
                    assert(down.row == position.shifted(Direction::Down).0);
                    assert(left.col == position.shifted(Direction::Left).1);
                    assert(right.col == position.shifted(Direction::Right).1);
                }
                self.gather(endless, Ghost(layer), Ghost(position), up, &mut new_plots, &mut seen);
                self.gather(endless, Ghost(layer), Ghost(position), down, &mut new_plots, &mut seen);
                self.gather(endless, Ghost(layer), Ghost(position), left, &mut new_plots, &mut seen);
                self.gather(endless, Ghost(layer), Ghost(position), right, &mut new_plots, &mut seen);
                proof {
                    assert forall|k: int, point: Point|
                        0 <= k < i + 1 && #[trigger] beside(plots@[k], point) && self.plot(
                            endless,
                            point,
                        ) implies new_plots@.contains(point) by {
                        if k == i {
                            let direction = choose|direction: Direction|
                                (point.row as int, point.col as int) == #[trigger] position.shifted(
                                    direction,
                                );
                            match direction {
                                Direction::Up => {
                                    assert(point == up);
                                },
                                Direction::Down => {
                                    assert(point == down);
                                },
                                Direction::Left => {
                                    assert(point == left);
                                },
                                Direction::Right => {
                                    assert(point == right);
                                },
                            }
                        } else {
                            assert(before.contains(point));
                        }
                    }
                }
                i = i + 1;
            }
            proof {
                self.lemma_gathered(endless, layer, plots@, new_plots@, seen@);
            }
            plots = new_plots;
            done = done + 1;
        }
        proof {
            plots@.unique_seq_to_set();
        }
        plots.len()
    }

    /// Once every place of a layer has been looked at, the places found are
    /// the next layer.
    proof fn lemma_gathered(
        &self,
        endless: bool,
        layer: nat,
        plots: Seq<Point>,
        found: Seq<Point>,
        seen: Set<u64>,
    )
        requires
            layer >= 1,
            plots.to_set() == self.reached(endless, (layer - 1) as nat),
            self.gathering(endless, layer, found, seen),
            forall|k: int, point: Point|
                0 <= k < plots.len() && #[trigger] beside(plots[k], point) && self.plot(
                    endless,
                    point,
                ) ==> found.contains(point),
        ensures
            found.no_duplicates(),
            found.to_set() == self.reached(endless, layer),
            forall|k: int|
                0 <= k < found.len() ==> within(self.origin(), #[trigger] found[k], layer as int),
    {
        assert(found.to_set() =~= self.reached(endless, layer)) by {
            assert forall|point: Point| self.reached(endless, layer).contains(
                point,
            ) implies found.to_set().contains(point) by {
                let from = choose|from: Point|
                    #[trigger] self.reached(endless, (layer - 1) as nat).contains(from) && beside(
                        from,
                        point,
                    );
                assert(plots.to_set().contains(from));
                let k = choose|k: int| 0 <= k < plots.len() && plots[k] == from;
                assert(beside(plots[k], point));
            }
            assert forall|point: Point| found.to_set().contains(point) implies self.reached(
                endless,
                layer,
            ).contains(point) by {
                let k = choose|k: int| 0 <= k < found.len() && found[k] == point;
                assert(self.reached(endless, layer).contains(found[k]));
            }
        }
    }

    /// At how many plots of the garden the elf can stand after just `steps`
    /// steps.
    pub fn available_spaces_part1(&self, steps: usize) -> (r: usize)
        requires
            self.wf(),
            steps <= LIMIT,
        ensures
            r == self.reached(false, steps as nat).len(),
    {
        self.available_spaces_internal(steps, false)
    }

    /// At how many plots the elf can stand after just `steps` steps in a
    /// garden that goes on without end.
    pub fn available_spaces_part2(&self, steps: usize) -> (r: usize)
        requires
            self.wf(),
            steps <= LIMIT,
        ensures
            r == self.reached(true, steps as nat).len(),
    {
        self.available_spaces_internal(steps, true)
    }

    /// The garden is the one that the lines draw: a row for each line and a
    /// space for each byte, and the elf starts at the last `S`.
    pub open spec fn drawn(&self, text: Seq<Seq<u8>>) -> bool {
        &&& self.height() == text.len()
        &&& self.width() == text[0].len()
        &&& forall|row: int, col: int|
            0 <= row < text.len() && 0 <= col < text[row].len() ==> Space::of(
                text[row][col] as char,
            ) == Some(#[trigger] self.space(row, col))
        &&& 0 <= self.origin().row < text.len()
        &&& 0 <= self.origin().col < text[0].len()
        &&& text[self.origin().row as int][self.origin().col as int] == 0x53
        &&& forall|row: int, col: int|
            0 <= row < text.len() && 0 <= col < text[row].len() && (row > self.origin().row || (row
                == self.origin().row && col > self.origin().col)) ==> #[trigger] text[row][col]
                != 0x53
    }

    /// Reads a garden: a line for each row; a dot is a plot, a hash sign a
    /// rock, and `S` the start. `None` where the lines are no plan of a
    /// garden.
    pub fn from(value: &str) -> (r: Option<Self>)
        ensures
            match r {
                Some(garden) => garden.wf() && plan(lines(value.spec_bytes())) && garden.drawn(
                    lines(value.spec_bytes()),
                ),
                None => !plan(lines(value.spec_bytes())),
            },
    {
        let read = |byte: u8| -> (space: Option<Space>)
            ensures
                space == Space::of(byte as char),
            {
                if byte == 0x2e {
                    Some(Space::Plot)
                } else if byte == 0x23 {
                    Some(Space::Rock)
                } else if byte == 0x53 {
                    Some(Space::Start)
                } else {
                    None
                }
            };
        let ghost text = lines(value.spec_bytes());
        let spaces = match read_grid(value.as_bytes(), read) {
            Some(spaces) => spaces,
            None => {
                return None;
            },
        };
        proof {
            assert forall|row: int, col: int|
                0 <= row < text.len() && 0 <= col < text[row].len() implies Space::of(
                #[trigger] text[row][col] as char,
            ) == Some(spaces@[row]@[col]) by {
                assert(spaces@[row]@.len() == text[row].len());
                assert(read.ensures((text[row][col],), Some(spaces@[row]@[col])));
            }
            if text.len() >= 1 {
                assert(spaces@[0]@.len() == text[0].len());
            }
        }
        let rows = spaces.len();
        if rows < 1 || rows > LIMIT {
            return None;
        }
        let cols = spaces[0].len();
        if cols < 1 || cols > LIMIT {
            return None;
        }
        let mut start: Option<(usize, usize)> = None;
        let mut k: usize = 0;
        while k < rows
            invariant
                k <= rows,
                rows == spaces@.len(),
                rows == text.len(),
                text == lines(value.spec_bytes()),
                cols == spaces@[0]@.len(),
                cols == text[0].len(),
                forall|row: int|
                    0 <= row < rows ==> (#[trigger] spaces@[row])@.len() == text[row].len(),
                forall|row: int, col: int|
                    0 <= row < text.len() && 0 <= col < text[row].len() ==> Space::of(
                        #[trigger] text[row][col] as char,
                    ) == Some(spaces@[row]@[col]),
                forall|j: int| 0 <= j < k ==> (#[trigger] spaces@[j])@.len() == cols,
                match start {
                    Some(at) => at.0 < k && at.1 < cols && text[at.0 as int][at.1 as int] == 0x53
                        && forall|row: int, col: int|
                        0 <= row < k && 0 <= col < text[row].len() && (row > at.0 || (row == at.0
                            && col > at.1)) ==> #[trigger] text[row][col] != 0x53,
                    None => forall|row: int, col: int|
                        0 <= row < k && 0 <= col < text[row].len() ==> #[trigger] text[row][col]
                            != 0x53,
                },
            decreases rows - k,
        {
            if spaces[k].len() != cols {
                proof {
                    assert(text[k as int].len() != text[0].len());
                }
                return None;
            }
            let mut c: usize = 0;
            while c < cols
                invariant
                    c <= cols,
                    k < rows,
                    rows == spaces@.len(),
                    rows == text.len(),
                    spaces@[k as int]@.len() == cols,
                    text[k as int].len() == cols,
                    forall|row: int, col: int|
                        0 <= row < text.len() && 0 <= col < text[row].len() ==> Space::of(
                            #[trigger] text[row][col] as char,
                        ) == Some(spaces@[row]@[col]),
                    match start {
                        Some(at) => at.0 <= k && at.1 < cols && text[at.0 as int][at.1 as int]
                            == 0x53 && (at.0 == k ==> at.1 < c) && forall|row: int, col: int|
                            0 <= row <= k && 0 <= col < text[row].len() && (row < k || col < c)
                                && (row > at.0 || (row == at.0 && col > at.1))
                                ==> #[trigger] text[row][col] != 0x53,
                        None => forall|row: int, col: int|
                            0 <= row <= k && 0 <= col < text[row].len() && (row < k || col < c)
                                ==> #[trigger] text[row][col] != 0x53,
                    },
                decreases cols - c,
            {
                proof {
                    assert(Space::of(text[k as int][c as int] as char) == Some(
                        spaces@[k as int]@[c as int],
                    ));
                }
                match spaces[k][c] {
                    Space::Start => {
                        start = Some((k, c));
                    },
                    _ => {},
                }
                c = c + 1;
            }
            k = k + 1;
        }
        proof {
            assert forall|row: int| 0 <= row < text.len() implies (#[trigger] text[row]).len()
                == text[0].len() by {
                assert(spaces@[row]@.len() == text[row].len());
            }
        }
        match start {
            Some((at_row, at_col)) => {
                let garden = Garden {
                    spaces,
                    rows,
                    cols,
                    start: Point::new(at_row as isize, at_col as isize),
                };
                proof {
                    assert(text[at_row as int][at_col as int] == 0x53);
                }
                Some(garden)
            },
            None => None,
        }
    }
}

/// How many plots the elf can stand on after 64 steps in the garden of the
/// text. `None` where the lines are no plan of a garden.
pub fn solve_part1(input: &str) -> (r: Option<usize>)
    ensures
        match r {
            Some(count) => exists|garden: Garden|
                garden.wf() && #[trigger] garden.drawn(lines(input.spec_bytes())) && count
                    == garden.reached(false, 64).len(),
            None => !plan(lines(input.spec_bytes())),
        },
{
    match Garden::from(input) {
        Some(garden) => Some(garden.available_spaces_part1(64)),
        None => None,
    }
}

/// The number is one of the machine.
pub open spec fn counted(value: int) -> bool {
    0 <= value <= usize::MAX
}

/// The value at `x` of the curve of the second degree that has the values
/// `y0`, `y1` and `y2` at 0, 1 and 2, with halves dropped. `None` where a
/// step of the reckoning leaves the numbers of the machine.
pub open spec fn curve(y0: int, y1: int, y2: int, x: int) -> Option<int> {
    let a = (y2 - 2 * y1 + y0) / 2;
    let b = y1 - y0 - a;
    if counted(2 * y1) && counted(y2 - 2 * y1) && counted(y2 - 2 * y1 + y0) && counted(y1 - y0)
        && counted(b) && counted(a * x) && counted(a * x * x) && counted(b * x) && counted(
        a * x * x + b * x,
    ) && counted(a * x * x + b * x + y0) {
        Some(a * x * x + b * x + y0)
    } else {
        None
    }
}

/// The value at `x` of the curve through three values.
pub fn extrapolate(y0: usize, y1: usize, y2: usize, x: usize) -> (r: Option<usize>)
    ensures
        match r {
            Some(value) => curve(y0 as int, y1 as int, y2 as int, x as int) == Some(value as int),
            None => curve(y0 as int, y1 as int, y2 as int, x as int) is None,
        },
{
    let twice = match 2usize.checked_mul(y1) {
        Some(twice) => twice,
        None => {
            return None;
        },
    };
    let bend = match y2.checked_sub(twice) {
        Some(bend) => bend,
        None => {
            return None;
        },
    };
    let bend = match bend.checked_add(y0) {
        Some(bend) => bend,
        None => {
            return None;
        },
    };
    let a = bend / 2;
    let rise = match y1.checked_sub(y0) {
        Some(rise) => rise,
        None => {
            return None;
        },
    };
    let b = match rise.checked_sub(a) {
        Some(b) => b,
        None => {
            return None;
        },
    };
    let ax = match a.checked_mul(x) {
        Some(ax) => ax,
        None => {
            return None;
        },
    };
    let axx = match ax.checked_mul(x) {
        Some(axx) => axx,
        None => {
            return None;
        },
    };
    let bx = match b.checked_mul(x) {
        Some(bx) => bx,
        None => {
            return None;
        },
    };
    let sum = match axx.checked_add(bx) {
        Some(sum) => sum,
        None => {
            return None;
        },
    };
    sum.checked_add(y0)
}

/// How many plots the elf can stand on after 26501365 steps in the garden
/// of the text, which goes on without end: the value at 202300 of the curve
/// through the numbers of plots after 65, 196 and 327 steps. `None` where the
/// lines are no plan of a garden, or where the reckoning leaves the numbers
/// of the machine.
pub fn solve_part2(input: &str) -> (r: Option<usize>)
    ensures
        !plan(lines(input.spec_bytes())) ==> r is None,
        plan(lines(input.spec_bytes())) ==> exists|garden: Garden|
            garden.wf() && #[trigger] garden.drawn(lines(input.spec_bytes())) && match curve(
                garden.reached(true, 65).len() as int,
                garden.reached(true, 196).len() as int,
                garden.reached(true, 327).len() as int,
                202_300,
            ) {
                Some(value) => r == Some(value as usize),
                None => r is None,
            },
{
    let garden = match Garden::from(input) {
        Some(garden) => garden,
        None => {
            return None;
        },
    };
    let y0 = garden.available_spaces_part2(65);
    let y1 = garden.available_spaces_part2(196);
    let y2 = garden.available_spaces_part2(327);
    extrapolate(y0, y1, y2, 202_300)
}

} // verus!
