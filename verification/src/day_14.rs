//! A platform of rocks that is tilted this way and that.

use crate::text::read_grid;
use vstd::prelude::*;
use vstd::slice::*;
use vstd::string::*;

verus! {

/// What lies at a place of the platform: nothing, a rounded rock that rolls,
/// or a cube-shaped rock that stays.
#[derive(Clone, Copy, Debug, PartialEq, Eq, Hash, Structural)]
pub enum Space {
    Empty,
    Rounded,
    Cube,
}

impl Space {
    /// The character that stands for the space.
    pub fn to_char(self) -> (r: char)
        ensures
            Space::of(r) == Some(self),
    {
        match self {
            Space::Empty => '.',
            Space::Rounded => 'O',
            Space::Cube => '#',
        }
    }

    /// The space that a character stands for.
    pub open spec fn of(value: char) -> Option<Space> {
        if value == '.' {
            Some(Space::Empty)
        } else if value == 'O' {
            Some(Space::Rounded)
        } else if value == '#' {
            Some(Space::Cube)
        } else {
            None
        }
    }

    /// The space that a character stands for.
    pub fn from(value: char) -> (r: Self)
        requires
            Space::of(value) is Some,
        ensures
            Some(r) == Space::of(value),
    {
        if value == '.' {
            Space::Empty
        } else if value == 'O' {
            Space::Rounded
        } else {
            Space::Cube
        }
    }
}

/// A platform, row by row.
pub struct Platform {
    pub map: Vec<Vec<Space>>,
}

/// The spaces, row by row.
pub type Field = Seq<Seq<Space>>;

/// The field has a place, and rows of one length.
pub open spec fn even(field: Field) -> bool {
    &&& 1 <= field.len()
    &&& 1 <= field[0].len()
    &&& forall|row: int| 0 <= row < field.len() ==> (#[trigger] field[row]).len() == field[0].len()
}

/// The lines are the plan of a platform: there is a line, it is not empty,
/// each line is as long as the first, and every byte stands for a space.
pub open spec fn plan(text: Seq<Seq<u8>>) -> bool {
    &&& 1 <= text.len()
    &&& 1 <= text[0].len()
    &&& forall|row: int| 0 <= row < text.len() ==> (#[trigger] text[row]).len() == text[0].len()
    &&& forall|row: int, col: int|
        0 <= row < text.len() && 0 <= col < text[row].len() ==> Space::of(
            #[trigger] text[row][col] as char,
        ) is Some
}

/// How many lines the field has in the direction of a tilt: columns for a
/// tilt up or down, rows, where `across` holds, for one to the left or right.
pub open spec fn lines(field: Field, across: bool) -> int {
    if across {
        field.len() as int
    } else {
        field[0].len() as int
    }
}

/// How long the lines are.
pub open spec fn span(field: Field, across: bool) -> int {
    lines(field, !across)
}

/// The row and the column of the place `at` of the line `line`. The places
/// of a line are counted from the end to which the rocks roll: from the far
/// end of the row or column where `far` holds.
pub open spec fn place(field: Field, across: bool, far: bool, line: int, at: int) -> (int, int) {
    let along = if far {
        span(field, across) - 1 - at
    } else {
        at
    };
    if across {
        (line, along)
    } else {
        (along, line)
    }
}

/// What lies at the place `at` of the line `line`.
#[verifier::opaque]
pub open spec fn cell(field: Field, across: bool, far: bool, line: int, at: int) -> Space {
    let (row, col) = place(field, across, far, line, at);
    field[row][col]
}

/// The place to which a rock at the place `at` of its line rolls: the
/// nearest to the end of the line with nothing but empty places from there to
/// the rock.
pub open spec fn landing(field: Field, across: bool, far: bool, line: int, at: int) -> int
    decreases at,
{
    if at <= 0 || cell(field, across, far, line, at - 1) != Space::Empty {
        at
    } else {
        landing(field, across, far, line, at - 1)
    }
}

/// The field with `space` at a place.
pub open spec fn with(field: Field, row: int, col: int, space: Space) -> Field {
    field.update(row, field[row].update(col, space))
}

/// The field after the rock at the place `at` of its line has rolled.
pub open spec fn rolled(field: Field, across: bool, far: bool, line: int, at: int) -> Field {
    let to = landing(field, across, far, line, at);
    if to == at {
        field
    } else {
        let (row, col) = place(field, across, far, line, at);
        let (to_row, to_col) = place(field, across, far, line, to);
        with(with(field, to_row, to_col, Space::Rounded), row, col, Space::Empty)
    }
}

/// How many rounded rocks lie at the first `upto` places of a line.
pub open spec fn rocks(field: Field, across: bool, far: bool, line: int, upto: int) -> nat
    decreases upto,
{
    if upto <= 0 {
        0
    } else {
        rocks(field, across, far, line, upto - 1) + if cell(field, across, far, line, upto - 1)
            == Space::Rounded {
            1nat
        } else {
            0nat
        }
    }
}

/// The cubes lie in `now` where they lay in `before`.
#[verifier::opaque]
pub open spec fn same_cubes(before: Field, now: Field, across: bool, far: bool) -> bool {
    forall|line: int, at: int|
        0 <= line < lines(before, across) && 0 <= at < span(before, across) ==> (#[trigger] cell(
            now,
            across,
            far,
            line,
            at,
        ) == Space::Cube) == (cell(before, across, far, line, at) == Space::Cube)
}

/// Between two cubes of a line, and between a cube and an end, lie as many
/// rounded rocks in `now` as in `before`: as many lie before each cube, and
/// on the whole line.
#[verifier::opaque]
pub open spec fn same_rocks(before: Field, now: Field, across: bool, far: bool) -> bool {
    forall|line: int, at: int|
        0 <= line < lines(before, across) && 0 <= at <= span(before, across) && (at == span(
            before,
            across,
        ) || cell(before, across, far, line, at) == Space::Cube) ==> #[trigger] rocks(
            now,
            across,
            far,
            line,
            at,
        ) == rocks(before, across, far, line, at)
}

/// A rounded rock at the place `at` of the line `line` has no empty place
/// next to it on the side to which the rocks roll.
pub open spec fn rests(now: Field, across: bool, far: bool, line: int, at: int) -> bool {
    at >= 1 && cell(now, across, far, line, at) == Space::Rounded ==> cell(
        now,
        across,
        far,
        line,
        at - 1,
    ) != Space::Empty
}

/// Every rounded rock up to the place `at` of the line `line`, in the order
/// in which the rocks roll, rests.
#[verifier::opaque]
pub open spec fn settled(now: Field, across: bool, far: bool, at: int, line: int) -> bool {
    forall|l: int, k: int|
        0 <= l < lines(now, across) && 0 <= k < span(now, across) && (k < at || (k == at && l
            < line)) ==> #[trigger] rests(now, across, far, l, k)
}

/// `after` is `before` tilted: the cubes lie where they lay, between two
/// cubes of a line, and between a cube and an end, lie as many rounded rocks
/// as before, and no rounded rock has an empty place next to it on the side
/// to which the rocks roll.
pub open spec fn tilted(before: Field, after: Field, across: bool, far: bool) -> bool {
    tilting(before, after, across, far, span(before, across), 0)
}

/// As far as the place `at` of the line `line`, and the place before it of
/// the lines after that one, `now` is `before` tilted.
pub open spec fn tilting(
    before: Field,
    now: Field,
    across: bool,
    far: bool,
    at: int,
    line: int,
) -> bool {
    &&& even(now)
    &&& now.len() == before.len()
    &&& now[0].len() == before[0].len()
    &&& same_cubes(before, now, across, far)
    &&& same_rocks(before, now, across, far)
    &&& settled(now, across, far, at, line)
}

impl Platform {
    /// The platform is in order: it has a place, and rows of one length.
    pub open spec fn wf(&self) -> bool {
        even(self.field())
    }

    /// The spaces of the platform.
    pub open spec fn field(&self) -> Field {
        Seq::new(self.map@.len(), |row: int| self.map@[row]@)
    }

    /// What lies at a place.
    pub fn get(&self, row: usize, col: usize) -> (r: Space)
        requires
            row < self.field().len(),
            col < self.field()[row as int].len(),
        ensures
            r == self.field()[row as int][col as int],
    {
        self.map[row][col]
    }

    /// Puts `space` at a place.
    fn put(&mut self, row: usize, col: usize, space: Space)
        requires
            row < old(self).field().len(),
            col < old(self).field()[row as int].len(),
        ensures
            final(self).field() == with(old(self).field(), row as int, col as int, space),
    {
        self.map[row][col] = space;
        proof {
            assert(self.field() =~= with(old(self).field(), row as int, col as int, space));
        }
    }

    /// The row and the column of the place `at` of the line `line`.
    fn locate(&self, across: bool, far: bool, line: usize, at: usize) -> (r: (usize, usize))
        requires
            self.wf(),
            line < lines(self.field(), across),
            at < span(self.field(), across),
        ensures
            (r.0 as int, r.1 as int) == place(self.field(), across, far, line as int, at as int),
            r.0 < self.field().len(),
            r.1 < self.field()[0].len(),
    {
        let length = if across {
            self.map[0].len()
        } else {
            self.map.len()
        };
        let along = if far {
            length - 1 - at
        } else {
            at
        };
        if across {
            (line, along)
        } else {
            (along, line)
        }
    }

    /// Lets the rock at the place `at` of the line `line` roll.
    fn shift(&mut self, across: bool, far: bool, line: usize, at: usize)
        requires
            old(self).wf(),
            line < lines(old(self).field(), across),
            at < span(old(self).field(), across),
            cell(old(self).field(), across, far, line as int, at as int) == Space::Rounded,
        ensures
            final(self).field() == rolled(old(self).field(), across, far, line as int, at as int),
            final(self).wf(),
    {
        let ghost field = self.field();
        let mut current = at;
        proof {
            reveal(cell);
        }
        while current > 0
            invariant
                self.wf(),
                self.field() == field,
                line < lines(field, across),
                current <= at < span(field, across),
                landing(field, across, far, line as int, current as int) == landing(
                    field,
                    across,
                    far,
                    line as int,
                    at as int,
                ),
            ensures
                current <= at,
                self.field() == field,
                landing(field, across, far, line as int, at as int) == current,
            decreases current,
        {
            let (row, col) = self.locate(across, far, line, current - 1);
            assert(self.map@[row as int]@ == field[row as int]);
            proof {
                reveal(cell);
            }
            match self.get(row, col) {
                Space::Cube | Space::Rounded => {
                    proof {
                        assert(cell(field, across, far, line as int, current - 1) != Space::Empty);
                    }
                    break ;
                },
                Space::Empty => {
                    current = current - 1;
                },
            }
        }
        if current != at {
            let (to_row, to_col) = self.locate(across, far, line, current);
            let (row, col) = self.locate(across, far, line, at);
            self.put(to_row, to_col, Space::Rounded);
            self.put(row, col, Space::Empty);
        }
        proof {
            let after = self.field();
            assert(after.len() == field.len());
            assert forall|r: int| 0 <= r < after.len() implies (#[trigger] after[r]).len()
                == after[0].len() by {
                assert(field[r].len() == field[0].len());
            }
        }
    }
}

/// Where a rock lands: at or before its place, past none but empty places,
/// and next to the end of the line or to a place that is not empty.
proof fn lemma_landing(field: Field, across: bool, far: bool, line: int, at: int)
    requires
        0 <= at,
    ensures
        0 <= landing(field, across, far, line, at) <= at,
        forall|k: int|
            landing(field, across, far, line, at) <= k < at ==> #[trigger] cell(
                field,
                across,
                far,
                line,
                k,
            ) == Space::Empty,
        landing(field, across, far, line, at) == 0 || cell(
            field,
            across,
            far,
            line,
            landing(field, across, far, line, at) - 1,
        ) != Space::Empty,
    decreases at,
{
    if !(at <= 0 || cell(field, across, far, line, at - 1) != Space::Empty) {
        lemma_landing(field, across, far, line, at - 1);
    }
}

/// What lies at the places of a field after a rock has rolled: nothing where
/// the rock lay, the rock where it has landed, and all else as before.
proof fn lemma_rolled(field: Field, across: bool, far: bool, line: int, at: int)
    requires
        even(field),
        0 <= line < lines(field, across),
        0 <= at < span(field, across),
        cell(field, across, far, line, at) == Space::Rounded,
    ensures
        even(rolled(field, across, far, line, at)),
        rolled(field, across, far, line, at).len() == field.len(),
        rolled(field, across, far, line, at)[0].len() == field[0].len(),
        forall|l: int, k: int|
            0 <= l < lines(field, across) && 0 <= k < span(field, across) ==> #[trigger] cell(
                rolled(field, across, far, line, at),
                across,
                far,
                l,
                k,
            ) == if l == line && k == landing(field, across, far, line, at) {
                Space::Rounded
            } else if l == line && k == at {
                Space::Empty
            } else {
                cell(field, across, far, l, k)
            },
{
    reveal(cell);
    let to = landing(field, across, far, line, at);
    let after = rolled(field, across, far, line, at);
    lemma_landing(field, across, far, line, at);
    let (row, col) = place(field, across, far, line, at);
    let (to_row, to_col) = place(field, across, far, line, to);
    assert(field[row].len() == field[0].len());
    assert(field[to_row].len() == field[0].len());
    assert forall|r: int| 0 <= r < after.len() implies (#[trigger] after[r]).len()
        == after[0].len() by {
        assert(field[r].len() == field[0].len());
    }
    assert forall|l: int, k: int|
        0 <= l < lines(field, across) && 0 <= k < span(field, across) implies #[trigger] cell(
        after,
        across,
        far,
        l,
        k,
    ) == if l == line && k == to {
        Space::Rounded
    } else if l == line && k == at {
        Space::Empty
    } else {
        cell(field, across, far, l, k)
    } by {
        let (r, c) = place(field, across, far, l, k);
        assert(place(after, across, far, l, k) == (r, c));
        assert(field[r].len() == field[0].len());
    }
}

/// How the count of rocks changes where one place of a line changes.
proof fn lemma_rocks(
    before: Field,
    after: Field,
    across: bool,
    far: bool,
    line: int,
    upto: int,
    low: int,
    high: int,
)
    requires
        0 <= low < high,
        forall|k: int|
            0 <= k < upto && k != low && k != high ==> #[trigger] cell(after, across, far, line, k)
                == cell(before, across, far, line, k),
        cell(before, across, far, line, low) != Space::Rounded,
        cell(after, across, far, line, low) == Space::Rounded,
        cell(before, across, far, line, high) == Space::Rounded,
        cell(after, across, far, line, high) != Space::Rounded,
    ensures
        rocks(after, across, far, line, upto) == rocks(before, across, far, line, upto) + if low
            < upto <= high {
            1int
        } else {
            0int
        },
    decreases upto,
{
    if upto > 0 {
        lemma_rocks(before, after, across, far, line, upto - 1, low, high);
    }
}

/// The count of rocks of a line on which nothing changes stays.
proof fn lemma_rocks_same(before: Field, after: Field, across: bool, far: bool, line: int, upto: int)
    requires
        forall|k: int|
            0 <= k < upto ==> #[trigger] cell(after, across, far, line, k) == cell(
                before,
                across,
                far,
                line,
                k,
            ),
    ensures
        rocks(after, across, far, line, upto) == rocks(before, across, far, line, upto),
    decreases upto,
{
    if upto > 0 {
        lemma_rocks_same(before, after, across, far, line, upto - 1);
    }
}

/// A rock that rolls moves no cube.
proof fn lemma_cubes(before: Field, now: Field, across: bool, far: bool, line: int, at: int)
    requires
        even(now),
        now.len() == before.len(),
        now[0].len() == before[0].len(),
        same_cubes(before, now, across, far),
        0 <= line < lines(before, across),
        0 <= at < span(before, across),
        cell(now, across, far, line, at) == Space::Rounded,
    ensures
        same_cubes(before, rolled(now, across, far, line, at), across, far),
{
    reveal(same_cubes);
    let after = rolled(now, across, far, line, at);
    lemma_landing(now, across, far, line, at);
    lemma_rolled(now, across, far, line, at);
    assert forall|l: int, k: int|
        0 <= l < lines(before, across) && 0 <= k < span(before, across) implies (#[trigger] cell(
        after,
        across,
        far,
        l,
        k,
    ) == Space::Cube) == (cell(before, across, far, l, k) == Space::Cube) by {
        assert((cell(now, across, far, l, k) == Space::Cube) == (cell(before, across, far, l, k)
            == Space::Cube));
        if l == line && k == landing(now, across, far, line, at) && k < at {
            assert(cell(now, across, far, line, k) == Space::Empty);
        }
    }
}

/// A rock that rolls passes no cube.
proof fn lemma_rolls(before: Field, now: Field, across: bool, far: bool, line: int, at: int)
    requires
        even(now),
        now.len() == before.len(),
        now[0].len() == before[0].len(),
        same_cubes(before, now, across, far),
        same_rocks(before, now, across, far),
        0 <= line < lines(before, across),
        0 <= at < span(before, across),
        cell(now, across, far, line, at) == Space::Rounded,
    ensures
        same_rocks(before, rolled(now, across, far, line, at), across, far),
{
    reveal(same_cubes);
    reveal(same_rocks);
    let after = rolled(now, across, far, line, at);
    let to = landing(now, across, far, line, at);
    lemma_landing(now, across, far, line, at);
    lemma_rolled(now, across, far, line, at);
    assert forall|l: int, k: int|
        0 <= l < lines(before, across) && 0 <= k <= span(before, across) && (k == span(
            before,
            across,
        ) || cell(before, across, far, l, k) == Space::Cube) implies #[trigger] rocks(
        after,
        across,
        far,
        l,
        k,
    ) == rocks(before, across, far, l, k) by {
        assert(rocks(now, across, far, l, k) == rocks(before, across, far, l, k));
        if l == line && to < at {
            if to < k <= at {
                assert(cell(now, across, far, line, k) == Space::Cube);
                if k < at {
                    assert(cell(now, across, far, line, k) == Space::Empty);
                }
            }
            assert(cell(now, across, far, line, to) == Space::Empty);
            lemma_rocks(now, after, across, far, line, k, to, at);
        } else {
            lemma_rocks_same(now, after, across, far, l, k);
        }
    }
}

/// A rock that has rolled rests, and the rocks that rested before it still
/// do.
proof fn lemma_rests(now: Field, across: bool, far: bool, line: int, at: int)
    requires
        even(now),
        settled(now, across, far, at, line),
        0 <= line < lines(now, across),
        0 <= at < span(now, across),
    ensures
        cell(now, across, far, line, at) == Space::Rounded ==> settled(
            rolled(now, across, far, line, at),
            across,
            far,
            at,
            line + 1,
        ),
        cell(now, across, far, line, at) != Space::Rounded ==> settled(
            now,
            across,
            far,
            at,
            line + 1,
        ),
{
    reveal(settled);
    if cell(now, across, far, line, at) == Space::Rounded {
        let after = rolled(now, across, far, line, at);
        let to = landing(now, across, far, line, at);
        lemma_landing(now, across, far, line, at);
        lemma_rolled(now, across, far, line, at);
        assert(lines(after, across) == lines(now, across));
        assert(span(after, across) == span(now, across));
        assert forall|l: int, k: int|
            0 <= l < lines(after, across) && 0 <= k < span(after, across) && (k < at || (k == at
                && l < line + 1)) implies #[trigger] rests(after, across, far, l, k) by {
            if k >= 1 && cell(after, across, far, l, k) == Space::Rounded {
                if l == line && k == to {
                    assert(cell(after, across, far, l, k - 1) == cell(now, across, far, l, k - 1));
                } else {
                    assert(rests(now, across, far, l, k));
                    assert(cell(now, across, far, l, k) == Space::Rounded);
                    if l == line {
                        assert(k < to) by {
                            if k > to {
                                assert(cell(now, across, far, line, k) == Space::Empty);
                            }
                        }
                    }
                    assert(cell(after, across, far, l, k - 1) == cell(now, across, far, l, k - 1));
                }
            }
        }
    } else {
        assert(rests(now, across, far, line, at));
    }
}

/// What rests as far as the last line of one place rests as far as the
/// first line of the next.
proof fn lemma_next_place(now: Field, across: bool, far: bool, at: int)
    requires
        settled(now, across, far, at, lines(now, across)),
    ensures
        settled(now, across, far, at + 1, 0),
{
    reveal(settled);
}

/// Before any rock has rolled, all is as before.
proof fn lemma_first_place(field: Field, across: bool, far: bool)
    ensures
        same_cubes(field, field, across, far),
        same_rocks(field, field, across, far),
        settled(field, across, far, 0, 0),
{
    reveal(same_cubes);
    reveal(same_rocks);
    reveal(settled);
}

impl Platform {
    /// Tilts the platform: every rounded rock rolls as far as it can, those
    /// nearest to the end to which they roll first.
    fn tilt(&mut self, across: bool, far: bool)
        requires
            old(self).wf(),
        ensures
            tilted(old(self).field(), final(self).field(), across, far),
    {
        let ghost before = self.field();
        let count = if across {
            self.map.len()
        } else {
            self.map[0].len()
        };
        let length = if across {
            self.map[0].len()
        } else {
            self.map.len()
        };
        let mut at: usize = 0;
        proof {
            assert(before[0] == self.map@[0]@);
            lemma_first_place(before, across, far);
        }
        while at < length
            invariant
                even(before),
                count == lines(before, across),
                length == span(before, across),
                at <= length,
                tilting(before, self.field(), across, far, at as int, 0),
            decreases length - at,
        {
            let mut line: usize = 0;
            while line < count
                invariant
                    even(before),
                    count == lines(before, across),
                    length == span(before, across),
                    at < length,
                    line <= count,
                    tilting(before, self.field(), across, far, at as int, line as int),
                decreases count - line,
            {
                let ghost now = self.field();
                proof {
                    assert(lines(now, across) == lines(before, across));
                    assert(span(now, across) == span(before, across));
                    lemma_rests(now, across, far, line as int, at as int);
                }
                let (row, col) = self.locate(across, far, line, at);
                assert(self.map@[row as int]@ == now[row as int]);
                proof {
                    reveal(cell);
                }
                if self.get(row, col) == Space::Rounded {
                    proof {
                        lemma_cubes(before, now, across, far, line as int, at as int);
                        lemma_rolls(before, now, across, far, line as int, at as int);
                        lemma_rolled(now, across, far, line as int, at as int);
                    }
                    self.shift(across, far, line, at);
                }
                line = line + 1;
            }
            proof {
                assert(lines(self.field(), across) == count);
                lemma_next_place(self.field(), across, far, at as int);
            }
            at = at + 1;
        }
    }

    /// Lets the rounded rock at a place roll towards the first row.
    pub fn shift_up(&mut self, start_row: usize, start_col: usize)
        requires
            old(self).wf(),
            start_row < old(self).field().len(),
            start_col < old(self).field()[0].len(),
            old(self).field()[start_row as int][start_col as int] == Space::Rounded,
        ensures
            final(self).field() == rolled(
                old(self).field(),
                false,
                false,
                start_col as int,
                start_row as int,
            ),
            final(self).wf(),
    {
        proof {
            reveal(cell);
        }
        self.shift(false, false, start_col, start_row)
    }

    /// Lets the rounded rock at a place roll towards the first column.
    pub fn shift_left(&mut self, start_row: usize, start_col: usize)
        requires
            old(self).wf(),
            start_row < old(self).field().len(),
            start_col < old(self).field()[0].len(),
            old(self).field()[start_row as int][start_col as int] == Space::Rounded,
        ensures
            final(self).field() == rolled(
                old(self).field(),
                true,
                false,
                start_row as int,
                start_col as int,
            ),
            final(self).wf(),
    {
        proof {
            reveal(cell);
        }
        self.shift(true, false, start_row, start_col)
    }

    /// Lets the rounded rock at a place roll towards the last row.
    pub fn shift_down(&mut self, start_row: usize, start_col: usize)
        requires
            old(self).wf(),
            start_row < old(self).field().len(),
            start_col < old(self).field()[0].len(),
            old(self).field()[start_row as int][start_col as int] == Space::Rounded,
        ensures
            final(self).field() == rolled(
                old(self).field(),
                false,
                true,
                start_col as int,
                old(self).field().len() - 1 - start_row,
            ),
            final(self).wf(),
    {
        proof {
            reveal(cell);
        }
        let rows = self.map.len();
        self.shift(false, true, start_col, rows - 1 - start_row)
    }

    /// Lets the rounded rock at a place roll towards the last column.
    pub fn shift_right(&mut self, start_row: usize, start_col: usize)
        requires
            old(self).wf(),
            start_row < old(self).field().len(),
            start_col < old(self).field()[0].len(),
            old(self).field()[start_row as int][start_col as int] == Space::Rounded,
        ensures
            final(self).field() == rolled(
                old(self).field(),
                true,
                true,
                start_row as int,
                old(self).field()[0].len() - 1 - start_col,
            ),
            final(self).wf(),
    {
        proof {
            reveal(cell);
            assert(self.field()[0] == self.map@[0]@);
        }
        let cols = self.map[0].len();
        self.shift(true, true, start_row, cols - 1 - start_col)
    }

    /// Tilts the platform so that the rounded rocks roll to the first row.
    pub fn tilt_up(&mut self)
        requires
            old(self).wf(),
        ensures
            tilted(old(self).field(), final(self).field(), false, false),
    {
        self.tilt(false, false)
    }

    /// Tilts the platform so that the rounded rocks roll to the first
    /// column.
    pub fn tilt_left(&mut self)
        requires
            old(self).wf(),
        ensures
            tilted(old(self).field(), final(self).field(), true, false),
    {
        self.tilt(true, false)
    }

    /// Tilts the platform so that the rounded rocks roll to the last row.
    pub fn tilt_down(&mut self)
        requires
            old(self).wf(),
        ensures
            tilted(old(self).field(), final(self).field(), false, true),
    {
        self.tilt(false, true)
    }

    /// Tilts the platform so that the rounded rocks roll to the last
    /// column.
    pub fn tilt_right(&mut self)
        requires
            old(self).wf(),
        ensures
            tilted(old(self).field(), final(self).field(), true, true),
    {
        self.tilt(true, true)
    }

    /// Tilts the platform up, to the left, down and to the right, in that
    /// order.
    pub fn cycle(&mut self)
        requires
            old(self).wf(),
        ensures
            cycled(old(self).field(), final(self).field()),
    {
        self.tilt_up();
        let ghost up = self.field();
        self.tilt_left();
        let ghost left = self.field();
        self.tilt_down();
        let ghost down = self.field();
        self.tilt_right();
        proof {
            assert(tilted(old(self).field(), up, false, false) && tilted(up, left, true, false)
                && tilted(left, down, false, true) && tilted(down, self.field(), true, true));
        }
    }
}

/// `after` is `before` tilted up, to the left, down and to the right, in
/// that order.
pub open spec fn cycled(before: Field, after: Field) -> bool {
    exists|up: Field, left: Field, down: Field|
        #![trigger tilted(before, up, false, false), tilted(up, left, true, false), tilted(left, down, false, true)]
        tilted(before, up, false, false) && tilted(up, left, true, false) && tilted(
            left,
            down,
            false,
            true,
        ) && tilted(down, after, true, true)
}

/// The character that stands for a space.
pub open spec fn glyph(space: Space) -> char {
    match space {
        Space::Empty => '.',
        Space::Rounded => 'O',
        Space::Cube => '#',
    }
}

/// The characters of the first `rows` rows, one row after the other.
pub open spec fn picture(field: Field, rows: int) -> Seq<char>
    decreases rows,
{
    if rows <= 0 {
        Seq::empty()
    } else {
        picture(field, rows - 1) + field[rows - 1].map_values(|space: Space| glyph(space))
    }
}

/// The load of the rounded rocks at the first `upto` places of a row, each
/// weighing `weight`.
pub open spec fn row_load(row: Seq<Space>, weight: int, upto: int) -> int
    decreases upto,
{
    if upto <= 0 {
        0
    } else {
        row_load(row, weight, upto - 1) + if row[upto - 1] == Space::Rounded {
            weight
        } else {
            0
        }
    }
}

/// The load of the rounded rocks of the first `rows` rows on the beams at
/// the first row: for each rock the number of rows from its own to the last.
pub open spec fn load(field: Field, rows: int) -> int
    decreases rows,
{
    if rows <= 0 {
        0
    } else {
        load(field, rows - 1) + row_load(
            field[rows - 1],
            field.len() - (rows - 1),
            field[rows - 1].len() as int,
        )
    }
}

/// No row bears more than every place of it would.
proof fn lemma_row_load(row: Seq<Space>, weight: int, upto: int)
    requires
        0 <= weight,
        0 <= upto,
    ensures
        0 <= row_load(row, weight, upto) <= upto * weight,
    decreases upto,
{
    if upto > 0 {
        lemma_row_load(row, weight, upto - 1);
        assert((upto - 1) * weight + weight == upto * weight) by (nonlinear_arith);
    }
}

/// No platform bears more than every place of it would under the weight of
/// the first row.
proof fn lemma_load(field: Field, rows: int)
    requires
        even(field),
        0 <= rows <= field.len(),
    ensures
        0 <= load(field, rows) <= rows * (field[0].len() * field.len()),
    decreases rows,
{
    if rows > 0 {
        lemma_load(field, rows - 1);
        let weight = field.len() - (rows - 1);
        let cols = field[0].len() as int;
        lemma_row_load(field[rows - 1], weight, cols);
        assert(cols * weight <= cols * field.len()) by (nonlinear_arith)
            requires
                weight <= field.len(),
                0 <= cols,
        ;
        assert((rows - 1) * (cols * field.len()) + cols * field.len() == rows * (cols
            * field.len())) by (nonlinear_arith);
    }
}

impl Platform {
    /// The platform as text: a character for each place, row after row.
    pub fn identity(&self) -> (r: String)
        requires
            self.wf(),
        ensures
            r@ == picture(self.field(), self.field().len() as int),
    {
        let mut result = String::new();
        let mut row: usize = 0;
        proof {
            reveal_strlit(".");
            reveal_strlit("O");
            reveal_strlit("#");
        }
        while row < self.map.len()
            invariant
                self.wf(),
                row <= self.map@.len(),
                result@ == picture(self.field(), row as int),
                "."@ == seq!['.'],
                "O"@ == seq!['O'],
                "#"@ == seq!['#'],
            decreases self.map@.len() - row,
        {
            let ghost before = result@;
            let ghost line = self.field()[row as int];
            let mut col: usize = 0;
            assert(self.map@[row as int]@ == line);
            while col < self.map[row].len()
                invariant
                    row < self.map@.len(),
                    line == self.map@[row as int]@,
                    col <= line.len(),
                    result@ == before + line.take(col as int).map_values(|space: Space| glyph(space)),
                    "."@ == seq!['.'],
                    "O"@ == seq!['O'],
                    "#"@ == seq!['#'],
                decreases line.len() - col,
            {
                let space = self.map[row][col];
                let ghost so_far = result@;
                match space {
                    Space::Empty => {
                        result.append(".");
                    },
                    Space::Rounded => {
                        result.append("O");
                    },
                    Space::Cube => {
                        result.append("#");
                    },
                }
                proof {
                    assert(result@ == so_far + seq![glyph(space)]);
                    assert(line.take(col + 1).map_values(|space: Space| glyph(space))
                        =~= line.take(col as int).map_values(|space: Space| glyph(space)).push(
                        glyph(space),
                    ));
                    assert(result@ =~= before + line.take(col + 1).map_values(
                        |space: Space| glyph(space),
                    ));
                }
                col = col + 1;
            }
            proof {
                assert(line.take(line.len() as int) =~= line);
            }
            row = row + 1;
        }
        result
    }

    /// The load of the rounded rocks on the beams at the first row: for each
    /// rock the number of rows from its own to the last.
    pub fn load_up(&self) -> (r: usize)
        requires
            self.wf(),
            self.field().len() * (self.field()[0].len() * self.field().len()) <= usize::MAX,
        ensures
            r == load(self.field(), self.field().len() as int),
    {
        let row_count = self.map.len();
        let ghost field = self.field();
        let mut total_load: usize = 0;
        let mut row: usize = 0;
        proof {
            assert(self.map@[0]@ == field[0]);
        }
        let cols = self.map[0].len();
        while row < row_count
            invariant
                self.wf(),
                field == self.field(),
                row_count == field.len(),
                cols == field[0].len(),
                row_count * (cols * row_count) <= usize::MAX,
                row <= row_count,
                total_load == load(field, row as int),
            decreases row_count - row,
        {
            let weight = row_count - row;
            let ghost line = field[row as int];
            let mut col: usize = 0;
            let ghost before = total_load;
            proof {
                assert(self.map@[row as int]@ == line);
                lemma_load(field, row as int);
                lemma_load(field, row + 1);
                assert((row + 1) * (cols * row_count) <= row_count * (cols * row_count))
                    by (nonlinear_arith)
                    requires
                        row + 1 <= row_count,
                        0 <= cols * row_count,
                ;
            }
            while col < cols
                invariant
                    row < row_count,
                    row_count == self.map@.len(),
                    line == self.map@[row as int]@,
                    line.len() == cols,
                    col <= cols,
                    weight == row_count - row,
                    total_load == before + row_load(line, weight as int, col as int),
                    before + row_load(line, weight as int, cols as int) <= usize::MAX,
                decreases cols - col,
            {
                proof {
                    lemma_row_load_grows(line, weight as int, col + 1, cols as int);
                }
                if self.get(row, col) == Space::Rounded {
                    total_load = total_load + weight;
                }
                col = col + 1;
            }
            row = row + 1;
        }
        total_load
    }

    /// The platform is the one that the lines draw: a row for each line and
    /// a space for each byte.
    pub open spec fn drawn(&self, text: Seq<Seq<u8>>) -> bool {
        &&& self.field().len() == text.len()
        &&& forall|row: int|
            0 <= row < text.len() ==> (#[trigger] self.field()[row]).len() == text[row].len()
        &&& forall|row: int, col: int|
            0 <= row < text.len() && 0 <= col < text[row].len() ==> Space::of(
                text[row][col] as char,
            ) == Some(#[trigger] self.field()[row][col])
    }

    /// Reads a platform: a line for each row, a byte for each place. `None`
    /// where the lines are no plan of a platform.
    pub fn from(value: &str) -> (r: Option<Self>)
        ensures
            match r {
                Some(platform) => platform.wf() && plan(crate::text::lines(value.spec_bytes()))
                    && platform.drawn(crate::text::lines(value.spec_bytes())),
                None => !plan(crate::text::lines(value.spec_bytes())),
            },
    {
        let read = |byte: u8| -> (space: Option<Space>)
            ensures
                space == Space::of(byte as char),
            {
                if byte == 0x2e {
                    Some(Space::Empty)
                } else if byte == 0x4f {
                    Some(Space::Rounded)
                } else if byte == 0x23 {
                    Some(Space::Cube)
                } else {
                    None
                }
            };
        let ghost text = crate::text::lines(value.spec_bytes());
        let map = match read_grid(value.as_bytes(), read) {
            Some(map) => map,
            None => {
                return None;
            },
        };
        proof {
            assert forall|row: int, col: int|
                0 <= row < text.len() && 0 <= col < text[row].len() implies Space::of(
                #[trigger] text[row][col] as char,
            ) is Some by {
                assert(map@[row]@.len() == text[row].len());
                assert(read.ensures((text[row][col],), Some(map@[row]@[col])));
            }
            if text.len() >= 1 {
                assert(map@[0]@.len() == text[0].len());
            }
        }
        if map.len() == 0 || map[0].len() == 0 {
            return None;
        }
        let cols = map[0].len();
        let mut k: usize = 0;
        while k < map.len()
            invariant
                k <= map@.len(),
                map@.len() >= 1,
                map@.len() == text.len(),
                text == crate::text::lines(value.spec_bytes()),
                cols == map@[0]@.len(),
                cols == text[0].len(),
                cols >= 1,
                forall|row: int|
                    0 <= row < map@.len() ==> (#[trigger] map@[row])@.len() == text[row].len(),
                forall|j: int| 0 <= j < k ==> (#[trigger] map@[j])@.len() == cols,
            decreases map@.len() - k,
        {
            if map[k].len() != cols {
                proof {
                    assert(text[k as int].len() != text[0].len());
                }
                return None;
            }
            k = k + 1;
        }
        let platform = Platform { map };
        proof {
            let field = platform.field();
            assert(field[0] == platform.map@[0]@);
            assert forall|j: int| 0 <= j < field.len() implies (#[trigger] field[j]).len()
                == field[0].len() by {
                assert(field[j] == platform.map@[j]@);
            }
            assert forall|row: int| 0 <= row < text.len() implies (#[trigger] text[row]).len()
                == text[0].len() by {
                assert(platform.map@[row]@.len() == text[row].len());
            }
            assert forall|row: int| 0 <= row < text.len() implies (#[trigger] field[row]).len()
                == text[row].len() by {
                assert(field[row] == platform.map@[row]@);
            }
            assert forall|row: int, col: int|
                0 <= row < text.len() && 0 <= col < text[row].len() implies Space::of(
                text[row][col] as char,
            ) == Some(#[trigger] field[row][col]) by {
                assert(field[row] == platform.map@[row]@);
                assert(platform.map@[row]@.len() == text[row].len());
                assert(read.ensures((text[row][col],), Some(platform.map@[row]@[col])));
            }
        }
        Some(platform)
    }
}

/// A row bears no less the more of it is looked at.
proof fn lemma_row_load_grows(row: Seq<Space>, weight: int, at: int, upto: int)
    requires
        0 <= weight,
        at <= upto,
    ensures
        row_load(row, weight, at) <= row_load(row, weight, upto),
    decreases upto - at,
{
    if at < upto {
        lemma_row_load_grows(row, weight, at, upto - 1);
    }
}

impl Platform {
    /// The load on the beams at the first row; `None` where it is no number
    /// of the machine for as many rocks as the platform has places.
    pub fn try_load_up(&self) -> (r: Option<usize>)
        requires
            self.wf(),
        ensures
            match r {
                Some(sum) => sum == load(self.field(), self.field().len() as int),
                None => self.field().len() * (self.field()[0].len() * self.field().len())
                    > usize::MAX,
            },
    {
        let rows = self.map.len();
        let cols = self.map[0].len();
        proof {
            assert(self.field()[0] == self.map@[0]@);
        }
        match cols.checked_mul(rows) {
            Some(places) => match rows.checked_mul(places) {
                Some(_) => Some(self.load_up()),
                None => None,
            },
            None => {
                proof {
                    assert(rows * (cols * rows) >= cols * rows) by (nonlinear_arith)
                        requires
                            rows >= 1,
                            cols >= 0,
                    ;
                }
                None
            },
        }
    }
}

/// As many rocks as the platform of the lines has places would bear more
/// on the beams than the machine can count.
pub open spec fn heavy(text: Seq<Seq<u8>>) -> bool {
    text.len() * (text[0].len() * text.len()) > usize::MAX
}

/// The load on the beams at the first row when the platform of the text
/// has been tilted up. `None` where the lines are no plan of a platform, or
/// where `Platform::try_load_up` gives `None`.
pub fn solve_part1(input: &str) -> (r: Option<usize>)
    ensures
        r is None ==> !plan(crate::text::lines(input.spec_bytes())) || heavy(
            crate::text::lines(input.spec_bytes()),
        ),
        r matches Some(sum) ==> exists|before: Platform, after: Field|
            #![trigger before.drawn(crate::text::lines(input.spec_bytes())), tilted(before.field(), after, false, false)]
            before.wf() && before.drawn(crate::text::lines(input.spec_bytes())) && tilted(
                before.field(),
                after,
                false,
                false,
            ) && sum == load(after, after.len() as int),
{
    let mut platform = match Platform::from(input) {
        Some(platform) => platform,
        None => {
            return None;
        },
    };
    let ghost before = platform;
    platform.tilt_up();
    platform.try_load_up()
}

/// `after` is what `count` cycles make of `before`.
pub open spec fn spun(before: Field, after: Field, count: nat) -> bool
    decreases count,
{
    if count == 0 {
        before == after
    } else {
        exists|between: Field|
            #![trigger cycled(between, after)]
            spun(before, between, (count - 1) as nat) && cycled(between, after)
    }
}

/// One cycle more.
proof fn lemma_spun(before: Field, between: Field, after: Field, count: nat)
    requires
        spun(before, between, count),
        cycled(between, after),
    ensures
        spun(before, after, count + 1),
{
    assert(((count + 1) - 1) as nat == count);
    assert(cycled(between, after));
}

/// How many cycles the platform is to go through.
pub const CYCLES: usize = 1_000_000_000;

/// The load on the beams at the first row when the platform of the text
/// has gone through its cycles. Once a platform comes back that was there
/// before, as many cycles are left out as lead to the same platform again;
/// what is left is what all the cycles make of the platform. `None` where
/// the lines are no plan of a platform, or where `Platform::try_load_up`
/// gives `None`.
pub fn solve_part2(input: &str) -> (r: Option<usize>)
    ensures
        match r {
            Some(sum) => exists|before: Platform, after: Field|
                #![trigger before.drawn(crate::text::lines(input.spec_bytes())), spun(before.field(), after, CYCLES as nat)]
                before.wf() && before.drawn(crate::text::lines(input.spec_bytes())) && spun(
                    before.field(),
                    after,
                    CYCLES as nat,
                ) && sum == load(after, after.len() as int),
            None => !plan(crate::text::lines(input.spec_bytes())) || heavy(
                crate::text::lines(input.spec_bytes()),
            ),
        },
{
    let mut platform = match Platform::from(input) {
        Some(platform) => platform,
        None => {
            return None;
        },
    };
    let ghost before = platform;
    let mut seen: Vec<String> = Vec::new();
    let mut times: Vec<usize> = Vec::new();
    let ghost mut fields: Seq<Field> = Seq::empty();
    seen.push(platform.identity());
    times.push(0);
    proof {
        fields = fields.push(platform.field());
    }
    let mut cycle: usize = 0;
    while cycle < CYCLES
        invariant
            cycle <= CYCLES,
            platform.wf(),
            platform.field().len() == before.field().len(),
            platform.field()[0].len() == before.field()[0].len(),
            before.drawn(crate::text::lines(input.spec_bytes())),
            spun(before.field(), platform.field(), cycle as nat),
            seen@.len() == times@.len(),
            seen@.len() == fields.len(),
            forall|k: int| 0 <= k < times@.len() ==> #[trigger] times@[k] <= cycle,
            forall|k: int|
                0 <= k < fields.len() ==> even(#[trigger] fields[k]) && fields[k].len()
                    == before.field().len() && fields[k][0].len() == before.field()[0].len()
                    && seen@[k]@ == picture(fields[k], fields[k].len() as int),
            forall|k: int|
                0 <= k < fields.len() ==> spun(
                    #[trigger] fields[k],
                    platform.field(),
                    (cycle - times@[k]) as nat,
                ),
        decreases CYCLES - cycle,
    {
        let ghost held = platform.field();
        platform.cycle();
        proof {
            lemma_spun(before.field(), held, platform.field(), cycle as nat);
            assert forall|k: int| 0 <= k < fields.len() implies spun(
                #[trigger] fields[k],
                platform.field(),
                (cycle + 1 - times@[k]) as nat,
            ) by {
                lemma_spun(fields[k], held, platform.field(), (cycle - times@[k]) as nat);
            }
        }
        cycle = cycle + 1;
        let identity = platform.identity();
        let mut found: Option<usize> = None;
        let ghost mut at: int = 0;
        let mut k: usize = 0;
        while k < seen.len()
            invariant
                k <= seen@.len(),
                seen@.len() == times@.len(),
                found matches Some(previous) ==> previous < cycle && 0 <= at < seen@.len()
                    && times@[at] == previous && seen@[at]@ == identity@,
                forall|j: int| 0 <= j < times@.len() ==> #[trigger] times@[j] <= cycle,
                cycle >= 1,
            decreases seen@.len() - k,
        {
            if found.is_none() && seen[k] == identity && times[k] < cycle {
                found = Some(times[k]);
                proof {
                    at = k as int;
                }
            }
            k = k + 1;
        }
        match found {
            Some(previous) => {
                let period = cycle - previous;
                let diff = CYCLES - cycle;
                let remaining = diff % period;
                proof {
                    assert(remaining <= diff) by (nonlinear_arith)
                        requires
                            remaining == diff % period,
                            period > 0,
                            diff >= 0,
                    ;
                    let now = platform.field();
                    let rounds = (diff / period) as nat;
                    let skipped: nat = rounds * (period as nat);
                    assert(diff - remaining == skipped) by (nonlinear_arith)
                        requires
                            remaining == diff % period,
                            rounds == diff / period,
                            skipped == rounds * period,
                            period > 0,
                            diff >= 0,
                    ;
                    lemma_same_picture(fields[at], now);
                    assert(spun(now, now, period as nat));
                    lemma_spun_round(now, period as nat, rounds);
                    lemma_spun_on(before.field(), now, now, cycle as nat, skipped);
                    assert forall|k: int| 0 <= k < fields.len() implies spun(
                        #[trigger] fields[k],
                        now,
                        (CYCLES - remaining - times@[k]) as nat,
                    ) by {
                        lemma_spun_on(
                            fields[k],
                            now,
                            now,
                            (cycle - times@[k]) as nat,
                            skipped,
                        );
                    }
                }
                cycle = CYCLES - remaining;
            },
            None => {
                seen.push(identity);
                times.push(cycle);
                proof {
                    let older = fields;
                    fields = fields.push(platform.field());
                    assert forall|k: int| 0 <= k < fields.len() implies spun(
                        #[trigger] fields[k],
                        platform.field(),
                        (cycle - times@[k]) as nat,
                    ) by {
                        if k < older.len() {
                            assert(fields[k] == older[k]);
                        }
                    }
                }
            },
        }
    }
    platform.try_load_up()
}

/// What cycles make of a field, and more cycles of that, is what all the
/// cycles together make of the field.
proof fn lemma_spun_on(first: Field, second: Field, third: Field, count: nat, more: nat)
    requires
        spun(first, second, count),
        spun(second, third, more),
    ensures
        spun(first, third, count + more),
    decreases more,
{
    if more > 0 {
        let between = choose|between: Field|
            #![trigger cycled(between, third)]
            spun(second, between, (more - 1) as nat) && cycled(between, third);
        lemma_spun_on(first, second, between, count, (more - 1) as nat);
        lemma_spun(first, between, third, (count + more - 1) as nat);
    }
}

/// Cycles that lead back to a field lead back to it when they are gone
/// through over and over.
proof fn lemma_spun_round(field: Field, period: nat, rounds: nat)
    requires
        spun(field, field, period),
    ensures
        spun(field, field, rounds * period),
    decreases rounds,
{
    if rounds == 0 {
        assert(rounds * period == 0) by (nonlinear_arith)
            requires
                rounds == 0,
        ;
    } else {
        lemma_spun_round(field, period, (rounds - 1) as nat);
        lemma_spun_on(field, field, field, ((rounds - 1) as nat) * period, period);
        assert(((rounds - 1) as nat) * period + period == rounds * period) by (nonlinear_arith)
            requires
                rounds >= 1,
        ;
    }
}

/// How long the picture of the first rows is, and which character stands
/// for a place in it.
proof fn lemma_picture(field: Field, rows: int, row: int, col: int)
    requires
        even(field),
        0 <= row < rows <= field.len(),
        0 <= col < field[0].len(),
    ensures
        picture(field, rows).len() == rows * field[0].len(),
        picture(field, rows)[row * field[0].len() + col] == glyph(field[row][col]),
    decreases rows,
{
    let width = field[0].len() as int;
    lemma_picture_len(field, rows - 1);
    assert(field[rows - 1].len() == width);
    assert((rows - 1) * width + width == rows * width) by (nonlinear_arith);
    if row < rows - 1 {
        lemma_picture(field, rows - 1, row, col);
        assert(row * width + col < (rows - 1) * width) by (nonlinear_arith)
            requires
                0 <= row < rows - 1,
                0 <= col < width,
        ;
    } else {
        assert(0 <= row * width) by (nonlinear_arith)
            requires
                0 <= row,
                0 <= width,
        ;
    }
}

/// How long the picture of the first rows is.
proof fn lemma_picture_len(field: Field, rows: int)
    requires
        even(field),
        0 <= rows <= field.len(),
    ensures
        picture(field, rows).len() == rows * field[0].len(),
    decreases rows,
{
    let width = field[0].len() as int;
    if rows > 0 {
        lemma_picture_len(field, rows - 1);
        assert(field[rows - 1].len() == width);
        assert((rows - 1) * width + width == rows * width) by (nonlinear_arith);
    } else {
        assert(rows * width == 0) by (nonlinear_arith)
            requires
                rows == 0,
        ;
    }
}

/// Fields of one shape that have one picture are one field.
proof fn lemma_same_picture(first: Field, second: Field)
    requires
        even(first),
        even(second),
        first.len() == second.len(),
        first[0].len() == second[0].len(),
        picture(first, first.len() as int) == picture(second, second.len() as int),
    ensures
        first == second,
{
    assert forall|row: int| 0 <= row < first.len() implies #[trigger] first[row] == second[row] by {
        assert(first[row].len() == first[0].len());
        assert(second[row].len() == second[0].len());
        assert forall|col: int| 0 <= col < first[row].len() implies first[row][col]
            == second[row][col] by {
            lemma_picture(first, first.len() as int, row, col);
            lemma_picture(second, second.len() as int, row, col);
        }
        assert(first[row] =~= second[row]);
    }
    assert(first =~= second);
}

} // verus!
