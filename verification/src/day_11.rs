//! Distances between galaxies.

use crate::text::{lines, rows_of, split_lines, widest};
use vstd::prelude::*;
use vstd::slice::*;
use vstd::string::*;

verus! {

/// A place in the universe.
#[derive(Clone, Copy, Debug, PartialEq, Eq, Structural)]
pub struct Point {
    pub row: usize,
    pub col: usize,
}

/// How far apart two numbers are.
pub open spec fn apart(a: int, b: int) -> int {
    if a >= b {
        a - b
    } else {
        b - a
    }
}

impl Point {
    pub fn new(row: usize, col: usize) -> (r: Self)
        ensures
            r == (Point { row, col }),
    {
        Point { row, col }
    }

    /// The number of steps along rows and columns from here to `other`.
    pub fn distance(self, other: Point) -> (r: usize)
        requires
            apart(self.row as int, other.row as int) + apart(self.col as int, other.col as int)
                <= usize::MAX,
        ensures
            r == apart(self.row as int, other.row as int) + apart(
                self.col as int,
                other.col as int,
            ),
    {
        let rows = if self.row >= other.row {
            self.row - other.row
        } else {
            other.row - self.row
        };
        let cols = if self.col >= other.col {
            self.col - other.col
        } else {
            other.col - self.col
        };
        rows + cols
    }
}

/// A universe: the places of its galaxies, and how many rows and columns
/// it has.
pub struct Universe {
    pub galaxies: Vec<Point>,
    pub rows: usize,
    pub cols: usize,
}

/// A galaxy lies in the row, where `across` holds, or else in the column.
pub open spec fn in_line(galaxies: Seq<Point>, across: bool, line: int) -> bool {
    exists|i: int|
        0 <= i < galaxies.len() && (if across {
            (#[trigger] galaxies[i]).row
        } else {
            galaxies[i].col
        }) == line
}

/// How many of the rows, or columns, before `line` hold no galaxy.
pub open spec fn empty_before(galaxies: Seq<Point>, across: bool, line: int) -> int
    decreases line,
{
    if line <= 0 {
        0
    } else {
        empty_before(galaxies, across, line - 1) + if in_line(galaxies, across, line - 1) {
            0int
        } else {
            1int
        }
    }
}

/// Where a row or column comes to lie when every empty one before it grows
/// to `factor` rows or columns.
pub open spec fn grown(galaxies: Seq<Point>, across: bool, line: int, factor: int) -> int {
    line + (factor - 1) * empty_before(galaxies, across, line)
}

/// The sum of the distances from the galaxy `from` to the first `upto`
/// galaxies.
pub open spec fn reach(galaxies: Seq<Point>, from: Point, upto: int) -> int
    decreases upto,
{
    if upto <= 0 {
        0
    } else {
        reach(galaxies, from, upto - 1) + apart(from.row as int, galaxies[upto - 1].row as int)
            + apart(from.col as int, galaxies[upto - 1].col as int)
    }
}

/// The sum of the distances from each of the first `upto` galaxies to every
/// galaxy.
pub open spec fn spread(galaxies: Seq<Point>, upto: int) -> int
    decreases upto,
{
    if upto <= 0 {
        0
    } else {
        spread(galaxies, upto - 1) + reach(galaxies, galaxies[upto - 1], galaxies.len() as int)
    }
}

proof fn lemma_empty_before(galaxies: Seq<Point>, across: bool, at: int, upto: int)
    requires
        0 <= at <= upto,
    ensures
        0 <= empty_before(galaxies, across, at) <= empty_before(galaxies, across, upto) <= upto,
    decreases upto,
{
    if at < upto {
        lemma_empty_before(galaxies, across, at, upto - 1);
    } else if at > 0 {
        lemma_empty_before(galaxies, across, at - 1, at - 1);
    }
}

proof fn lemma_reach(galaxies: Seq<Point>, from: Point, at: int, upto: int)
    requires
        0 <= at <= upto,
    ensures
        0 <= reach(galaxies, from, at) <= reach(galaxies, from, upto),
    decreases upto,
{
    if at < upto {
        lemma_reach(galaxies, from, at, upto - 1);
    } else if at > 0 {
        lemma_reach(galaxies, from, at - 1, at - 1);
    }
}

proof fn lemma_spread(galaxies: Seq<Point>, at: int, upto: int)
    requires
        0 <= at <= upto,
    ensures
        0 <= spread(galaxies, at) <= spread(galaxies, upto),
    decreases upto,
{
    if at < upto {
        lemma_spread(galaxies, at, upto - 1);
        lemma_reach(galaxies, galaxies[upto - 1], 0, galaxies.len() as int);
    } else if at > 0 {
        lemma_spread(galaxies, at - 1, at - 1);
        lemma_reach(galaxies, galaxies[at - 1], 0, galaxies.len() as int);
    }
}

impl Universe {
    /// Whether a galaxy lies at the place.
    pub fn has_galaxy(&self, row: usize, col: usize) -> (r: bool)
        ensures
            r == self.galaxies@.contains(Point { row, col }),
    {
        let mut i: usize = 0;
        while i < self.galaxies.len()
            invariant
                i <= self.galaxies@.len(),
                forall|k: int| 0 <= k < i ==> self.galaxies@[k] != (Point { row, col }),
            decreases self.galaxies@.len() - i,
        {
            if self.galaxies[i].row == row && self.galaxies[i].col == col {
                return true;
            }
            i = i + 1;
        }
        false
    }

    /// Whether a galaxy lies in the row, where `across` holds, or else in
    /// the column.
    fn occupied(&self, across: bool, line: usize) -> (r: bool)
        ensures
            r == in_line(self.galaxies@, across, line as int),
    {
        let mut i: usize = 0;
        while i < self.galaxies.len()
            invariant
                i <= self.galaxies@.len(),
                forall|k: int|
                    0 <= k < i ==> (if across {
                        (#[trigger] self.galaxies@[k]).row
                    } else {
                        self.galaxies@[k].col
                    }) != line,
            decreases self.galaxies@.len() - i,
        {
            let at = if across {
                self.galaxies[i].row
            } else {
                self.galaxies[i].col
            };
            if at == line {
                return true;
            }
            i = i + 1;
        }
        false
    }

    /// Where each of the first `upto` rows, or columns, comes to lie, and
    /// where the one after them does.
    fn grow(&self, across: bool, upto: usize, factor: usize) -> (r: (Vec<usize>, usize))
        requires
            1 <= factor,
            upto + (factor - 1) * upto <= usize::MAX,
        ensures
            r.0@.len() == upto,
            forall|line: int|
                0 <= line < upto ==> #[trigger] r.0@[line] == grown(
                    self.galaxies@,
                    across,
                    line,
                    factor as int,
                ),
            r.1 == grown(self.galaxies@, across, upto as int, factor as int),
    {
        let mut expansion: usize = 0;
        let mut map: Vec<usize> = Vec::new();
        let mut line: usize = 0;
        while line < upto
            invariant
                1 <= factor,
                upto + (factor - 1) * upto <= usize::MAX,
                line <= upto,
                map@.len() == line,
                expansion == (factor - 1) * empty_before(self.galaxies@, across, line as int),
                forall|k: int|
                    0 <= k < line ==> #[trigger] map@[k] == grown(
                        self.galaxies@,
                        across,
                        k,
                        factor as int,
                    ),
            decreases upto - line,
        {
            proof {
                lemma_empty_before(self.galaxies@, across, line as int, upto as int);
                lemma_empty_before(self.galaxies@, across, line + 1, upto as int);
                let now = empty_before(self.galaxies@, across, line as int);
                let next = empty_before(self.galaxies@, across, line + 1);
                assert((factor - 1) * now <= (factor - 1) * upto && (factor - 1) * next <= (factor
                    - 1) * upto) by (nonlinear_arith)
                    requires
                        0 <= now <= upto,
                        0 <= next <= upto,
                        factor >= 1,
                ;
                assert((factor - 1) * now + (factor - 1) == (factor - 1) * (now + 1))
                    by (nonlinear_arith);
            }
            map.push(line + expansion);
            if !self.occupied(across, line) {
                expansion = expansion + (factor - 1);
            }
            line = line + 1;
        }
        proof {
            lemma_empty_before(self.galaxies@, across, upto as int, upto as int);
            let all = empty_before(self.galaxies@, across, upto as int);
            assert((factor - 1) * all <= (factor - 1) * upto) by (nonlinear_arith)
                requires
                    0 <= all <= upto,
                    factor >= 1,
            ;
        }
        (map, upto + expansion)
    }

    /// Lets the universe grow: every row and every column without a galaxy
    /// becomes `factor` of them.
    pub fn expand(&mut self, factor: usize)
        requires
            1 <= factor,
            old(self).rows + (factor - 1) * old(self).rows <= usize::MAX,
            old(self).cols + (factor - 1) * old(self).cols <= usize::MAX,
            forall|i: int|
                0 <= i < old(self).galaxies@.len() ==> (#[trigger] old(self).galaxies@[i]).row < old(
                    self,
                ).rows && old(self).galaxies@[i].col < old(self).cols,
        ensures
            final(self).rows == grown(
                old(self).galaxies@,
                true,
                old(self).rows as int,
                factor as int,
            ),
            final(self).cols == grown(
                old(self).galaxies@,
                false,
                old(self).cols as int,
                factor as int,
            ),
            final(self).galaxies@.len() == old(self).galaxies@.len(),
            forall|i: int|
                0 <= i < old(self).galaxies@.len() ==> (#[trigger] final(self).galaxies@[i]).row
                    == grown(
                    old(self).galaxies@,
                    true,
                    old(self).galaxies@[i].row as int,
                    factor as int,
                ) && final(self).galaxies@[i].col == grown(
                    old(self).galaxies@,
                    false,
                    old(self).galaxies@[i].col as int,
                    factor as int,
                ),
    {
        let (col_map, new_cols) = self.grow(false, self.cols, factor);
        let (row_map, new_rows) = self.grow(true, self.rows, factor);
        let ghost before = self.galaxies@;
        let mut new_galaxies: Vec<Point> = Vec::new();
        let mut i: usize = 0;
        while i < self.galaxies.len()
            invariant
                self.galaxies@ == before,
                self.rows == old(self).rows,
                self.cols == old(self).cols,
                row_map@.len() == self.rows,
                col_map@.len() == self.cols,
                forall|k: int|
                    0 <= k < before.len() ==> (#[trigger] before[k]).row < self.rows && before[k].col
                        < self.cols,
                forall|line: int|
                    0 <= line < self.rows ==> #[trigger] row_map@[line] == grown(
                        before,
                        true,
                        line,
                        factor as int,
                    ),
                forall|line: int|
                    0 <= line < self.cols ==> #[trigger] col_map@[line] == grown(
                        before,
                        false,
                        line,
                        factor as int,
                    ),
                i <= before.len(),
                new_galaxies@.len() == i,
                forall|k: int|
                    0 <= k < i ==> (#[trigger] new_galaxies@[k]).row == grown(
                        before,
                        true,
                        before[k].row as int,
                        factor as int,
                    ) && new_galaxies@[k].col == grown(
                        before,
                        false,
                        before[k].col as int,
                        factor as int,
                    ),
            decreases before.len() - i,
        {
            let point = self.galaxies[i];
            proof {
                assert(before[i as int].row < self.rows);
            }
            new_galaxies.push(Point::new(row_map[point.row], col_map[point.col]));
            i = i + 1;
        }
        self.galaxies = new_galaxies;
        self.rows = new_rows;
        self.cols = new_cols;
    }

    /// The sum of the distances between every two galaxies.
    pub fn shortest_paths(&self) -> (r: usize)
        requires
            spread(self.galaxies@, self.galaxies@.len() as int) <= usize::MAX,
        ensures
            r == spread(self.galaxies@, self.galaxies@.len() as int) / 2,
    {
        let ghost galaxies = self.galaxies@;
        let n = self.galaxies.len();
        let mut total: usize = 0;
        let mut a: usize = 0;
        while a < n
            invariant
                galaxies == self.galaxies@,
                n == galaxies.len(),
                spread(galaxies, n as int) <= usize::MAX,
                a <= n,
                total == spread(galaxies, a as int),
            decreases n - a,
        {
            let from = self.galaxies[a];
            let ghost before = total;
            let mut b: usize = 0;
            proof {
                lemma_spread(galaxies, a + 1, n as int);
                lemma_spread(galaxies, a as int, a as int);
            }
            while b < n
                invariant
                    galaxies == self.galaxies@,
                    n == galaxies.len(),
                    b <= n,
                    before >= 0,
                    total == before + reach(galaxies, from, b as int),
                    before + reach(galaxies, from, n as int) <= usize::MAX,
                decreases n - b,
            {
                proof {
                    lemma_reach(galaxies, from, b + 1, n as int);
                    lemma_reach(galaxies, from, b as int, b as int);
                }
                total = total + from.distance(self.galaxies[b]);
                b = b + 1;
            }
            a = a + 1;
        }
        total / 2
    }

    /// Reads a universe: a line for each row, a hash sign for each galaxy.
    /// The universe is as wide as its longest line, and its galaxies stand
    /// in the order of the text.
    pub fn from(value: &str) -> (r: Self)
        ensures
            r.rows == lines(value.spec_bytes()).len(),
            r.cols == widest(lines(value.spec_bytes())),
            r.galaxies@ == galaxies_of(lines(value.spec_bytes())),
            forall|i: int|
                0 <= i < r.galaxies@.len() ==> (#[trigger] r.galaxies@[i]).row < r.rows
                    && r.galaxies@[i].col < r.cols,
    {
        let rows = split_lines(value.as_bytes());
        let ghost text = lines(value.spec_bytes());
        let mut cols: usize = 0;
        let mut galaxies: Vec<Point> = Vec::new();
        let mut row: usize = 0;
        proof {
            assert(text.take(0) =~= Seq::<Seq<u8>>::empty());
        }
        while row < rows.len()
            invariant
                row <= rows@.len(),
                text == rows_of(rows@),
                cols == widest(text.take(row as int)),
                galaxies@ == galaxies_of(text.take(row as int)),
                forall|k: int|
                    0 <= k < galaxies@.len() ==> (#[trigger] galaxies@[k]).row < row && galaxies@[k].col
                        < cols,
            decreases rows@.len() - row,
        {
            let line = &rows[row];
            let ghost before = galaxies@;
            let mut col: usize = 0;
            proof {
                assert(line@.take(0) =~= Seq::<u8>::empty());
                assert(galaxies@ =~= before + stars(line@.take(0), row as nat));
            }
            while col < line.len()
                invariant
                    col <= line@.len(),
                    row < rows@.len(),
                    galaxies@ == before + stars(line@.take(col as int), row as nat),
                    forall|k: int|
                        0 <= k < galaxies@.len() ==> (#[trigger] galaxies@[k]).row <= row && (
                        galaxies@[k].col < cols || (galaxies@[k].row == row && galaxies@[k].col
                            < col)),
                    forall|k: int| 0 <= k < before.len() ==> (#[trigger] galaxies@[k]).row < row,
                    before.len() <= galaxies@.len(),
                decreases line@.len() - col,
            {
                let ghost held = galaxies@;
                if line[col] == 0x23 {
                    galaxies.push(Point::new(row, col));
                }
                proof {
                    assert(line@.take(col + 1).drop_last() =~= line@.take(col as int));
                    assert(galaxies@ =~= before + stars(line@.take(col + 1), row as nat));
                }
                col = col + 1;
            }
            if line.len() > cols {
                cols = line.len();
            }
            proof {
                assert(line@.take(col as int) =~= line@);
                assert(text.take(row + 1).drop_last() =~= text.take(row as int));
                assert(text.take(row + 1).last() == line@);
            }
            row = row + 1;
        }
        proof {
            assert(text.take(row as int) =~= text);
        }
        Universe { galaxies, rows: rows.len(), cols }
    }
}

/// The galaxies of a line that is the row `row`, from left to right.
pub open spec fn stars(line: Seq<u8>, row: nat) -> Seq<Point>
    decreases line.len(),
{
    if line.len() == 0 {
        Seq::empty()
    } else if line.last() == 0x23 {
        stars(line.drop_last(), row).push(
            Point { row: row as usize, col: (line.len() - 1) as usize },
        )
    } else {
        stars(line.drop_last(), row)
    }
}

/// The galaxies of the lines, row by row.
pub open spec fn galaxies_of(text: Seq<Seq<u8>>) -> Seq<Point>
    decreases text.len(),
{
    if text.len() == 0 {
        Seq::empty()
    } else {
        galaxies_of(text.drop_last()) + stars(text.last(), (text.len() - 1) as nat)
    }
}

impl Universe {
    /// The sum of the distances between each two galaxies; `None` where the
    /// sum of the distances from each galaxy to every galaxy is no number of
    /// the machine.
    pub fn try_shortest_paths(&self) -> (r: Option<usize>)
        ensures
            match r {
                Some(sum) => sum == spread(self.galaxies@, self.galaxies@.len() as int) / 2,
                None => spread(self.galaxies@, self.galaxies@.len() as int) > usize::MAX,
            },
    {
        let ghost galaxies = self.galaxies@;
        let n = self.galaxies.len();
        let mut total: usize = 0;
        let mut a: usize = 0;
        while a < n
            invariant
                galaxies == self.galaxies@,
                n == galaxies.len(),
                a <= n,
                total == spread(galaxies, a as int),
            decreases n - a,
        {
            let from = self.galaxies[a];
            let ghost before = total;
            let mut b: usize = 0;
            proof {
                lemma_spread(galaxies, a + 1, n as int);
            }
            while b < n
                invariant
                    galaxies == self.galaxies@,
                    n == galaxies.len(),
                    a < n,
                    from == galaxies[a as int],
                    b <= n,
                    total == before + reach(galaxies, from, b as int),
                    before == spread(galaxies, a as int),
                    spread(galaxies, a + 1) <= spread(galaxies, n as int),
                decreases n - b,
            {
                let to = self.galaxies[b];
                proof {
                    lemma_reach(galaxies, from, b + 1, n as int);
                    lemma_reach(galaxies, from, b as int, b as int);
                    lemma_spread(galaxies, a as int, a as int);
                }
                let rows = if from.row >= to.row {
                    from.row - to.row
                } else {
                    to.row - from.row
                };
                let cols = if from.col >= to.col {
                    from.col - to.col
                } else {
                    to.col - from.col
                };
                let step = match rows.checked_add(cols) {
                    Some(step) => step,
                    None => {
                        return None;
                    },
                };
                total = match total.checked_add(step) {
                    Some(total) => total,
                    None => {
                        return None;
                    },
                };
                b = b + 1;
            }
            a = a + 1;
        }
        Some(total / 2)
    }

    /// Makes every empty row and column `factor` times as wide, and says
    /// whether it did: it does not where the universe would be wider than
    /// the numbers of the machine.
    pub fn try_expand(&mut self, factor: usize) -> (r: bool)
        requires
            1 <= factor,
            forall|i: int|
                0 <= i < old(self).galaxies@.len() ==> (#[trigger] old(self).galaxies@[i]).row < old(
                    self,
                ).rows && old(self).galaxies@[i].col < old(self).cols,
        ensures
            r <==> old(self).rows + (factor - 1) * old(self).rows <= usize::MAX && old(self).cols
                + (factor - 1) * old(self).cols <= usize::MAX,
            !r ==> *final(self) == *old(self),
            r ==> final(self).widened(*old(self), factor as int),
    {
        let rows = match (factor - 1).checked_mul(self.rows) {
            Some(more) => more.checked_add(self.rows),
            None => None,
        };
        let cols = match (factor - 1).checked_mul(self.cols) {
            Some(more) => more.checked_add(self.cols),
            None => None,
        };
        if rows.is_none() || cols.is_none() {
            return false;
        }
        self.expand(factor);
        true
    }

    /// The universe is `before` with every empty row and column `factor`
    /// times as wide.
    pub open spec fn widened(&self, before: Universe, factor: int) -> bool {
        &&& self.rows == grown(before.galaxies@, true, before.rows as int, factor)
        &&& self.cols == grown(before.galaxies@, false, before.cols as int, factor)
        &&& self.galaxies@.len() == before.galaxies@.len()
        &&& forall|i: int|
            0 <= i < before.galaxies@.len() ==> (#[trigger] self.galaxies@[i]).row == grown(
                before.galaxies@,
                true,
                before.galaxies@[i].row as int,
                factor,
            ) && self.galaxies@[i].col == grown(
                before.galaxies@,
                false,
                before.galaxies@[i].col as int,
                factor,
            )
    }
}

/// The universe is the one that the lines draw.
pub open spec fn drawn(universe: Universe, text: Seq<Seq<u8>>) -> bool {
    universe.galaxies@ == galaxies_of(text) && universe.rows == text.len() && universe.cols
        == widest(text)
}

/// `sum` is the sum of the distances between each two galaxies of the
/// lines when every empty row and column has become `factor` times as wide.
pub open spec fn apart_by(text: Seq<Seq<u8>>, factor: int, sum: nat) -> bool {
    exists|before: Universe, after: Universe|
        #![trigger after.widened(before, factor)]
        drawn(before, text) && after.widened(before, factor) && sum == spread(
            after.galaxies@,
            after.galaxies@.len() as int,
        ) / 2
}

/// The universe of the lines, or the sum of the distances in it, leaves
/// the numbers of the machine when it is widened.
pub open spec fn too_wide(text: Seq<Seq<u8>>, factor: int) -> bool {
    exists|before: Universe, after: Universe|
        #![trigger after.widened(before, factor)]
        drawn(before, text) && (before.rows + (factor - 1) * before.rows > usize::MAX || before.cols
            + (factor - 1) * before.cols > usize::MAX || (after.widened(before, factor) && spread(
            after.galaxies@,
            after.galaxies@.len() as int,
        ) > usize::MAX))
}

/// The sum of the distances between each two galaxies of the text when
/// every empty row and column has become `factor` times as wide. `None`
/// where the universe or the sum leaves the numbers of the machine.
pub fn solve(input: &str, factor: usize) -> (r: Option<usize>)
    requires
        1 <= factor,
    ensures
        match r {
            Some(sum) => apart_by(lines(input.spec_bytes()), factor as int, sum as nat),
            None => too_wide(lines(input.spec_bytes()), factor as int),
        },
{
    let mut universe = Universe::from(input);
    let ghost before = universe;
    if !universe.try_expand(factor) {
        proof {
            let same = universe.widened(before, factor as int);
            assert(drawn(before, lines(input.spec_bytes())) && (same || !same));
        }
        return None;
    }
    proof {
        assert(universe.widened(before, factor as int));
    }
    universe.try_shortest_paths()
}

/// The sum of the distances with the empty rows and columns twice as
/// wide.
pub fn solve_part1(input: &str) -> (r: Option<usize>)
    ensures
        match r {
            Some(sum) => apart_by(lines(input.spec_bytes()), 2, sum as nat),
            None => too_wide(lines(input.spec_bytes()), 2),
        },
{
    solve(input, 2)
}

/// The sum of the distances with the empty rows and columns a million
/// times as wide.
pub fn solve_part2(input: &str) -> (r: Option<usize>)
    ensures
        match r {
            Some(sum) => apart_by(lines(input.spec_bytes()), 1_000_000, sum as nat),
            None => too_wide(lines(input.spec_bytes()), 1_000_000),
        },
{
    solve(input, 1_000_000)
}

} // verus!
