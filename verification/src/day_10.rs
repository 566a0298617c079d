//! A loop of pipes in a field.

use crate::text::{lines, read_grid};
use vstd::prelude::*;
use vstd::slice::*;
use vstd::string::*;

verus! {

/// A place in the field.
#[derive(Clone, Copy, Debug, PartialEq, Eq, Structural)]
pub struct Point {
    pub row: usize,
    pub col: usize,
}

/// A way to move through the field.
#[derive(Clone, Copy, Debug, PartialEq, Eq, Structural)]
pub enum Direction {
    Left,
    Right,
    Up,
    Down,
}

impl Point {
    pub fn new(row: usize, col: usize) -> (r: Self)
        ensures
            r == (Point { row, col }),
    {
        Point { row, col }
    }

    /// The place next to this one in `direction`.
    pub open spec fn shifted(self, direction: Direction) -> (int, int) {
        match direction {
            Direction::Up => (self.row - 1, self.col as int),
            Direction::Down => (self.row + 1, self.col as int),
            Direction::Left => (self.row as int, self.col - 1),
            Direction::Right => (self.row as int, self.col + 1),
        }
    }

    /// The place next to this one in `direction`.
    pub fn shift(self, direction: Direction) -> (r: Self)
        requires
            0 <= self.shifted(direction).0 <= usize::MAX,
            0 <= self.shifted(direction).1 <= usize::MAX,
        ensures
            (r.row as int, r.col as int) == self.shifted(direction),
    {
        match direction {
            Direction::Up => Point::new(self.row - 1, self.col),
            Direction::Down => Point::new(self.row + 1, self.col),
            Direction::Left => Point::new(self.row, self.col - 1),
            Direction::Right => Point::new(self.row, self.col + 1),
        }
    }
}

/// What lies at a place: the start, bare ground, or a pipe between two of
/// its sides.
#[derive(Clone, Copy, Debug, PartialEq, Eq, Structural)]
pub enum Tile {
    Start,
    Ground,
    UpDown,
    UpRight,
    UpLeft,
    LeftRight,
    DownRight,
    DownLeft,
}

/// The direction opposite to `direction`.
pub open spec fn back(direction: Direction) -> Direction {
    match direction {
        Direction::Up => Direction::Down,
        Direction::Down => Direction::Up,
        Direction::Left => Direction::Right,
        Direction::Right => Direction::Left,
    }
}

impl Tile {
    /// The tile opens towards `direction`.
    pub open spec fn opens(self, direction: Direction) -> bool {
        match direction {
            Direction::Up => self == Tile::UpDown || self == Tile::UpRight || self == Tile::UpLeft,
            Direction::Down => self == Tile::UpDown || self == Tile::DownRight || self
                == Tile::DownLeft,
            Direction::Left => self == Tile::UpLeft || self == Tile::LeftRight || self
                == Tile::DownLeft,
            Direction::Right => self == Tile::UpRight || self == Tile::LeftRight || self
                == Tile::DownRight,
        }
    }

    /// The way out of a pipe that was entered by the move `enter_move`: the
    /// side that the pipe opens to other than the one come from. `None` where
    /// the tile is no pipe or does not open to the side come from.
    pub fn next_direction(self, enter_move: Direction) -> (r: Option<Direction>)
        ensures
            r is Some <==> self.opens(back(enter_move)),
            r matches Some(out) ==> out != back(enter_move) && self.opens(out) && out == out_of(
                self,
                enter_move,
            ),
    {
        match (enter_move, self) {
            (Direction::Left, Tile::UpRight) => Some(Direction::Up),
            (Direction::Left, Tile::LeftRight) => Some(Direction::Left),
            (Direction::Left, Tile::DownRight) => Some(Direction::Down),
            (Direction::Right, Tile::UpLeft) => Some(Direction::Up),
            (Direction::Right, Tile::LeftRight) => Some(Direction::Right),
            (Direction::Right, Tile::DownLeft) => Some(Direction::Down),
            (Direction::Up, Tile::UpDown) => Some(Direction::Up),
            (Direction::Up, Tile::DownRight) => Some(Direction::Right),
            (Direction::Up, Tile::DownLeft) => Some(Direction::Left),
            (Direction::Down, Tile::UpDown) => Some(Direction::Down),
            (Direction::Down, Tile::UpRight) => Some(Direction::Right),
            (Direction::Down, Tile::UpLeft) => Some(Direction::Left),
            _ => None,
        }
    }

    /// The tile that a character of the map stands for.
    pub open spec fn of(value: char) -> Option<Tile> {
        if value == 'S' {
            Some(Tile::Start)
        } else if value == '.' {
            Some(Tile::Ground)
        } else if value == '|' {
            Some(Tile::UpDown)
        } else if value == 'L' {
            Some(Tile::UpRight)
        } else if value == 'J' {
            Some(Tile::UpLeft)
        } else if value == '-' {
            Some(Tile::LeftRight)
        } else if value == 'F' {
            Some(Tile::DownRight)
        } else if value == '7' {
            Some(Tile::DownLeft)
        } else {
            None
        }
    }

    /// The tile that a character of the map stands for.
    pub fn from(value: char) -> (r: Self)
        requires
            Tile::of(value) is Some,
        ensures
            Some(r) == Tile::of(value),
    {
        if value == 'S' {
            Tile::Start
        } else if value == '.' {
            Tile::Ground
        } else if value == '|' {
            Tile::UpDown
        } else if value == 'L' {
            Tile::UpRight
        } else if value == 'J' {
            Tile::UpLeft
        } else if value == '-' {
            Tile::LeftRight
        } else if value == 'F' {
            Tile::DownRight
        } else {
            Tile::DownLeft
        }
    }
}

/// A field of tiles, row by row.
pub struct Zone {
    pub tiles: Vec<Tile>,
    pub cols: usize,
    pub rows: usize,
}

impl Zone {
    /// The tile at `point`.
    pub fn tile(&self, point: Point) -> (r: Tile)
        requires
            point.row * self.cols + point.col < self.tiles@.len(),
        ensures
            r == self.tiles@[point.row * self.cols + point.col],
    {
        let len = self.tiles.len();
        proof {
            assert(0 <= point.row * self.cols) by (nonlinear_arith);
        }
        let index = point.row * self.cols + point.col;
        self.tiles[index]
    }
}

/// Where a scan along a row stands with regard to the loop: outside or
/// inside, and, while it runs along a stretch of the loop, from which side
/// that stretch was entered.
#[derive(Clone, Copy, Debug, PartialEq, Eq, Structural)]
pub enum LoopParity {
    Out,
    OutUp,
    OutDown,
    In,
    InUp,
    InDown,
}

/// How a tile of the loop bends, seen by a scan along its row: not at all, a
/// crossing from top to bottom, a bend to the top, or a bend to the bottom.
/// The start counts as a bend to the bottom.
#[derive(Clone, Copy, Debug, PartialEq, Eq, Structural)]
pub enum Bend {
    Flat,
    Cross,
    Top,
    Bottom,
}

impl Tile {
    /// How this tile bends.
    pub open spec fn bend(self) -> Bend {
        match self {
            Tile::Ground | Tile::LeftRight => Bend::Flat,
            Tile::UpDown => Bend::Cross,
            Tile::UpRight | Tile::UpLeft => Bend::Top,
            Tile::DownRight | Tile::DownLeft | Tile::Start => Bend::Bottom,
        }
    }
}

impl LoopParity {
    /// The scan is inside the loop, or was before the stretch it runs along.
    pub open spec fn inner(self) -> bool {
        self == LoopParity::In || self == LoopParity::InUp || self == LoopParity::InDown
    }

    /// The scan runs along a stretch of the loop.
    pub open spec fn riding(self) -> bool {
        self != LoopParity::In && self != LoopParity::Out
    }

    /// The bend by which the scan came onto the stretch that it runs along.
    pub open spec fn entered(self) -> Bend {
        match self {
            LoopParity::OutUp | LoopParity::InUp => Bend::Top,
            LoopParity::OutDown | LoopParity::InDown => Bend::Bottom,
            _ => Bend::Flat,
        }
    }

    /// The state made of the side and of the bend by which a stretch was
    /// entered.
    pub open spec fn make(inner: bool, entered: Bend) -> LoopParity {
        match (inner, entered) {
            (false, Bend::Top) => LoopParity::OutUp,
            (false, Bend::Bottom) => LoopParity::OutDown,
            (false, _) => LoopParity::Out,
            (true, Bend::Top) => LoopParity::InUp,
            (true, Bend::Bottom) => LoopParity::InDown,
            (true, _) => LoopParity::In,
        }
    }

    /// Whether the scan is inside the loop.
    pub fn is_in(self) -> (r: bool)
        ensures
            r == self.inner(),
    {
        matches!(self, LoopParity::In | LoopParity::InUp | LoopParity::InDown)
    }

    /// The state after the scan has passed `tile` of the loop. A flat tile
    /// changes nothing; a crossing changes the side; a bend starts a stretch,
    /// or ends one, and then the side has changed if the stretch ends to the
    /// other side than it began.
    pub fn next(self, tile: Tile) -> (r: Self)
        requires
            !(self.riding() && tile.bend() == Bend::Cross),
        ensures
            r == match tile.bend() {
                Bend::Flat => self,
                Bend::Cross => LoopParity::make(!self.inner(), Bend::Flat),
                bend => if self.riding() {
                    LoopParity::make(self.inner() != (bend != self.entered()), Bend::Flat)
                } else {
                    LoopParity::make(self.inner(), bend)
                },
            },
    {
        match (self, tile) {
            (val, Tile::Ground | Tile::LeftRight) => val,
            (LoopParity::Out, Tile::UpDown) => LoopParity::In,
            (LoopParity::Out, Tile::UpRight | Tile::UpLeft) => LoopParity::OutUp,
            (LoopParity::Out, Tile::DownRight | Tile::DownLeft | Tile::Start) => LoopParity::OutDown,
            (LoopParity::OutUp, Tile::UpRight | Tile::UpLeft) => LoopParity::Out,
            (LoopParity::OutUp, Tile::DownRight | Tile::DownLeft | Tile::Start) => LoopParity::In,
            (LoopParity::OutDown, Tile::UpRight | Tile::UpLeft) => LoopParity::In,
            (LoopParity::OutDown, Tile::DownRight | Tile::DownLeft | Tile::Start) => LoopParity::Out,
            (LoopParity::In, Tile::UpDown) => LoopParity::Out,
            (LoopParity::In, Tile::UpRight | Tile::UpLeft) => LoopParity::InUp,
            (LoopParity::In, Tile::DownRight | Tile::DownLeft | Tile::Start) => LoopParity::InDown,
            (LoopParity::InUp, Tile::UpRight | Tile::UpLeft) => LoopParity::In,
            (LoopParity::InUp, Tile::DownRight | Tile::DownLeft | Tile::Start) => LoopParity::Out,
            (LoopParity::InDown, Tile::UpRight | Tile::UpLeft) => LoopParity::Out,
            (LoopParity::InDown, Tile::DownRight | Tile::DownLeft | Tile::Start) => LoopParity::In,
            (val, Tile::UpDown) => val,
        }
    }
}

/// Where a walk through the pipes stands: on a place, having come there in a
/// direction.
pub type Stand = (Point, Direction);

impl Zone {
    /// The field is in order: it has as many tiles as its rows and columns
    /// say.
    pub open spec fn wf(&self) -> bool {
        self.tiles@.len() == self.rows * self.cols
    }

    /// The place is one of the field.
    pub open spec fn holds(&self, point: Point) -> bool {
        point.row < self.rows && point.col < self.cols
    }

    /// The tile at a place of the field.
    pub open spec fn at(&self, point: Point) -> Tile {
        self.tiles@[point.row * self.cols + point.col]
    }

    /// The next stand of a walk: one place on in the direction of the
    /// stand, and on in the direction in which the pipe there leads. `None`
    /// where that place is none of the field, or where no pipe leads on
    /// from there.
    pub open spec fn step(&self, stand: Stand) -> Option<Stand> {
        let (row, col) = stand.0.shifted(stand.1);
        if 0 <= row < self.rows && 0 <= col < self.cols {
            let next = Point { row: row as usize, col: col as usize };
            match self.at(next).opens(back(stand.1)) {
                true => Some((next, out_of(self.at(next), stand.1))),
                false => None,
            }
        } else {
            None
        }
    }

    /// Where a walk stands after `steps` steps; `None` once it has ended.
    pub open spec fn stand(&self, start: Stand, steps: nat) -> Option<Stand>
        decreases steps,
    {
        if steps == 0 {
            Some(start)
        } else {
            match self.stand(start, (steps - 1) as nat) {
                Some(before) => self.step(before),
                None => None,
            }
        }
    }

    /// A walk that stands somewhere has stood somewhere at every step before.
    proof fn lemma_stand(&self, start: Stand, before: nat, steps: nat)
        requires
            before <= steps,
            self.stand(start, steps) is Some,
        ensures
            self.stand(start, before) is Some,
        decreases steps,
    {
        if before < steps {
            self.lemma_stand(start, before, (steps - 1) as nat);
        }
    }

    /// The places of a walk through the pipes from `start` on, first in the
    /// direction `direction`, until no pipe leads on. `None` where the walk is
    /// longer than the field has tiles.
    pub fn traverse_loop(&self, start: Point, direction: Direction) -> (r: Option<Vec<Point>>)
        requires
            self.wf(),
            self.holds(start),
        ensures
            match r {
                Some(points) => {
                    &&& points@.len() >= 1
                    &&& forall|k: int|
                        0 <= k < points@.len() ==> #[trigger] points@[k] == spot(
                            self.stand((start, direction), k as nat),
                        )
                    &&& forall|k: nat|
                        k < points@.len() ==> #[trigger] self.stand((start, direction), k) is Some
                    &&& self.stand((start, direction), points@.len()) is None
                },
                None => self.stand((start, direction), self.tiles@.len()) is Some,
            },
    {
        let ghost first = (start, direction);
        let mut current = start;
        let mut dir = direction;
        let mut loop_points: Vec<Point> = Vec::new();
        let limit = self.tiles.len();
        loop
            invariant
                self.wf(),
                first == (start, direction),
                limit == self.tiles@.len(),
                self.holds(current),
                loop_points@.len() <= limit,
                self.stand(first, loop_points@.len()) == Some((current, dir)),
                forall|k: int|
                    0 <= k < loop_points@.len() ==> #[trigger] loop_points@[k] == spot(
                        self.stand(first, k as nat),
                    ),
            decreases limit - loop_points@.len(),
        {
            if loop_points.len() >= limit {
                return None;
            }
            let ghost before = loop_points@;
            loop_points.push(current);
            proof {
                assert(self.stand(first, before.len()) == Some((current, dir)));
                assert forall|k: int| 0 <= k < loop_points@.len() implies #[trigger] loop_points@[k]
                    == spot(self.stand(first, k as nat)) by {
                    if k < before.len() {
                        assert(loop_points@[k] == before[k]);
                    }
                }
                assert forall|k: nat| k < loop_points@.len() implies #[trigger] self.stand(
                    first,
                    k,
                ) is Some by {
                    self.lemma_stand(first, k, before.len());
                }
            }
            let inside = match dir {
                Direction::Up => current.row > 0,
                Direction::Down => current.row < self.rows - 1,
                Direction::Left => current.col > 0,
                Direction::Right => current.col < self.cols - 1,
            };
            if !inside {
                proof {
                    assert(self.stand(first, loop_points@.len()) == self.step((current, dir)));
                    assert(self.step((current, dir)) is None);
                }
                return Some(loop_points);
            }
            let next = current.shift(dir);
            proof {
                lemma_index(next.row as int, next.col as int, self.rows as int, self.cols as int);
            }
            let next_tile = self.tile(next);
            let ghost stood = (current, dir);
            proof {
                assert(self.stand(first, loop_points@.len()) == self.step(stood));
            }
            match next_tile.next_direction(dir) {
                Some(onward) => {
                    proof {
                        assert(self.step(stood) == Some((next, onward)));
                    }
                    current = next;
                    dir = onward;
                },
                None => {
                    proof {
                        assert(self.step(stood) is None);
                    }
                    return Some(loop_points);
                },
            }
        }
    }
}

/// The place of a stand; row 0 and column 0 of none.
pub open spec fn spot(stand: Option<Stand>) -> Point {
    match stand {
        Some((point, _)) => point,
        None => Point { row: 0, col: 0 },
    }
}

/// The way out of a pipe entered by the move `enter_move`; the move itself
/// where the pipe does not open to the side come from.
pub open spec fn out_of(tile: Tile, enter_move: Direction) -> Direction {
    match (enter_move, tile) {
        (Direction::Left, Tile::UpRight) => Direction::Up,
        (Direction::Left, Tile::DownRight) => Direction::Down,
        (Direction::Right, Tile::UpLeft) => Direction::Up,
        (Direction::Right, Tile::DownLeft) => Direction::Down,
        (Direction::Up, Tile::DownRight) => Direction::Right,
        (Direction::Up, Tile::DownLeft) => Direction::Left,
        (Direction::Down, Tile::UpRight) => Direction::Right,
        (Direction::Down, Tile::UpLeft) => Direction::Left,
        _ => enter_move,
    }
}

/// A place of a field has its tile among the tiles.
proof fn lemma_index(row: int, col: int, rows: int, cols: int)
    requires
        0 <= row < rows,
        0 <= col < cols,
    ensures
        0 <= row * cols + col < rows * cols,
{
    assert(row * cols + col < rows * cols) by (nonlinear_arith)
        requires
            0 <= row < rows,
            0 <= col < cols,
    {
        assert(row * cols <= (rows - 1) * cols);
    }
    assert(0 <= row * cols) by (nonlinear_arith)
        requires
            0 <= row,
            0 <= cols,
    ;
}

/// The lines are the plan of a field: each is as long as the first, and
/// every byte stands for a tile.
pub open spec fn plan(text: Seq<Seq<u8>>) -> bool {
    &&& forall|row: int| 0 <= row < text.len() ==> (#[trigger] text[row]).len() == text[0].len()
    &&& forall|row: int, col: int|
        0 <= row < text.len() && 0 <= col < text[row].len() ==> Tile::of(
            #[trigger] text[row][col] as char,
        ) is Some
}

/// `start` is the place of the last `S` of the lines; row 0 and column 0
/// where they have none.
pub open spec fn starts_at(text: Seq<Seq<u8>>, start: Point) -> bool {
    if start.row < text.len() && start.col < text[start.row as int].len()
        && text[start.row as int][start.col as int] == 0x53 {
        forall|row: int, col: int|
            0 <= row < text.len() && 0 <= col < text[row].len() && (row > start.row || (row
                == start.row && col > start.col)) ==> #[trigger] text[row][col] != 0x53
    } else {
        start == (Point { row: 0, col: 0 }) && forall|row: int, col: int|
            0 <= row < text.len() && 0 <= col < text[row].len() ==> #[trigger] text[row][col]
                != 0x53
    }
}

/// The field is the one that the lines draw: a row for each line and a tile
/// for each byte.
pub open spec fn drawn(zone: Zone, text: Seq<Seq<u8>>) -> bool {
    &&& zone.rows == text.len()
    &&& zone.cols == if text.len() == 0 {
        0
    } else {
        text[0].len()
    }
    &&& forall|row: int, col: int|
        0 <= row < text.len() && 0 <= col < text[row].len() ==> Tile::of(
            #[trigger] text[row][col] as char,
        ) == Some(zone.tiles@[row * zone.cols + col])
}

/// The place of a tile in the row of all tiles lies before that of every
/// tile of a later row, and of a later tile of its row.
proof fn lemma_flat(row: int, col: int, rows: int, cols: int)
    requires
        0 <= row < rows,
        0 <= col < cols,
    ensures
        0 <= row * cols + col < rows * cols,
        row * cols + cols == (row + 1) * cols,
{
    assert(row * cols + col < rows * cols && 0 <= row * cols && row * cols + cols == (row + 1)
        * cols) by (nonlinear_arith)
        requires
            0 <= row < rows,
            0 <= col < cols,
    ;
}

/// Reads a field: a line for each row, a byte for each tile. The result is
/// the field and the place of its start, the last where there are more, row
/// 0 and column 0 where there is none. `None` where the lines are no plan of
/// a field.
pub fn parse_zone(input: &str) -> (r: Option<(Zone, Point)>)
    ensures
        match r {
            Some(read) => read.0.wf() && plan(lines(input.spec_bytes())) && drawn(
                read.0,
                lines(input.spec_bytes()),
            ) && starts_at(lines(input.spec_bytes()), read.1) && (read.0.holds(read.1) || read.1
                == (Point { row: 0, col: 0 })),
            None => !plan(lines(input.spec_bytes())),
        },
{
    let read = |byte: u8| -> (tile: Option<Tile>)
        ensures
            tile == Tile::of(byte as char),
        {
            if byte == 0x53 {
                Some(Tile::Start)
            } else if byte == 0x2e {
                Some(Tile::Ground)
            } else if byte == 0x7c {
                Some(Tile::UpDown)
            } else if byte == 0x4c {
                Some(Tile::UpRight)
            } else if byte == 0x4a {
                Some(Tile::UpLeft)
            } else if byte == 0x2d {
                Some(Tile::LeftRight)
            } else if byte == 0x46 {
                Some(Tile::DownRight)
            } else if byte == 0x37 {
                Some(Tile::DownLeft)
            } else {
                None
            }
        };
    let ghost text = lines(input.spec_bytes());
    let grid = match read_grid(input.as_bytes(), read) {
        Some(grid) => grid,
        None => {
            return None;
        },
    };
    proof {
        assert forall|row: int, col: int|
            0 <= row < text.len() && 0 <= col < text[row].len() implies Tile::of(
            #[trigger] text[row][col] as char,
        ) == Some(grid@[row]@[col]) by {
            assert(grid@[row]@.len() == text[row].len());
            assert(read.ensures((text[row][col],), Some(grid@[row]@[col])));
        }
    }
    let rows = grid.len();
    let cols = if rows == 0 {
        0
    } else {
        grid[0].len()
    };
    let mut start = Point::new(0, 0);
    let mut found = false;
    let mut tiles: Vec<Tile> = Vec::new();
    let mut row: usize = 0;
    while row < rows
        invariant
            row <= rows,
            rows == grid@.len(),
            rows == text.len(),
            text == lines(input.spec_bytes()),
            rows > 0 ==> cols == text[0].len(),
            forall|k: int| 0 <= k < rows ==> (#[trigger] grid@[k])@.len() == text[k].len(),
            forall|k: int, col: int|
                0 <= k < text.len() && 0 <= col < text[k].len() ==> Tile::of(
                    #[trigger] text[k][col] as char,
                ) == Some(grid@[k]@[col]),
            forall|k: int| 0 <= k < row ==> (#[trigger] text[k]).len() == cols,
            tiles@.len() == row * cols,
            forall|k: int, col: int|
                0 <= k < row && 0 <= col < cols ==> tiles@[k * cols + col] == (
                #[trigger] grid@[k]@[col]),
            if found {
                start.row < row && start.col < cols && text[start.row as int][start.col as int]
                    == 0x53 && forall|k: int, col: int|
                    0 <= k < row && 0 <= col < text[k].len() && (k > start.row || (k == start.row
                        && col > start.col)) ==> #[trigger] text[k][col] != 0x53
            } else {
                start == (Point { row: 0, col: 0 }) && forall|k: int, col: int|
                    0 <= k < row && 0 <= col < text[k].len() ==> #[trigger] text[k][col] != 0x53
            },
        decreases rows - row,
    {
        if grid[row].len() != cols {
            proof {
                assert(text[row as int].len() != text[0].len());
            }
            return None;
        }
        let mut col: usize = 0;
        while col < cols
            invariant
                col <= cols,
                row < rows,
                rows == grid@.len(),
                rows == text.len(),
                grid@[row as int]@.len() == cols,
                text[row as int].len() == cols,
                forall|k: int, c: int|
                    0 <= k < text.len() && 0 <= c < text[k].len() ==> Tile::of(
                        #[trigger] text[k][c] as char,
                    ) == Some(grid@[k]@[c]),
                forall|k: int| 0 <= k < row ==> (#[trigger] text[k]).len() == cols,
                tiles@.len() == row * cols + col,
                forall|k: int, c: int|
                    0 <= k < row && 0 <= c < cols ==> tiles@[k * cols + c] == (
                    #[trigger] grid@[k]@[c]),
                forall|c: int|
                    0 <= c < col ==> tiles@[row * cols + c] == (#[trigger] grid@[row as int]@[c]),
                if found {
                    start.row <= row && start.col < cols && (start.row == row ==> start.col
                        < col) && text[start.row as int][start.col as int] == 0x53 && forall|
                        k: int,
                        c: int,
                    |
                        0 <= k <= row && 0 <= c < text[k].len() && (k < row || c < col) && (k
                            > start.row || (k == start.row && c > start.col))
                            ==> #[trigger] text[k][c] != 0x53
                } else {
                    start == (Point { row: 0, col: 0 }) && forall|k: int, c: int|
                        0 <= k <= row && 0 <= c < text[k].len() && (k < row || c < col)
                            ==> #[trigger] text[k][c] != 0x53
                },
            decreases cols - col,
        {
            let tile = grid[row][col];
            let ghost before = tiles@;
            proof {
                assert(Tile::of(text[row as int][col as int] as char) == Some(tile));
            }
            if matches!(tile, Tile::Start) {
                start = Point::new(row, col);
                found = true;
            }
            tiles.push(tile);
            proof {
                assert forall|k: int, c: int| 0 <= k < row && 0 <= c < cols implies tiles@[k * cols
                    + c] == (#[trigger] grid@[k]@[c]) by {
                    lemma_flat(k, c, row as int, cols as int);
                    assert(before[k * cols + c] == grid@[k]@[c]);
                }
            }
            col = col + 1;
        }
        proof {
            assert(row * cols + cols == (row + 1) * cols) by (nonlinear_arith);
            assert forall|k: int, c: int| 0 <= k < row + 1 && 0 <= c < cols implies tiles@[k * cols
                + c] == (#[trigger] grid@[k]@[c]) by {
                if k == row {
                    assert(tiles@[row * cols + c] == grid@[row as int]@[c]);
                }
            }
        }
        row = row + 1;
    }
    let zone = Zone { tiles, cols, rows };
    proof {
        assert forall|k: int, c: int|
            0 <= k < text.len() && 0 <= c < text[k].len() implies Tile::of(
            #[trigger] text[k][c] as char,
        ) == Some(zone.tiles@[k * zone.cols + c]) by {
            assert(text[k].len() == cols);
            assert(zone.tiles@[k * cols + c] == grid@[k]@[c]);
        }
        if rows > 0 {
            assert(text[0].len() == cols);
        }
    }
    Some((zone, start))
}

/// Half the length of the loop of pipes that leads down from the start of
/// the field of the text. `None` where the lines are no plan of a field, or
/// where the pipes lead on for more steps than the field has tiles.
pub fn solve_part1(input: &str) -> (r: Option<usize>)
    ensures
        r is None ==> unlooped(lines(input.spec_bytes())),
        r matches Some(half) ==> exists|zone: Zone, start: Point, points: Seq<Point>|
            #![trigger drawn(zone, lines(input.spec_bytes())), zone.stand((start, Direction::Down), points.len())]
            zone.wf() && drawn(zone, lines(input.spec_bytes())) && starts_at(
                lines(input.spec_bytes()),
                start,
            ) && looped(zone, start, points) && half == points.len() / 2,
{
    let (zone, start) = match parse_zone(input) {
        Some(read) => read,
        None => {
            return None;
        },
    };
    if !(start.row < zone.rows && start.col < zone.cols) {
        proof {
            assert(drawn(zone, lines(input.spec_bytes())) && !zone.holds(start));
        }
        return None;
    }
    match zone.traverse_loop(start, Direction::Down) {
        Some(points) => {
            proof {
                assert(looped(zone, start, points@));
            }
            Some(points.len() / 2)
        },
        None => {
            proof {
                assert(drawn(zone, lines(input.spec_bytes())) && endless(zone, start));
            }
            None
        },
    }
}

/// The pipes lead on from `start` for more steps than the field has tiles.
pub open spec fn endless(zone: Zone, start: Point) -> bool {
    zone.stand((start, Direction::Down), zone.tiles@.len()) is Some
}

/// The lines are no plan of a field, or the field has no start, or the
/// pipes that lead down from it lead on without end.
pub open spec fn unlooped(text: Seq<Seq<u8>>) -> bool {
    !plan(text) || exists|zone: Zone, start: Point|
        #![trigger drawn(zone, text), zone.holds(start)]
        zone.wf() && drawn(zone, text) && starts_at(text, start) && (!zone.holds(start) || endless(
            zone,
            start,
        ))
}

/// One of the places lies outside the field.
pub open spec fn strays(zone: Zone, points: Seq<Point>) -> bool {
    exists|k: int| 0 <= k < points.len() && !zone.holds(#[trigger] points[k])
}

/// `points` are the places of the walk that leads down from `start` along
/// the pipes until they lead no further.
pub open spec fn looped(zone: Zone, start: Point, points: Seq<Point>) -> bool {
    &&& points.len() >= 1
    &&& forall|k: int|
        0 <= k < points.len() ==> #[trigger] points[k] == spot(
            zone.stand((start, Direction::Down), k as nat),
        )
    &&& forall|k: nat| k < points.len() ==> #[trigger] zone.stand((start, Direction::Down), k) is Some
    &&& zone.stand((start, Direction::Down), points.len()) is None
}

impl LoopParity {
    /// The state after the scan has passed a tile of the loop; a crossing
    /// in the middle of a stretch changes nothing.
    pub open spec fn passed(self, tile: Tile) -> LoopParity {
        if self.riding() && tile.bend() == Bend::Cross {
            self
        } else {
            match tile.bend() {
                Bend::Flat => self,
                Bend::Cross => LoopParity::make(!self.inner(), Bend::Flat),
                bend => if self.riding() {
                    LoopParity::make(self.inner() != (bend != self.entered()), Bend::Flat)
                } else {
                    LoopParity::make(self.inner(), bend)
                },
            }
        }
    }
}

/// The state of the scan and the number of tiles found inside the loop when
/// the first `upto` tiles have been passed, row by row: each row starts
/// outside, a tile of the loop changes the state, and any other tile is
/// counted where the scan is inside.
pub open spec fn swept(tiles: Seq<Tile>, cols: int, on: Seq<bool>, upto: int) -> (LoopParity, nat)
    decreases upto,
{
    if upto <= 0 || cols <= 0 {
        (LoopParity::Out, 0)
    } else {
        let before = swept(tiles, cols, on, upto - 1);
        let at = upto - 1;
        let parity = if at % cols == 0 {
            LoopParity::Out
        } else {
            before.0
        };
        if on[at] {
            (parity.passed(tiles[at]), before.1)
        } else if parity.inner() {
            (parity, before.1 + 1)
        } else {
            (parity, before.1)
        }
    }
}

/// The tiles that the places stand on are marked, and no others.
pub open spec fn marked(on: Seq<bool>, cols: int, points: Seq<Point>) -> bool {
    forall|at: int|
        0 <= at < on.len() ==> (#[trigger] on[at] <==> exists|k: int|
            0 <= k < points.len() && (#[trigger] points[k]).row * cols + points[k].col == at)
}

/// How many tiles of the field of the text lie inside the loop of pipes
/// that leads down from its start. `None` where `solve_part1` gives `None`,
/// or where the loop leaves the field.
pub fn solve_part2(input: &str) -> (r: Option<usize>)
    ensures
        r is None ==> unlooped(lines(input.spec_bytes())) || exists|
            zone: Zone,
            start: Point,
            points: Seq<Point>,
        |
            #![trigger looped(zone, start, points), drawn(zone, lines(input.spec_bytes()))]
            zone.wf() && drawn(zone, lines(input.spec_bytes())) && starts_at(
                lines(input.spec_bytes()),
                start,
            ) && looped(zone, start, points) && strays(zone, points),
        r matches Some(count) ==> exists|zone: Zone, start: Point, points: Seq<Point>, on: Seq<bool>|
            #![trigger looped(zone, start, points), swept(zone.tiles@, zone.cols as int, on, on.len() as int)]
            zone.wf() && drawn(zone, lines(input.spec_bytes())) && starts_at(
                lines(input.spec_bytes()),
                start,
            ) && looped(zone, start, points) && on.len() == zone.tiles@.len() && marked(
                on,
                zone.cols as int,
                points,
            ) && count == swept(zone.tiles@, zone.cols as int, on, on.len() as int).1,
{
    let (zone, start) = match parse_zone(input) {
        Some(read) => read,
        None => {
            return None;
        },
    };
    if !(start.row < zone.rows && start.col < zone.cols) {
        proof {
            assert(drawn(zone, lines(input.spec_bytes())) && !zone.holds(start));
        }
        return None;
    }
    let points = match zone.traverse_loop(start, Direction::Down) {
        Some(points) => points,
        None => {
            proof {
                assert(drawn(zone, lines(input.spec_bytes())) && endless(zone, start));
            }
            return None;
        },
    };
    proof {
        assert(looped(zone, start, points@));
    }
    let size = zone.tiles.len();
    let cols = zone.cols;
    let mut on: Vec<bool> = Vec::new();
    let mut at: usize = 0;
    while at < size
        invariant
            at <= size,
            on@.len() == at,
            forall|k: int| 0 <= k < at ==> !(#[trigger] on@[k]),
        decreases size - at,
    {
        on.push(false);
        at = at + 1;
    }
    let mut k: usize = 0;
    while k < points.len()
        invariant
            k <= points@.len(),
            on@.len() == size,
            size == zone.tiles@.len(),
            cols == zone.cols,
            zone.wf(),
            drawn(zone, lines(input.spec_bytes())),
            starts_at(lines(input.spec_bytes()), start),
            looped(zone, start, points@),
            forall|at: int|
                0 <= at < on@.len() ==> (#[trigger] on@[at] <==> exists|j: int|
                    0 <= j < k && (#[trigger] points@[j]).row * cols + points@[j].col == at),
        decreases points@.len() - k,
    {
        let point = points[k];
        let place = match point.row.checked_mul(cols) {
            Some(place) => place.checked_add(point.col),
            None => None,
        };
        proof {
            if zone.holds(point) {
                assert(point.row * cols + point.col < zone.rows * cols && 0 <= point.row * cols
                    <= zone.rows * cols) by (nonlinear_arith)
                    requires
                        0 <= point.row < zone.rows,
                        0 <= point.col < cols,
                ;
            }
        }
        let place = match place {
            Some(place) => place,
            None => {
                proof {
                    assert(!zone.holds(points@[k as int]));
                }
                return None;
            },
        };
        if place >= size {
            proof {
                assert(!zone.holds(points@[k as int]));
            }
            return None;
        }
        let ghost before = on@;
        on.set(place, true);
        proof {
            assert forall|at: int| 0 <= at < on@.len() implies (#[trigger] on@[at] <==> exists|
                j: int,
            |
                0 <= j < k + 1 && (#[trigger] points@[j]).row * cols + points@[j].col == at) by {
                if at == place {
                    assert(points@[k as int].row * cols + points@[k as int].col == at);
                } else {
                    assert(on@[at] == before[at]);
                    if before[at] {
                        let j = choose|j: int|
                            0 <= j < k && (#[trigger] points@[j]).row * cols + points@[j].col
                                == at;
                        assert(0 <= j < k + 1);
                    }
                }
            }
        }
        k = k + 1;
    }
    proof {
        assert(marked(on@, cols as int, points@));
    }
    if cols == 0 {
        proof {
            assert(swept(zone.tiles@, 0, on@, on@.len() as int) == (LoopParity::Out, 0nat));
        }
        return Some(0);
    }
    let mut count: usize = 0;
    let mut parity = LoopParity::Out;
    let mut at: usize = 0;
    while at < size
        invariant
            at <= size,
            cols >= 1,
            on@.len() == size,
            size == zone.tiles@.len(),
            count <= at,
            (parity, count as nat) == swept(zone.tiles@, cols as int, on@, at as int),
        decreases size - at,
    {
        if at % cols == 0 {
            parity = LoopParity::Out;
        }
        let tile = zone.tiles[at];
        if on[at] {
            let crossing = matches!(tile, Tile::UpDown);
            let riding = !matches!(parity, LoopParity::In | LoopParity::Out);
            if !(riding && crossing) {
                parity = parity.next(tile);
            }
        } else if parity.is_in() {
            count = count + 1;
        }
        at = at + 1;
    }
    Some(count)
}

} // verus!
