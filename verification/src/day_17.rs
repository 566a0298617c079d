//! Steering a crucible through a city with the least loss of heat.

use crate::dijkstra::{lift, Dijkstra, Value};
use crate::laws::{alike, follows, lemma_walk_stays, respects_identity, visits};
use crate::text::{lines, read_grid, rectangle};
use crate::search::{cost_of, end_of, is_walk, start, Graph};
use vstd::prelude::*;
use vstd::slice::*;
use vstd::string::*;

verus! {

/// The most rows, and the most columns, that a city can have.
pub const SIDE: usize = 4096;

/// The way in which a crucible moves.
#[derive(Clone, Copy, Debug, PartialEq, Eq, Structural)]
pub enum Direction {
    Up,
    Down,
    Left,
    Right,
}

impl Direction {
    /// The number of a direction.
    pub open spec fn number(self) -> nat {
        match self {
            Direction::Up => 0,
            Direction::Down => 1,
            Direction::Left => 2,
            Direction::Right => 3,
        }
    }

    /// The two directions into which a crucible can turn.
    pub open spec fn turns(self) -> (Direction, Direction) {
        match self {
            Direction::Up | Direction::Down => (Direction::Left, Direction::Right),
            Direction::Left | Direction::Right => (Direction::Up, Direction::Down),
        }
    }

    fn index(self) -> (r: u32)
        ensures
            r == self.number(),
    {
        match self {
            Direction::Up => 0,
            Direction::Down => 1,
            Direction::Left => 2,
            Direction::Right => 3,
        }
    }

    fn sides(self) -> (r: (Direction, Direction))
        ensures
            r == self.turns(),
    {
        match self {
            Direction::Up | Direction::Down => (Direction::Left, Direction::Right),
            Direction::Left | Direction::Right => (Direction::Up, Direction::Down),
        }
    }
}

/// A block of the city.
#[derive(Clone, Copy, Debug, PartialEq, Eq, Structural)]
pub struct Point {
    pub row: usize,
    pub col: usize,
}

impl Point {
    pub fn new(row: usize, col: usize) -> (r: Self)
        ensures
            r == (Point { row, col }),
    {
        Point { row, col }
    }
}

/// Where a crucible is, the way in which it came there, and how many blocks
/// it has gone that way without a turn.
#[derive(Clone, Copy, Debug, PartialEq, Eq, Structural)]
pub struct Position {
    pub point: Point,
    pub direction: Direction,
    pub count: u8,
}

/// One number for all that a position holds, as long as the city is no
/// larger than `SIDE` each way and the count is below 16.
#[verifier::opaque]
pub open spec fn pack(p: Position) -> u32 {
    ((((p.point.row % 4096) * 4096 + p.point.col % 4096) * 4 + p.direction.number()) * 16 + p.count
        % 16) as u32
}

impl Value for Position {
    open spec fn id_spec(&self) -> u32 {
        pack(*self)
    }

    fn id(&self) -> (r: u32) {
        proof {
            reveal(pack);
        }
        let row = (self.point.row % 4096) as u32;
        let col = (self.point.col % 4096) as u32;
        ((row * 4096 + col) * 4 + self.direction.index()) * 16 + (self.count % 16) as u32
    }
}

/// Two positions within the limits that `pack` to one number are one.
pub proof fn lemma_pack(a: Position, b: Position)
    requires
        a.point.row < SIDE,
        a.point.col < SIDE,
        a.count < 16,
        b.point.row < SIDE,
        b.point.col < SIDE,
        b.count < 16,
        pack(a) == pack(b),
    ensures
        a == b,
{
    reveal(pack);
}

/// A city: the heat that a crucible loses on entering each block.
pub struct Grid {
    rows: usize,
    cols: usize,
    costs: Vec<Vec<u32>>,
}

/// The heat that a byte stands for, if it is a digit.
pub open spec fn heat_of(byte: u8) -> Option<u32> {
    if 0x30 <= byte <= 0x39 {
        Some((byte - 0x30) as u32)
    } else {
        None
    }
}

/// The lines are the plan of a city: there is a line, each line is as long
/// as the first, neither are there more than `SIDE` of them nor is one
/// longer, and every byte is a digit.
pub open spec fn plan(text: Seq<Seq<u8>>) -> bool {
    &&& rectangle(text, SIDE as nat)
    &&& forall|row: int, col: int|
        0 <= row < text.len() && 0 <= col < text[row].len() ==> heat_of(
            #[trigger] text[row][col],
        ) is Some
}

/// The one element of `Some`, nothing of `None`.
pub open spec fn listed<T>(item: Option<T>) -> Seq<T> {
    match item {
        Some(item) => seq![item],
        None => Seq::empty(),
    }
}

impl Grid {
    /// How many rows the city has.
    pub closed spec fn height(&self) -> nat {
        self.rows as nat
    }

    /// How many columns the city has.
    pub closed spec fn width(&self) -> nat {
        self.cols as nat
    }

    /// The heat lost on entering the block at `point`.
    pub closed spec fn heat(&self, point: Point) -> u32 {
        self.costs@[point.row as int]@[point.col as int]
    }

    /// The city is in order: it has a block, and is no larger than `SIDE`
    /// each way.
    pub closed spec fn wf(&self) -> bool {
        &&& 1 <= self.rows <= SIDE
        &&& 1 <= self.cols <= SIDE
        &&& self.costs@.len() == self.rows
        &&& forall|row: int| 0 <= row < self.rows ==> (#[trigger] self.costs@[row])@.len() == self.cols
    }

    /// `point` is a block of the city.
    pub open spec fn holds(&self, point: Point) -> bool {
        point.row < self.height() && point.col < self.width()
    }

    /// A city of the blocks in `costs`, row by row; `None` where there is no
    /// block, where the rows are not of one length, or where the city would
    /// be larger than `SIDE` one way.
    pub fn new(costs: Vec<Vec<u32>>) -> (r: Option<Self>)
        ensures
            r is Some <==> {
                &&& 1 <= costs@.len() <= SIDE
                &&& 1 <= costs@[0]@.len() <= SIDE
                &&& forall|row: int|
                    0 <= row < costs@.len() ==> (#[trigger] costs@[row])@.len() == costs@[0]@.len()
            },
            r matches Some(grid) ==> {
                &&& grid.wf()
                &&& grid.height() == costs@.len()
                &&& grid.width() == costs@[0]@.len()
                &&& forall|point: Point|
                    grid.holds(point) ==> #[trigger] grid.heat(point) == costs@[point.row as int]@[point.col as int]
            },
    {
        let rows = costs.len();
        if rows < 1 || rows > SIDE {
            return None;
        }
        let cols = costs[0].len();
        if cols < 1 || cols > SIDE {
            return None;
        }
        let mut row: usize = 0;
        while row < rows
            invariant
                row <= rows,
                rows == costs@.len(),
                cols == costs@[0]@.len(),
                forall|k: int| 0 <= k < row ==> (#[trigger] costs@[k])@.len() == cols,
            decreases rows - row,
        {
            if costs[row].len() != cols {
                return None;
            }
            row = row + 1;
        }
        Some(Grid { rows, cols, costs })
    }

    /// The city is the one that the lines draw: a row for each line and a
    /// block for each digit, with the heat that the digit gives.
    pub open spec fn drawn(&self, text: Seq<Seq<u8>>) -> bool {
        &&& self.height() == text.len()
        &&& self.width() == text[0].len()
        &&& forall|point: Point|
            self.holds(point) ==> heat_of(text[point.row as int][point.col as int]) == Some(
                #[trigger] self.heat(point),
            )
    }

    /// Reads a city: a line of digits for each row, each digit the heat lost
    /// on entering that block. `None` where the lines are no plan of a city.
    pub fn from(value: &str) -> (r: Option<Self>)
        ensures
            match r {
                Some(grid) => grid.wf() && plan(lines(value.spec_bytes())) && grid.drawn(
                    lines(value.spec_bytes()),
                ),
                None => !plan(lines(value.spec_bytes())),
            },
    {
        let read = |byte: u8| -> (heat: Option<u32>)
            ensures
                heat == heat_of(byte),
            {
                if 0x30 <= byte && byte <= 0x39 {
                    Some((byte - 0x30) as u32)
                } else {
                    None
                }
            };
        let ghost text = lines(value.spec_bytes());
        match read_grid(value.as_bytes(), read) {
            Some(costs) => {
                let r = Grid::new(costs);
                proof {
                    if r is Some {
                        assert forall|row: int, col: int|
                            0 <= row < text.len() && 0 <= col < text[row].len() implies heat_of(
                            #[trigger] text[row][col],
                        ) is Some by {
                            assert(costs@[row]@.len() == text[row].len());
                            assert(read.ensures((text[row][col],), Some(costs@[row]@[col])));
                        }
                        assert forall|row: int| 0 <= row < text.len() implies (#[trigger] text[row]).len()
                            == text[0].len() by {
                            assert(costs@[row]@.len() == text[row].len());
                            assert(costs@[0]@.len() == text[0].len());
                        }
                        let grid = r.unwrap();
                        assert forall|point: Point| grid.holds(point) implies heat_of(
                            text[point.row as int][point.col as int],
                        ) == Some(#[trigger] grid.heat(point)) by {
                            assert(costs@[point.row as int]@.len() == text[point.row as int].len());
                            assert(read.ensures(
                                (text[point.row as int][point.col as int],),
                                Some(costs@[point.row as int]@[point.col as int]),
                            ));
                        }
                    } else {
                        if text.len() >= 1 {
                            assert(costs@[0]@.len() == text[0].len());
                        }
                        if rectangle(text, SIDE as nat) {
                            assert forall|row: int| 0 <= row < costs@.len() implies (
                            #[trigger] costs@[row])@.len() == costs@[0]@.len() by {
                                assert(text[row].len() == text[0].len());
                            }
                        }
                    }
                }
                r
            },
            None => None,
        }
    }

    /// The destination is the last block of the last row.
    pub open spec fn is_destination(&self, point: Point) -> bool {
        point.row == self.height() - 1 && point.col == self.width() - 1
    }

    /// Whether `point` is the destination.
    pub fn destination(&self, point: Point) -> (r: bool)
        requires
            self.wf(),
        ensures
            r == self.is_destination(point),
    {
        point.row == self.rows - 1 && point.col == self.cols - 1
    }

    /// The block next to `point` in `direction`, if the city has one.
    pub open spec fn shifted(&self, point: Point, direction: Direction) -> Option<Point> {
        match direction {
            Direction::Up => if point.row > 0 {
                Some(Point { row: (point.row - 1) as usize, col: point.col })
            } else {
                None
            },
            Direction::Down => if point.row < self.height() - 1 {
                Some(Point { row: (point.row + 1) as usize, col: point.col })
            } else {
                None
            },
            Direction::Left => if point.col > 0 {
                Some(Point { row: point.row, col: (point.col - 1) as usize })
            } else {
                None
            },
            Direction::Right => if point.col < self.width() - 1 {
                Some(Point { row: point.row, col: (point.col + 1) as usize })
            } else {
                None
            },
        }
    }

    /// The block next to `point` in `direction`, if the city has one.
    pub fn shift(&self, point: Point, direction: Direction) -> (r: Option<Point>)
        requires
            self.wf(),
        ensures
            r == self.shifted(point, direction),
    {
        match direction {
            Direction::Up => if point.row > 0 {
                Some(Point::new(point.row - 1, point.col))
            } else {
                None
            },
            Direction::Down => if point.row < self.rows - 1 {
                Some(Point::new(point.row + 1, point.col))
            } else {
                None
            },
            Direction::Left => if point.col > 0 {
                Some(Point::new(point.row, point.col - 1))
            } else {
                None
            },
            Direction::Right => if point.col < self.cols - 1 {
                Some(Point::new(point.row, point.col + 1))
            } else {
                None
            },
        }
    }

    /// The move from `point` one block in `direction`, as the `count`th block
    /// that way: where it leads and the heat it loses, if the city has that
    /// block.
    pub open spec fn moved(&self, point: Point, direction: Direction, count: u8) -> Option<
        (Position, u32),
    > {
        match self.shifted(point, direction) {
            Some(next) => Some((Position { point: next, direction, count }, self.heat(next))),
            None => None,
        }
    }

    /// The move from `point` one block in `direction`, if the city has that
    /// block.
    pub fn generate_neighbor(&self, point: Point, direction: Direction, count: u8) -> (r: Option<
        (Position, u32),
    >)
        requires
            self.wf(),
            self.holds(point),
        ensures
            r == self.moved(point, direction, count),
            r matches Some(step) ==> self.holds(step.0.point),
    {
        match self.shift(point, direction) {
            Some(next) => {
                let cost = self.costs[next.row][next.col];
                Some((Position { point: next, direction, count }, cost))
            },
            None => None,
        }
    }

    /// A crucible can be at `position`: on a block of the city, after at most
    /// three blocks one way, and not upwards without having moved.
    pub open spec fn admits1(&self, position: Position) -> bool {
        &&& self.holds(position.point)
        &&& position.count <= 3
        &&& !(position.direction == Direction::Up && position.count == 0)
    }

    /// The moves of a crucible: straight on, unless it has gone three blocks
    /// that way, and into either turn.
    pub open spec fn moves1(&self, position: Position) -> Seq<(Position, u32)> {
        let (a, b) = position.direction.turns();
        let point = position.point;
        (if position.count < 3 {
            listed(self.moved(point, position.direction, (position.count + 1) as u8))
        } else {
            Seq::empty()
        }) + listed(self.moved(point, a, 1)) + listed(self.moved(point, b, 1))
    }

    /// An ultra crucible can be at `position`: on a block of the city, after
    /// at most ten blocks one way.
    pub open spec fn admits2(&self, position: Position) -> bool {
        &&& self.holds(position.point)
        &&& position.count <= 10
    }

    /// The moves of an ultra crucible: any way before it has moved; else
    /// straight on, unless it has gone ten blocks that way, and into either
    /// turn, once it has gone four.
    pub open spec fn moves2(&self, position: Position) -> Seq<(Position, u32)> {
        let (a, b) = position.direction.turns();
        let point = position.point;
        if position.count == 0 {
            listed(self.moved(point, Direction::Up, 1)) + listed(
                self.moved(point, Direction::Down, 1),
            ) + listed(self.moved(point, Direction::Left, 1)) + listed(
                self.moved(point, Direction::Right, 1),
            )
        } else {
            (if position.count < 10 {
                listed(self.moved(point, position.direction, (position.count + 1) as u8))
            } else {
                Seq::empty()
            }) + (if position.count >= 4 {
                listed(self.moved(point, a, 1)) + listed(self.moved(point, b, 1))
            } else {
                Seq::empty()
            })
        }
    }

    /// Adds the move from `point` in `direction` to `options`, if the city
    /// has that block.
    fn extend(&self, options: &mut Vec<(Position, u32)>, point: Point, direction: Direction, count: u8)
        requires
            self.wf(),
            self.holds(point),
        ensures
            final(options)@ == old(options)@ + listed(self.moved(point, direction, count)),
    {
        match self.generate_neighbor(point, direction, count) {
            Some(step) => {
                options.push(step);
                proof {
                    assert(options@ =~= old(options)@ + seq![step]);
                }
            },
            None => {
                proof {
                    assert(options@ =~= old(options)@ + Seq::<(Position, u32)>::empty());
                }
            },
        }
    }

    /// The moves of a crucible at `position`.
    pub fn neighbors_part1(&self, position: Position) -> (r: Vec<(Position, u32)>)
        requires
            self.wf(),
            self.admits1(position),
        ensures
            r@ == self.moves1(position),
    {
        let mut options = Vec::with_capacity(3);
        let (a, b) = position.direction.sides();
        if position.count < 3 {
            self.extend(&mut options, position.point, position.direction, position.count + 1);
        }
        proof {
            assert(options@ =~= Seq::<(Position, u32)>::empty() + options@);
        }
        self.extend(&mut options, position.point, a, 1);
        self.extend(&mut options, position.point, b, 1);
        options
    }

    /// The moves of an ultra crucible at `position`.
    pub fn neighbors_part2(&self, position: Position) -> (r: Vec<(Position, u32)>)
        requires
            self.wf(),
            self.admits2(position),
        ensures
            r@ == self.moves2(position),
    {
        let mut options = Vec::with_capacity(4);
        let point = position.point;
        let (a, b) = position.direction.sides();
        if position.count == 0 {
            self.extend(&mut options, point, Direction::Up, 1);
            proof {
                assert(options@ =~= listed(self.moved(point, Direction::Up, 1)));
            }
            self.extend(&mut options, point, Direction::Down, 1);
            self.extend(&mut options, point, Direction::Left, 1);
            self.extend(&mut options, point, Direction::Right, 1);
        } else {
            if position.count < 10 {
                self.extend(&mut options, point, position.direction, position.count + 1);
            }
            let ghost straight = options@;
            proof {
                assert(straight =~= Seq::<(Position, u32)>::empty() + straight);
            }
            if position.count >= 4 {
                self.extend(&mut options, point, a, 1);
                self.extend(&mut options, point, b, 1);
                proof {
                    assert(options@ =~= straight + (listed(self.moved(point, a, 1)) + listed(
                        self.moved(point, b, 1),
                    )));
                }
            } else {
                proof {
                    assert(options@ =~= straight + Seq::<(Position, u32)>::empty());
                }
            }
        }
        options
    }

    /// Whether a crucible can be at `position`.
    fn allows1(&self, position: &Position) -> (r: bool)
        requires
            self.wf(),
        ensures
            r == self.admits1(*position),
    {
        position.point.row < self.rows && position.point.col < self.cols && position.count <= 3 && !(
        position.direction == Direction::Up && position.count == 0)
    }

    /// Whether an ultra crucible can be at `position`.
    fn allows2(&self, position: &Position) -> (r: bool)
        requires
            self.wf(),
        ensures
            r == self.admits2(*position),
    {
        position.point.row < self.rows && position.point.col < self.cols && position.count <= 10
    }

    /// The graph of a crucible's ways through the city: it has reached its
    /// goal on the destination, and moves as `moves1` says.
    pub open spec fn graph1(&self) -> Graph<Position> {
        Graph {
            goal: |position: Position| self.is_destination(position.point),
            edges: |position: Position|
                if self.admits1(position) {
                    self.moves1(position)
                } else {
                    Seq::empty()
                },
        }
    }

    /// The graph of an ultra crucible's ways through the city: it has
    /// reached its goal on the destination, and moves as `moves2` says.
    pub open spec fn graph2(&self) -> Graph<Position> {
        Graph {
            goal: |position: Position| self.is_destination(position.point),
            edges: |position: Position|
                if self.admits2(position) {
                    self.moves2(position)
                } else {
                    Seq::empty()
                },
        }
    }

    /// The least heat that a crucible loses on its way from the first block
    /// to the destination; `None` where no way leads there.
    pub fn least_heat_part1(&self) -> (r: Option<u64>)
        requires
            self.wf(),
        ensures
            least_over(self.graph1(), r),
    {
        let success = |position: &Position| -> (r: bool)
            ensures
                r == self.is_destination(position.point),
            { self.destination(position.point) };
        let neighbors = |position: &Position| -> (out: Vec<(Position, u32)>)
            ensures
                out@ == (self.graph1().edges)(*position),
            {
                if self.allows1(position) {
                    self.neighbors_part1(*position)
                } else {
                    Vec::new()
                }
            };
        let mut search = Dijkstra::new(origin_exec(), success, neighbors);
        let ghost g = self.graph1();
        proof {
            assert(search.searches(g));
            self.lemma_respects1();
        }
        let found = search.next();
        proof {
            assert(follows(g, origin(), start(origin()), lift(found), search@));
        }
        match found {
            Some((_, heat)) => Some(heat),
            None => None,
        }
    }

    /// The least heat that an ultra crucible loses on its way from the first
    /// block to the destination; `None` where no way leads there.
    pub fn least_heat_part2(&self) -> (r: Option<u64>)
        requires
            self.wf(),
        ensures
            least_over(self.graph2(), r),
    {
        let success = |position: &Position| -> (r: bool)
            ensures
                r == self.is_destination(position.point),
            { self.destination(position.point) };
        let neighbors = |position: &Position| -> (out: Vec<(Position, u32)>)
            ensures
                out@ == (self.graph2().edges)(*position),
            {
                if self.allows2(position) {
                    self.neighbors_part2(*position)
                } else {
                    Vec::new()
                }
            };
        let mut search = Dijkstra::new(origin_exec(), success, neighbors);
        let ghost g = self.graph2();
        proof {
            assert(search.searches(g));
            self.lemma_respects2();
        }
        let found = search.next();
        proof {
            assert(follows(g, origin(), start(origin()), lift(found), search@));
        }
        match found {
            Some((_, heat)) => Some(heat),
            None => None,
        }
    }

    /// A move leads to a block of the city, in the direction and at the
    /// count asked for.
    proof fn lemma_moved(&self, point: Point, direction: Direction, count: u8)
        requires
            self.wf(),
            self.holds(point),
        ensures
            self.moved(point, direction, count) matches Some(step) ==> self.holds(step.0.point)
                && step.0.direction == direction && step.0.count == count,
    {
    }

    /// A crucible stays where the city admits it.
    proof fn lemma_home1(&self, a: Position, k: int)
        requires
            self.wf(),
            self.admits1(a),
            0 <= k < self.moves1(a).len(),
        ensures
            self.admits1(self.moves1(a)[k].0),
    {
        let (x, y) = a.direction.turns();
        let ahead = if a.count < 3 {
            self.moved(a.point, a.direction, (a.count + 1) as u8)
        } else {
            None
        };
        self.lemma_moved(a.point, a.direction, (a.count + 1) as u8);
        self.lemma_moved(a.point, x, 1);
        self.lemma_moved(a.point, y, 1);
        assert(self.moves1(a) =~= listed(ahead) + listed(self.moved(a.point, x, 1)) + listed(
            self.moved(a.point, y, 1),
        ));
        lemma_listed(ahead, self.moved(a.point, x, 1), self.moved(a.point, y, 1), k);
    }

    /// An ultra crucible stays where the city admits it.
    proof fn lemma_home2(&self, a: Position, k: int)
        requires
            self.wf(),
            self.admits2(a),
            0 <= k < self.moves2(a).len(),
        ensures
            self.admits2(self.moves2(a)[k].0),
    {
        let (x, y) = a.direction.turns();
        if a.count == 0 {
            let up = self.moved(a.point, Direction::Up, 1);
            let down = self.moved(a.point, Direction::Down, 1);
            let left = self.moved(a.point, Direction::Left, 1);
            let right = self.moved(a.point, Direction::Right, 1);
            self.lemma_moved(a.point, Direction::Up, 1);
            self.lemma_moved(a.point, Direction::Down, 1);
            self.lemma_moved(a.point, Direction::Left, 1);
            self.lemma_moved(a.point, Direction::Right, 1);
            let first = listed(up) + listed(down) + listed(left);
            assert(self.moves2(a) =~= first + listed(right));
            if k < first.len() {
                lemma_listed(up, down, left, k);
            }
        } else {
            let ahead = if a.count < 10 {
                self.moved(a.point, a.direction, (a.count + 1) as u8)
            } else {
                None
            };
            let left = if a.count >= 4 {
                self.moved(a.point, x, 1)
            } else {
                None
            };
            let right = if a.count >= 4 {
                self.moved(a.point, y, 1)
            } else {
                None
            };
            self.lemma_moved(a.point, a.direction, (a.count + 1) as u8);
            self.lemma_moved(a.point, x, 1);
            self.lemma_moved(a.point, y, 1);
            assert(self.moves2(a) =~= listed(ahead) + listed(left) + listed(right));
            lemma_listed(ahead, left, right, k);
        }
    }

    /// Every walk of the graph ends where the city admits it.
    proof fn lemma_stays1(&self, path: Seq<(Position, u32)>)
        requires
            self.wf(),
            is_walk(self.graph1(), origin(), path),
        ensures
            self.admits1(end_of(origin(), path)),
    {
        let g = self.graph1();
        let home = |position: Position| self.admits1(position);
        assert forall|a: Position, k: int|
            home(a) && !(g.goal)(a) && 0 <= k < (g.edges)(a).len() implies home(
            (#[trigger] (g.edges)(a)[k]).0,
        ) by {
            self.lemma_home1(a, k);
        }
        lemma_walk_stays(g, origin(), path, home);
    }

    /// No two positions that a walk of the graph can end at share an
    /// identity.
    proof fn lemma_respects1(&self)
        requires
            self.wf(),
        ensures
            respects_identity(self.graph1(), origin()),
    {
        let g = self.graph1();
        assert forall|a: Position, b: Position|
            visits(g, origin(), a) && visits(g, origin(), b) && a.id_spec()
                == b.id_spec() implies #[trigger] alike(g, a, b) by {
            let pa = choose|path: Seq<(Position, u32)>| #[trigger]
                is_walk(g, origin(), path) && end_of(origin(), path) == a;
            let pb = choose|path: Seq<(Position, u32)>| #[trigger]
                is_walk(g, origin(), path) && end_of(origin(), path) == b;
            self.lemma_stays1(pa);
            self.lemma_stays1(pb);
            self.lemma_one(a, b);
            lemma_alike(g, a);
        }
    }

    /// Two positions on blocks of the city, with counts below 16 and one
    /// identity, are one.
    proof fn lemma_one(&self, a: Position, b: Position)
        requires
            self.wf(),
            self.holds(a.point),
            self.holds(b.point),
            a.count < 16,
            b.count < 16,
            a.id_spec() == b.id_spec(),
        ensures
            a == b,
    {
        lemma_pack(a, b);
    }

    /// Every walk of the graph ends where the city admits it.
    proof fn lemma_stays2(&self, path: Seq<(Position, u32)>)
        requires
            self.wf(),
            is_walk(self.graph2(), origin(), path),
        ensures
            self.admits2(end_of(origin(), path)),
    {
        let g = self.graph2();
        let home = |position: Position| self.admits2(position);
        assert forall|a: Position, k: int|
            home(a) && !(g.goal)(a) && 0 <= k < (g.edges)(a).len() implies home(
            (#[trigger] (g.edges)(a)[k]).0,
        ) by {
            self.lemma_home2(a, k);
        }
        lemma_walk_stays(g, origin(), path, home);
    }

    /// No two positions that a walk of the graph can end at share an
    /// identity.
    proof fn lemma_respects2(&self)
        requires
            self.wf(),
        ensures
            respects_identity(self.graph2(), origin()),
    {
        let g = self.graph2();
        assert forall|a: Position, b: Position|
            visits(g, origin(), a) && visits(g, origin(), b) && a.id_spec()
                == b.id_spec() implies #[trigger] alike(g, a, b) by {
            let pa = choose|path: Seq<(Position, u32)>| #[trigger]
                is_walk(g, origin(), path) && end_of(origin(), path) == a;
            let pb = choose|path: Seq<(Position, u32)>| #[trigger]
                is_walk(g, origin(), path) && end_of(origin(), path) == b;
            self.lemma_stays2(pa);
            self.lemma_stays2(pb);
            self.lemma_one(a, b);
            lemma_alike(g, a);
        }
    }
}

/// What stands at a place of three options listed one after the other is one
/// of them.
proof fn lemma_listed<T>(x: Option<T>, y: Option<T>, z: Option<T>, k: int)
    requires
        0 <= k < (listed(x) + listed(y) + listed(z)).len(),
    ensures
        ({
            let all = listed(x) + listed(y) + listed(z);
            ||| x == Some(all[k])
            ||| y == Some(all[k])
            ||| z == Some(all[k])
        }),
{
}

/// Where a crucible sets out: on the first block, not having moved.
pub open spec fn origin() -> Position {
    Position { point: Point { row: 0, col: 0 }, direction: Direction::Left, count: 0 }
}

#[verifier::when_used_as_spec(origin)]
fn origin_exec() -> (r: Position)
    ensures
        r == origin(),
{
    Position { point: Point::new(0, 0), direction: Direction::Left, count: 0 }
}

/// `heat` is the least that a walk over `g` from the origin to a goal costs;
/// `None` where no walk ends at a goal.
pub open spec fn least_over(g: Graph<Position>, heat: Option<u64>) -> bool {
    match heat {
        Some(heat) => {
            &&& exists|path: Seq<(Position, u32)>| #[trigger]
                is_walk(g, origin(), path) && (g.goal)(end_of(origin(), path)) && cost_of(path)
                    == heat
            &&& forall|path: Seq<(Position, u32)>| #[trigger]
                is_walk(g, origin(), path) && (g.goal)(end_of(origin(), path)) ==> heat
                    <= cost_of(path)
        },
        None => forall|path: Seq<(Position, u32)>| #[trigger]
            is_walk(g, origin(), path) ==> !(g.goal)(end_of(origin(), path)),
    }
}

/// A state is like itself.
proof fn lemma_alike(g: Graph<Position>, a: Position)
    ensures
        alike(g, a, a),
{
    assert forall|k: int| 0 <= k < (g.edges)(a).len() implies crate::laws::has_edge(
        g,
        a,
        (#[trigger] (g.edges)(a)[k]).0.id_spec(),
        (g.edges)(a)[k].1,
    ) by {
        let out = (g.edges)(a);
        assert(out[k].0.id_spec() == out[k].0.id_spec());
    }
}

/// The least heat that a crucible loses on its way through the city of the
/// text; `None` where it cannot come through, or where the lines are no plan
/// of a city.
pub fn solve_part1(input: &str) -> (r: Option<u64>)
    ensures
        plan(lines(input.spec_bytes())) ==> exists|grid: Grid|
            grid.wf() && #[trigger] grid.drawn(lines(input.spec_bytes())) && least_over(
                grid.graph1(),
                r,
            ),
        !plan(lines(input.spec_bytes())) ==> r is None,
{
    match Grid::from(input) {
        Some(grid) => grid.least_heat_part1(),
        None => None,
    }
}

/// The least heat that an ultra crucible loses on its way through the city
/// of the text; `None` where it cannot come through, or where the lines are
/// no plan of a city.
pub fn solve_part2(input: &str) -> (r: Option<u64>)
    ensures
        plan(lines(input.spec_bytes())) ==> exists|grid: Grid|
            grid.wf() && #[trigger] grid.drawn(lines(input.spec_bytes())) && least_over(
                grid.graph2(),
                r,
            ),
        !plan(lines(input.spec_bytes())) ==> r is None,
{
    match Grid::from(input) {
        Some(grid) => grid.least_heat_part2(),
        None => None,
    }
}

} // verus!
