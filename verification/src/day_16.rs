//! A beam of light among mirrors and splitters.

use crate::text::{lines, read_grid, rectangle};
use std::collections::{HashSet, VecDeque};
use vstd::prelude::*;
use vstd::set_lib::{lemma_set_subset_finite, FiniteFull};
use vstd::slice::*;
use vstd::string::*;

verus! {

broadcast use vstd::std_specs::hash::group_hash_axioms;

/// The most rows, and the most columns, that a contraption can have.
pub const SIDE: usize = 0x4000_0000;

/// The way in which a beam moves.
#[derive(Clone, Copy, Debug, PartialEq, Eq, Hash, Structural)]
pub enum Direction {
    Up,
    Down,
    Left,
    Right,
}

/// A tile of the contraption.
#[derive(Clone, Copy, Debug, PartialEq, Eq, Hash, Structural)]
pub struct Point {
    pub row: usize,
    pub col: usize,
}

impl Point {
    pub fn new(row: usize, col: usize) -> (r: Self)
        ensures
            r == (Point { row, col }),
    {
        Point { row, col }
    }
}

/// What stands on a tile.
#[derive(Clone, Copy, Debug, PartialEq, Eq, Structural)]
pub enum Tile {
    Empty,
    DownMirror,
    UpMirror,
    UpDownSplitter,
    LeftRightSplitter,
}

impl Tile {
    /// What a character of the plan stands for.
    pub open spec fn of(value: char) -> Option<Tile> {
        if value == '.' {
            Some(Tile::Empty)
        } else if value == '\\' {
            Some(Tile::DownMirror)
        } else if value == '/' {
            Some(Tile::UpMirror)
        } else if value == '|' {
            Some(Tile::UpDownSplitter)
        } else if value == '-' {
            Some(Tile::LeftRightSplitter)
        } else {
            None
        }
    }

    /// What a character of the plan stands for.
    pub fn from(value: char) -> (r: Self)
        requires
            Tile::of(value) is Some,
        ensures
            Some(r) == Tile::of(value),
    {
        if value == '.' {
            Tile::Empty
        } else if value == '\\' {
            Tile::DownMirror
        } else if value == '/' {
            Tile::UpMirror
        } else if value == '|' {
            Tile::UpDownSplitter
        } else {
            Tile::LeftRightSplitter
        }
    }

    /// The ways in which a beam goes on that has come onto this tile moving
    /// in `direction`: one way, or two from the flat side of a splitter.
    pub open spec fn bends(self, direction: Direction) -> Seq<Direction> {
        match (self, direction) {
            (Tile::Empty, _) => seq![direction],
            (Tile::DownMirror, Direction::Right) => seq![Direction::Down],
            (Tile::DownMirror, Direction::Left) => seq![Direction::Up],
            (Tile::DownMirror, Direction::Up) => seq![Direction::Left],
            (Tile::DownMirror, Direction::Down) => seq![Direction::Right],
            (Tile::UpMirror, Direction::Right) => seq![Direction::Up],
            (Tile::UpMirror, Direction::Left) => seq![Direction::Down],
            (Tile::UpMirror, Direction::Up) => seq![Direction::Right],
            (Tile::UpMirror, Direction::Down) => seq![Direction::Left],
            (Tile::UpDownSplitter, Direction::Down) => seq![Direction::Down],
            (Tile::UpDownSplitter, Direction::Up) => seq![Direction::Up],
            (Tile::UpDownSplitter, _) => seq![Direction::Up, Direction::Down],
            (Tile::LeftRightSplitter, Direction::Left) => seq![Direction::Left],
            (Tile::LeftRightSplitter, Direction::Right) => seq![Direction::Right],
            (Tile::LeftRightSplitter, _) => seq![Direction::Left, Direction::Right],
        }
    }

    /// The ways in which a beam goes on from this tile.
    fn turn(self, direction: Direction) -> (r: (Direction, Option<Direction>))
        ensures
            self.bends(direction) == match r.1 {
                Some(second) => seq![r.0, second],
                None => seq![r.0],
            },
    {
        match (self, direction) {
            (Tile::Empty, _) => (direction, None),
            (Tile::DownMirror, Direction::Right) => (Direction::Down, None),
            (Tile::DownMirror, Direction::Left) => (Direction::Up, None),
            (Tile::DownMirror, Direction::Up) => (Direction::Left, None),
            (Tile::DownMirror, Direction::Down) => (Direction::Right, None),
            (Tile::UpMirror, Direction::Right) => (Direction::Up, None),
            (Tile::UpMirror, Direction::Left) => (Direction::Down, None),
            (Tile::UpMirror, Direction::Up) => (Direction::Right, None),
            (Tile::UpMirror, Direction::Down) => (Direction::Left, None),
            (Tile::UpDownSplitter, Direction::Down) => (Direction::Down, None),
            (Tile::UpDownSplitter, Direction::Up) => (Direction::Up, None),
            (Tile::UpDownSplitter, _) => (Direction::Up, Some(Direction::Down)),
            (Tile::LeftRightSplitter, Direction::Left) => (Direction::Left, None),
            (Tile::LeftRightSplitter, Direction::Right) => (Direction::Right, None),
            (Tile::LeftRightSplitter, _) => (Direction::Left, Some(Direction::Right)),
        }
    }
}

/// A beam on a tile, moving in a direction.
#[derive(Clone, Copy, Debug, PartialEq, Eq, Structural)]
pub struct Beam {
    pub point: Point,
    pub direction: Direction,
}

/// A contraption: its tiles, row by row.
pub struct Grid {
    tiles: Vec<Vec<Tile>>,
    rows: usize,
    cols: usize,
}

/// The number of a direction.
pub open spec fn number(direction: Direction) -> nat {
    match direction {
        Direction::Up => 0,
        Direction::Down => 1,
        Direction::Left => 2,
        Direction::Right => 3,
    }
}

/// One number for a tile.
pub open spec fn place(point: Point) -> u64 {
    (point.row * 0x4000_0000 + point.col) as u64
}

/// One number for a beam.
pub open spec fn mark(beam: Beam) -> u64 {
    (place(beam.point) * 4 + number(beam.direction)) as u64
}

/// The tile that has a number.
pub open spec fn tile_at(place: u64) -> Point {
    Point { row: (place / 0x4000_0000) as usize, col: (place % 0x4000_0000) as usize }
}

impl Grid {
    /// How many rows the contraption has.
    pub closed spec fn height(&self) -> nat {
        self.rows as nat
    }

    /// How many columns the contraption has.
    pub closed spec fn width(&self) -> nat {
        self.cols as nat
    }

    /// What stands on the tile at `point`.
    pub closed spec fn tile(&self, point: Point) -> Tile {
        self.tiles@[point.row as int]@[point.col as int]
    }

    /// The contraption is in order: it has a tile, and is no larger than
    /// `SIDE` each way.
    pub closed spec fn wf(&self) -> bool {
        &&& 1 <= self.rows <= SIDE
        &&& 1 <= self.cols <= SIDE
        &&& self.tiles@.len() == self.rows
        &&& forall|row: int| 0 <= row < self.rows ==> (#[trigger] self.tiles@[row])@.len() == self.cols
    }

    /// `point` is a tile of the contraption.
    pub open spec fn holds(&self, point: Point) -> bool {
        point.row < self.height() && point.col < self.width()
    }

    /// The tile next to `point` in `direction`, if the contraption has one.
    pub open spec fn shifted(&self, point: Point, direction: Direction) -> Option<Point> {
        match direction {
            Direction::Up => if point.row > 0 {
                Some(Point { row: (point.row - 1) as usize, col: point.col })
            } else {
                None
            },
            Direction::Down => if point.row < self.height() - 1 {
                Some(Point { row: (point.row + 1) as usize, col: point.col })
            } else {
                None
            },
            Direction::Left => if point.col > 0 {
                Some(Point { row: point.row, col: (point.col - 1) as usize })
            } else {
                None
            },
            Direction::Right => if point.col < self.width() - 1 {
                Some(Point { row: point.row, col: (point.col + 1) as usize })
            } else {
                None
            },
        }
    }

    /// The tile next to `point` in `direction`, if the contraption has one.
    pub fn shift(&self, point: Point, direction: Direction) -> (r: Option<Point>)
        requires
            self.wf(),
        ensures
            r == self.shifted(point, direction),
    {
        match direction {
            Direction::Up => if point.row > 0 {
                Some(Point::new(point.row - 1, point.col))
            } else {
                None
            },
            Direction::Down => if point.row < self.rows - 1 {
                Some(Point::new(point.row + 1, point.col))
            } else {
                None
            },
            Direction::Left => if point.col > 0 {
                Some(Point::new(point.row, point.col - 1))
            } else {
                None
            },
            Direction::Right => if point.col < self.cols - 1 {
                Some(Point::new(point.row, point.col + 1))
            } else {
                None
            },
        }
    }

    /// The beam `to` comes of the beam `from` in one step: `from` bends on
    /// its tile into the direction of `to`, and `to` is on the next tile that
    /// way.
    pub open spec fn leads(&self, from: Beam, to: Beam) -> bool {
        &&& self.tile(from.point).bends(from.direction).contains(to.direction)
        &&& self.shifted(from.point, to.direction) == Some(to.point)
    }

    /// The beams are a way of the light: each comes of the one before it.
    pub open spec fn is_ray(&self, beams: Seq<Beam>) -> bool {
        forall|i: int| 0 <= i && i + 1 < beams.len() ==> self.leads(#[trigger] beams[i], beams[i + 1])
    }

    /// Light that enters as the beam `start` comes to be the beam `beam`.
    pub open spec fn reaches(&self, start: Beam, beam: Beam) -> bool {
        exists|beams: Seq<Beam>| #[trigger]
            self.is_ray(beams) && beams.len() >= 1 && beams[0] == start && beams.last() == beam
    }

    /// The tiles that light comes onto that enters as the beam `start`.
    pub open spec fn lit(&self, start: Beam) -> Set<Point> {
        Set::new(
            |point: Point|
                exists|direction: Direction| #[trigger] self.reaches(start, Beam { point, direction }),
        )
    }
}

/// How many beams have not been followed yet.
pub open spec fn room(seen: Set<u64>) -> nat {
    Set::<u64>::full().difference(seen).len()
}

proof fn lemma_room(seen: Set<u64>, mark: u64)
    requires
        !seen.contains(mark),
    ensures
        room(seen.insert(mark)) < room(seen),
{
    <u64 as FiniteFull>::full_properties();
    let all = Set::<u64>::full();
    let open = all.difference(seen);
    assert(open.subset_of(all));
    lemma_set_subset_finite(all, open);
    assert(open.contains(mark));
    assert(all.difference(seen.insert(mark)) =~= open.remove(mark));
}

/// Beams on tiles within the limits that have one number are one.
proof fn lemma_mark(a: Beam, b: Beam)
    requires
        a.point.row < SIDE,
        a.point.col < SIDE,
        b.point.row < SIDE,
        b.point.col < SIDE,
        mark(a) == mark(b),
    ensures
        a == b,
{
}

/// A tile within the limits is the tile that has its number.
proof fn lemma_place(point: Point)
    requires
        point.row < SIDE,
        point.col < SIDE,
    ensures
        tile_at(place(point)) == point,
{
}

fn code(beam: Beam) -> (r: u64)
    requires
        beam.point.row < SIDE,
        beam.point.col < SIDE,
    ensures
        r == mark(beam),
{
    let direction: u64 = match beam.direction {
        Direction::Up => 0,
        Direction::Down => 1,
        Direction::Left => 2,
        Direction::Right => 3,
    };
    (beam.point.row as u64 * 0x4000_0000 + beam.point.col as u64) * 4 + direction
}

fn spot(point: Point) -> (r: u64)
    requires
        point.row < SIDE,
        point.col < SIDE,
    ensures
        r == place(point),
{
    point.row as u64 * 0x4000_0000 + point.col as u64
}

impl Grid {
    /// What has been followed of the light so far is in order: every beam
    /// followed or waiting is one of the light, every beam that comes of one
    /// followed is followed or waiting, and so is the first; and the tiles
    /// counted are those of the beams followed.
    pub closed spec fn followed(
        &self,
        start: Beam,
        seen: Set<u64>,
        waiting: Seq<Beam>,
        tiles: Set<u64>,
    ) -> bool {
        &&& forall|k: u64| #[trigger]
            seen.contains(k) ==> exists|beam: Beam|
                mark(beam) == k && self.holds(beam.point) && #[trigger] self.reaches(start, beam)
        &&& forall|i: int|
            0 <= i < waiting.len() ==> self.holds((#[trigger] waiting[i]).point) && self.reaches(
                start,
                waiting[i],
            )
        &&& forall|from: Beam, to: Beam|
            self.holds(from.point) && seen.contains(mark(from)) && #[trigger] self.leads(from, to)
                ==> seen.contains(mark(to)) || waiting.contains(to)
        &&& seen.contains(mark(start)) || waiting.contains(start)
        &&& forall|k: u64| #[trigger]
            tiles.contains(k) <==> exists|beam: Beam|
                self.holds(beam.point) && seen.contains(#[trigger] mark(beam)) && place(beam.point)
                    == k
        &&& tiles.finite()
    }

    /// A beam that comes of a beam of the light is one of the light.
    proof fn lemma_leads(&self, start: Beam, from: Beam, to: Beam)
        requires
            self.reaches(start, from),
            self.leads(from, to),
        ensures
            self.reaches(start, to),
    {
        let beams = choose|beams: Seq<Beam>| #[trigger]
            self.is_ray(beams) && beams.len() >= 1 && beams[0] == start && beams.last() == from;
        let longer = beams.push(to);
        assert forall|i: int| 0 <= i && i + 1 < longer.len() implies self.leads(
            #[trigger] longer[i],
            longer[i + 1],
        ) by {
            if i + 1 < beams.len() {
                assert(self.leads(beams[i], beams[i + 1]));
            }
        }
        assert(self.is_ray(longer) && longer[0] == start && longer.last() == to);
    }

    /// Once no beam waits, every beam of the light has been followed.
    proof fn lemma_all_seen(&self, start: Beam, seen: Set<u64>, tiles: Set<u64>, beams: Seq<Beam>)
        requires
            self.wf(),
            self.holds(start.point),
            self.followed(start, seen, Seq::empty(), tiles),
            self.is_ray(beams),
            beams.len() >= 1,
            beams[0] == start,
        ensures
            seen.contains(mark(beams.last())),
            self.holds(beams.last().point),
        decreases beams.len(),
    {
        if beams.len() > 1 {
            let front = beams.drop_last();
            assert forall|i: int| 0 <= i && i + 1 < front.len() implies self.leads(
                #[trigger] front[i],
                front[i + 1],
            ) by {
                assert(self.leads(beams[i], beams[i + 1]));
            }
            self.lemma_all_seen(start, seen, tiles, front);
            let from = front.last();
            let to = beams.last();
            assert(self.leads(beams[beams.len() - 2], beams[beams.len() - 2 + 1]));
            assert(self.leads(from, to));
        }
    }

    /// The beam that comes of `beam` in the direction `direction`, if the
    /// contraption has the tile for it.
    pub open spec fn sent(&self, beam: Beam, direction: Direction) -> Seq<Beam> {
        match self.shifted(beam.point, direction) {
            Some(point) => seq![Beam { point, direction }],
            None => Seq::empty(),
        }
    }

    /// The beams that come of `beam` in one step.
    pub open spec fn next(&self, beam: Beam) -> Seq<Beam> {
        let bends = self.tile(beam.point).bends(beam.direction);
        if bends.len() == 1 {
            self.sent(beam, bends[0])
        } else {
            self.sent(beam, bends[0]) + self.sent(beam, bends[1])
        }
    }

    /// The beams that come of a beam are just those that it leads to.
    proof fn lemma_next(&self, beam: Beam)
        requires
            self.wf(),
            self.holds(beam.point),
        ensures
            forall|to: Beam| #[trigger] self.leads(beam, to) <==> self.next(beam).contains(to),
            forall|i: int| 0 <= i < self.next(beam).len() ==> self.holds(
                (#[trigger] self.next(beam)[i]).point,
            ),
    {
        let bends = self.tile(beam.point).bends(beam.direction);
        let next = self.next(beam);
        assert(bends.len() == 1 || bends.len() == 2);
        assert forall|to: Beam| #[trigger] self.leads(beam, to) implies next.contains(to) by {
            let j = choose|j: int| 0 <= j < bends.len() && bends[j] == to.direction;
            if j == 0 {
                assert(next[0] == to);
            } else {
                assert(self.sent(beam, bends[1])[0] == to);
                assert(next[next.len() - 1] == to);
            }
        }
        assert forall|to: Beam| next.contains(to) implies #[trigger] self.leads(beam, to) by {
            let i = choose|i: int| 0 <= i < next.len() && next[i] == to;
            if i < self.sent(beam, bends[0]).len() {
                assert(to == self.sent(beam, bends[0])[i]);
                assert(bends[0] == to.direction);
            } else {
                assert(to == self.sent(beam, bends[1])[i - self.sent(beam, bends[0]).len()]);
                assert(bends[1] == to.direction);
            }
        }
        assert forall|i: int| 0 <= i < next.len() implies self.holds((#[trigger] next[i]).point) by {
            assert(next.contains(next[i]));
            assert(self.leads(beam, next[i]));
        }
    }

    /// A beam that waits and has been followed before is passed over.
    proof fn lemma_pass(&self, start: Beam, seen: Set<u64>, waiting: Seq<Beam>, tiles: Set<u64>)
        requires
            self.followed(start, seen, waiting, tiles),
            waiting.len() >= 1,
            seen.contains(mark(waiting[0])),
        ensures
            self.followed(start, seen, waiting.skip(1), tiles),
    {
        let rest = waiting.skip(1);
        assert forall|to: Beam| waiting.contains(to) implies to == waiting[0] || rest.contains(
            to,
        ) by {
            let i = choose|i: int| 0 <= i < waiting.len() && waiting[i] == to;
            if i > 0 {
                assert(rest[i - 1] == to);
            }
        }
        assert forall|i: int| 0 <= i < rest.len() implies self.holds((#[trigger] rest[i]).point)
            && self.reaches(start, rest[i]) by {
            assert(rest[i] == waiting[i + 1]);
        }
    }

    /// A beam that waits and has not been followed before is followed: the
    /// beams that come of it wait from now on, and its tile is counted.
    proof fn lemma_follow(&self, start: Beam, seen: Set<u64>, waiting: Seq<Beam>, tiles: Set<u64>)
        requires
            self.wf(),
            self.followed(start, seen, waiting, tiles),
            waiting.len() >= 1,
            !seen.contains(mark(waiting[0])),
        ensures
            self.followed(
                start,
                seen.insert(mark(waiting[0])),
                waiting.skip(1) + self.next(waiting[0]),
                tiles.insert(place(waiting[0].point)),
            ),
    {
        let beam = waiting[0];
        let key = mark(beam);
        let rest = waiting.skip(1);
        let now = rest + self.next(beam);
        let after = seen.insert(key);
        let counted = tiles.insert(place(beam.point));
        self.lemma_next(beam);
        assert(self.holds(beam.point) && self.reaches(start, beam));
        assert forall|to: Beam| waiting.contains(to) implies to == beam || now.contains(to) by {
            let i = choose|i: int| 0 <= i < waiting.len() && waiting[i] == to;
            if i > 0 {
                assert(now[i - 1] == to);
            }
        }
        assert forall|i: int| 0 <= i < now.len() implies self.holds((#[trigger] now[i]).point)
            && self.reaches(start, now[i]) by {
            if i < rest.len() {
                assert(now[i] == waiting[i + 1]);
            } else {
                let to = self.next(beam)[i - rest.len()];
                assert(self.next(beam).contains(to));
                assert(self.leads(beam, to));
                self.lemma_leads(start, beam, to);
            }
        }
        assert forall|k: u64| #[trigger] after.contains(k) implies exists|b: Beam|
            mark(b) == k && self.holds(b.point) && #[trigger] self.reaches(start, b) by {
            if k == key {
                assert(self.reaches(start, beam));
            }
        }
        assert forall|from: Beam, to: Beam|
            self.holds(from.point) && after.contains(mark(from)) && #[trigger] self.leads(
                from,
                to,
            ) implies after.contains(mark(to)) || now.contains(to) by {
            if mark(from) == key {
                lemma_mark(from, beam);
                let i = choose|i: int| 0 <= i < self.next(beam).len() && self.next(beam)[i] == to;
                assert(now[rest.len() + i] == to);
            } else if !seen.contains(mark(to)) {
                assert(waiting.contains(to));
            }
        }
        assert(after.contains(mark(start)) || now.contains(start)) by {
            if !seen.contains(mark(start)) {
                assert(waiting.contains(start));
            }
        }
        assert forall|k: u64| #[trigger]
            counted.contains(k) <==> exists|b: Beam|
                self.holds(b.point) && after.contains(#[trigger] mark(b)) && place(b.point)
                    == k by {
            if counted.contains(k) {
                if k == place(beam.point) {
                    assert(after.contains(mark(beam)));
                } else {
                    let b = choose|b: Beam|
                        self.holds(b.point) && seen.contains(#[trigger] mark(b)) && place(b.point)
                            == k;
                    assert(after.contains(mark(b)));
                }
            }
            if exists|b: Beam|
                self.holds(b.point) && after.contains(#[trigger] mark(b)) && place(b.point) == k {
                let b = choose|b: Beam|
                    self.holds(b.point) && after.contains(#[trigger] mark(b)) && place(b.point)
                        == k;
                if mark(b) == key {
                    lemma_mark(b, beam);
                } else {
                    assert(seen.contains(mark(b)));
                }
            }
        }
    }

    /// Once no beam waits, the tiles counted are as many as the tiles that
    /// the light comes onto.
    proof fn lemma_count(&self, start: Beam, seen: Set<u64>, tiles: Set<u64>)
        requires
            self.wf(),
            self.holds(start.point),
            self.followed(start, seen, Seq::empty(), tiles),
        ensures
            tiles.len() == self.lit(start).len(),
    {
        let lit = self.lit(start);
        assert forall|point: Point| lit.contains(point) implies tiles.contains(place(point))
            && self.holds(point) by {
            let direction = choose|direction: Direction| #[trigger]
                self.reaches(start, Beam { point, direction });
            let beam = Beam { point, direction };
            let beams = choose|beams: Seq<Beam>| #[trigger]
                self.is_ray(beams) && beams.len() >= 1 && beams[0] == start && beams.last() == beam;
            self.lemma_all_seen(start, seen, tiles, beams);
            assert(seen.contains(mark(beam)));
        }
        assert(tiles.map(|k: u64| tile_at(k)) =~= lit) by {
            assert forall|point: Point| tiles.map(|k: u64| tile_at(k)).contains(
                point,
            ) implies lit.contains(point) by {
                let k = choose|k: u64| tiles.contains(k) && tile_at(k) == point;
                let b = choose|b: Beam|
                    self.holds(b.point) && seen.contains(#[trigger] mark(b)) && place(b.point) == k;
                lemma_place(b.point);
                let reached = choose|reached: Beam|
                    mark(reached) == mark(b) && self.holds(reached.point)
                        && #[trigger] self.reaches(start, reached);
                lemma_mark(reached, b);
                assert(self.reaches(start, Beam { point, direction: b.direction }));
            }
            assert forall|point: Point| lit.contains(point) implies tiles.map(
                |k: u64| tile_at(k),
            ).contains(point) by {
                lemma_place(point);
                assert(tiles.contains(place(point)) && tile_at(place(point)) == point);
            }
        }
        assert(vstd::relations::injective_on(|k: u64| tile_at(k), tiles)) by {
            assert forall|a: u64, b: u64|
                tiles.contains(a) && tiles.contains(b) && tile_at(a) == tile_at(b) implies a
                == b by {
                let x = choose|x: Beam|
                    self.holds(x.point) && seen.contains(#[trigger] mark(x)) && place(x.point) == a;
                let y = choose|y: Beam|
                    self.holds(y.point) && seen.contains(#[trigger] mark(y)) && place(y.point) == b;
                lemma_place(x.point);
                lemma_place(y.point);
            }
        }
        vstd::set_lib::lemma_map_size(tiles, lit, |k: u64| tile_at(k));
    }

    /// How many tiles the light comes onto that enters on the tile `start`,
    /// moving in the direction `dir`.
    pub fn propagate_light(&self, start: Point, dir: Direction) -> (r: usize)
        requires
            self.wf(),
            self.holds(start),
        ensures
            r == self.lit(Beam { point: start, direction: dir }).len(),
    {
        let first = Beam { point: start, direction: dir };
        let mut seen: HashSet<u64> = HashSet::new();
        let mut tiles: HashSet<u64> = HashSet::new();
        let mut queue: VecDeque<Beam> = VecDeque::new();
        queue.push_back(first);
        proof {
            let alone = seq![first];
            assert(self.is_ray(alone) && alone[0] == first && alone.last() == first);
            assert(queue@[0] == first);
            assert(self.followed(first, seen@, queue@, tiles@));
        }
        while queue.len() > 0
            invariant
                self.wf(),
                self.followed(first, seen@, queue@, tiles@),
            decreases room(seen@), queue@.len(),
        {
            let ghost waiting = queue@;
            let ghost before = seen@;
            let ghost counted = tiles@;
            let beam = match queue.pop_front() {
                Some(beam) => beam,
                None => first,
            };
            proof {
                assert(beam == waiting[0]);
                assert(queue@ =~= waiting.skip(1));
                self.lemma_held(first, before, waiting, counted);
            }
            let key = code(beam);
            if seen.contains(&key) {
                proof {
                    self.lemma_pass(first, before, waiting, counted);
                }
                continue ;
            }
            seen.insert(key);
            tiles.insert(spot(beam.point));
            let tile = self.tiles[beam.point.row][beam.point.col];
            let (one, other) = tile.turn(beam.direction);
            match self.shift(beam.point, one) {
                Some(point) => {
                    queue.push_back(Beam { point, direction: one });
                },
                None => {},
            }
            match other {
                Some(other) => {
                    match self.shift(beam.point, other) {
                        Some(point) => {
                            queue.push_back(Beam { point, direction: other });
                        },
                        None => {},
                    }
                },
                None => {},
            }
            proof {
                lemma_room(before, key);
                assert(queue@ =~= waiting.skip(1) + self.next(beam));
                self.lemma_follow(first, before, waiting, counted);
            }
        }
        proof {
            assert(queue@ =~= Seq::<Beam>::empty());
            self.lemma_count(first, seen@, tiles@);
        }
        tiles.len()
    }

    /// A beam that waits is on a tile of the contraption.
    proof fn lemma_held(&self, start: Beam, seen: Set<u64>, waiting: Seq<Beam>, tiles: Set<u64>)
        requires
            self.followed(start, seen, waiting, tiles),
            waiting.len() >= 1,
        ensures
            self.holds(waiting[0].point),
    {
    }
}

/// A beam that enters the contraption from outside: on a tile of the first
/// or last column, moving along its row, or on a tile of the first or last
/// row, moving along its column.
pub open spec fn enters(grid: &Grid, beam: Beam) -> bool {
    &&& grid.holds(beam.point)
    &&& match beam.direction {
        Direction::Right => beam.point.col == 0,
        Direction::Left => beam.point.col == grid.width() - 1,
        Direction::Down => beam.point.row == 0,
        Direction::Up => beam.point.row == grid.height() - 1,
    }
}

/// The lines are the plan of a contraption: there is a line, each line is as
/// long as the first, neither are there more than `SIDE` of them nor is one
/// longer, and every byte stands for a tile.
pub open spec fn plan(text: Seq<Seq<u8>>) -> bool {
    &&& rectangle(text, SIDE as nat)
    &&& forall|row: int, col: int|
        0 <= row < text.len() && 0 <= col < text[row].len() ==> Tile::of(
            #[trigger] text[row][col] as char,
        ) is Some
}

impl Grid {
    /// A contraption of these tiles, row by row; `None` where there is no
    /// tile, where the rows are not of one length, or where the contraption
    /// would be larger than `SIDE` one way.
    pub fn new(tiles: Vec<Vec<Tile>>) -> (r: Option<Self>)
        ensures
            r is Some <==> {
                &&& 1 <= tiles@.len() <= SIDE
                &&& 1 <= tiles@[0]@.len() <= SIDE
                &&& forall|row: int|
                    0 <= row < tiles@.len() ==> (#[trigger] tiles@[row])@.len() == tiles@[0]@.len()
            },
            r matches Some(grid) ==> {
                &&& grid.wf()
                &&& grid.height() == tiles@.len()
                &&& grid.width() == tiles@[0]@.len()
                &&& forall|point: Point|
                    grid.holds(point) ==> #[trigger] grid.tile(point) == tiles@[point.row as int]@[point.col as int]
            },
    {
        let rows = tiles.len();
        if rows < 1 || rows > SIDE {
            return None;
        }
        let cols = tiles[0].len();
        if cols < 1 || cols > SIDE {
            return None;
        }
        let mut row: usize = 0;
        while row < rows
            invariant
                row <= rows,
                rows == tiles@.len(),
                cols == tiles@[0]@.len(),
                forall|k: int| 0 <= k < row ==> (#[trigger] tiles@[k])@.len() == cols,
            decreases rows - row,
        {
            if tiles[row].len() != cols {
                return None;
            }
            row = row + 1;
        }
        Some(Grid { tiles, rows, cols })
    }

    /// The contraption is the one that the lines draw: a row for each line
    /// and a tile for each byte.
    pub open spec fn drawn(&self, text: Seq<Seq<u8>>) -> bool {
        &&& self.height() == text.len()
        &&& self.width() == text[0].len()
        &&& forall|point: Point|
            self.holds(point) ==> Tile::of(text[point.row as int][point.col as int] as char)
                == Some(#[trigger] self.tile(point))
    }

    /// Reads a contraption: a line for each row, a byte for each tile.
    /// `None` where the lines are no plan of a contraption.
    pub fn from(value: &str) -> (r: Option<Self>)
        ensures
            match r {
                Some(grid) => grid.wf() && plan(lines(value.spec_bytes())) && grid.drawn(
                    lines(value.spec_bytes()),
                ),
                None => !plan(lines(value.spec_bytes())),
            },
    {
        let read = |byte: u8| -> (tile: Option<Tile>)
            ensures
                tile == Tile::of(byte as char),
            {
                if byte == 0x2e {
                    Some(Tile::Empty)
                } else if byte == 0x5c {
                    Some(Tile::DownMirror)
                } else if byte == 0x2f {
                    Some(Tile::UpMirror)
                } else if byte == 0x7c {
                    Some(Tile::UpDownSplitter)
                } else if byte == 0x2d {
                    Some(Tile::LeftRightSplitter)
                } else {
                    None
                }
            };
        let ghost text = lines(value.spec_bytes());
        match read_grid(value.as_bytes(), read) {
            Some(tiles) => {
                let r = Grid::new(tiles);
                proof {
                    if r is Some {
                        assert forall|row: int, col: int|
                            0 <= row < text.len() && 0 <= col < text[row].len() implies Tile::of(
                            #[trigger] text[row][col] as char,
                        ) is Some by {
                            assert(tiles@[row]@.len() == text[row].len());
                            assert(read.ensures((text[row][col],), Some(tiles@[row]@[col])));
                        }
                        assert forall|row: int| 0 <= row < text.len() implies (#[trigger] text[row]).len()
                            == text[0].len() by {
                            assert(tiles@[row]@.len() == text[row].len());
                            assert(tiles@[0]@.len() == text[0].len());
                        }
                        let grid = r.unwrap();
                        assert forall|point: Point| grid.holds(point) implies Tile::of(
                            text[point.row as int][point.col as int] as char,
                        ) == Some(#[trigger] grid.tile(point)) by {
                            assert(tiles@[point.row as int]@.len() == text[point.row as int].len());
                            assert(read.ensures(
                                (text[point.row as int][point.col as int],),
                                Some(tiles@[point.row as int]@[point.col as int]),
                            ));
                        }
                    } else {
                        if text.len() >= 1 {
                            assert(tiles@[0]@.len() == text[0].len());
                        }
                        if rectangle(text, SIDE as nat) {
                            assert forall|row: int| 0 <= row < tiles@.len() implies (
                            #[trigger] tiles@[row])@.len() == tiles@[0]@.len() by {
                                assert(text[row].len() == text[0].len());
                            }
                        }
                    }
                }
                r
            },
            None => None,
        }
    }

    /// The most tiles that light comes onto, whichever way it enters the
    /// contraption from outside.
    pub fn most_lit(&self) -> (r: usize)
        requires
            self.wf(),
        ensures
            forall|beam: Beam| enters(self, beam) ==> #[trigger] self.lit(beam).len() <= r,
            exists|beam: Beam| enters(self, beam) && #[trigger] self.lit(beam).len() == r,
    {
        let mut most = self.propagate_light(Point::new(0, 0), Direction::Right);
        let ghost best = Beam { point: Point { row: 0, col: 0 }, direction: Direction::Right };
        let mut row: usize = 0;
        while row < self.rows
            invariant
                self.wf(),
                row <= self.rows,
                enters(self, best) && self.lit(best).len() == most,
                forall|beam: Beam|
                    enters(self, beam) && beam.point.row < row && (beam.direction
                        == Direction::Right || beam.direction == Direction::Left)
                        ==> #[trigger] self.lit(beam).len() <= most,
            decreases self.rows - row,
        {
            let energized = self.propagate_light(Point::new(row, 0), Direction::Right);
            if energized > most {
                most = energized;
                proof {
                    best = Beam { point: Point { row, col: 0 }, direction: Direction::Right };
                }
            }
            let energized = self.propagate_light(Point::new(row, self.cols - 1), Direction::Left);
            if energized > most {
                most = energized;
                proof {
                    best =
                    Beam {
                        point: Point { row, col: (self.cols - 1) as usize },
                        direction: Direction::Left,
                    };
                }
            }
            proof {
                assert forall|beam: Beam|
                    enters(self, beam) && beam.point.row < row + 1 && (beam.direction
                        == Direction::Right || beam.direction
                        == Direction::Left) implies #[trigger] self.lit(beam).len() <= most by {
                    if beam.point.row == row {
                        if beam.direction == Direction::Right {
                            assert(beam == Beam {
                                point: Point { row, col: 0 },
                                direction: Direction::Right,
                            });
                        } else {
                            assert(beam == Beam {
                                point: Point { row, col: (self.cols - 1) as usize },
                                direction: Direction::Left,
                            });
                        }
                    }
                }
            }
            row = row + 1;
        }
        let mut col: usize = 0;
        while col < self.cols
            invariant
                self.wf(),
                col <= self.cols,
                enters(self, best) && self.lit(best).len() == most,
                forall|beam: Beam|
                    enters(self, beam) && (beam.direction == Direction::Right || beam.direction
                        == Direction::Left) ==> #[trigger] self.lit(beam).len() <= most,
                forall|beam: Beam|
                    enters(self, beam) && beam.point.col < col && (beam.direction
                        == Direction::Down || beam.direction == Direction::Up)
                        ==> #[trigger] self.lit(beam).len() <= most,
            decreases self.cols - col,
        {
            let energized = self.propagate_light(Point::new(0, col), Direction::Down);
            if energized > most {
                most = energized;
                proof {
                    best = Beam { point: Point { row: 0, col }, direction: Direction::Down };
                }
            }
            let energized = self.propagate_light(Point::new(self.rows - 1, col), Direction::Up);
            if energized > most {
                most = energized;
                proof {
                    best =
                    Beam {
                        point: Point { row: (self.rows - 1) as usize, col },
                        direction: Direction::Up,
                    };
                }
            }
            proof {
                assert forall|beam: Beam|
                    enters(self, beam) && beam.point.col < col + 1 && (beam.direction
                        == Direction::Down || beam.direction
                        == Direction::Up) implies #[trigger] self.lit(beam).len() <= most by {
                    if beam.point.col == col {
                        if beam.direction == Direction::Down {
                            assert(beam == Beam {
                                point: Point { row: 0, col },
                                direction: Direction::Down,
                            });
                        } else {
                            assert(beam == Beam {
                                point: Point { row: (self.rows - 1) as usize, col },
                                direction: Direction::Up,
                            });
                        }
                    }
                }
            }
            col = col + 1;
        }
        most
    }
}

/// How many tiles are lit where light enters the contraption of the text at
/// the top left and goes right. `None` where the lines are no plan of a
/// contraption.
pub fn solve_part1(input: &str) -> (r: Option<usize>)
    ensures
        match r {
            Some(count) => exists|grid: Grid|
                grid.wf() && #[trigger] grid.drawn(lines(input.spec_bytes())) && count == grid.lit(
                    Beam { point: Point { row: 0, col: 0 }, direction: Direction::Right },
                ).len(),
            None => !plan(lines(input.spec_bytes())),
        },
{
    match Grid::from(input) {
        Some(grid) => Some(grid.propagate_light(Point::new(0, 0), Direction::Right)),
        None => None,
    }
}

/// The most tiles that are lit, whichever way light enters the contraption
/// of the text from outside. `None` where the lines are no plan of a
/// contraption.
pub fn solve_part2(input: &str) -> (r: Option<usize>)
    ensures
        match r {
            Some(count) => exists|grid: Grid|
                grid.wf() && #[trigger] grid.drawn(lines(input.spec_bytes())) && (forall|
                    beam: Beam,
                |
                    enters(&grid, beam) ==> #[trigger] grid.lit(beam).len() <= count) && exists|
                    beam: Beam,
                |
                    enters(&grid, beam) && #[trigger] grid.lit(beam).len() == count,
            None => !plan(lines(input.spec_bytes())),
        },
{
    match Grid::from(input) {
        Some(grid) => Some(grid.most_lit()),
        None => None,
    }
}

} // verus!
