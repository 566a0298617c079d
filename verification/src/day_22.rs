//! Bricks of sand that fall and come to rest on each other.

use crate::text::{lines, numbers_in, read_numbers, rows_of, split_lines};
use vstd::prelude::*;
use vstd::slice::*;
use vstd::string::*;

verus! {

/// A cube of space.
#[derive(Clone, Copy, Debug, PartialEq, Eq, Structural)]
pub struct Point {
    pub x: usize,
    pub y: usize,
    pub z: usize,
}

impl Point {
    /// The cube below this one.
    pub open spec fn below(self) -> Point {
        Point { x: self.x, y: self.y, z: (self.z - 1) as usize }
    }

    /// The cube below this one.
    pub fn drop(self) -> (r: Self)
        requires
            self.z >= 1,
        ensures
            r == self.below(),
    {
        Point { x: self.x, y: self.y, z: self.z - 1 }
    }
}

/// The numbers from `start` to `end`, both among them.
#[derive(Clone, Copy, Debug, PartialEq, Eq, Structural)]
pub struct Span {
    pub start: usize,
    pub end: usize,
}

impl Span {
    /// `value` is one of the numbers.
    pub open spec fn has(self, value: usize) -> bool {
        self.start <= value <= self.end
    }

    /// How many numbers there are.
    pub open spec fn count(self) -> nat {
        if self.start <= self.end {
            (self.end - self.start + 1) as nat
        } else {
            0
        }
    }
}

/// A brick: a row of cubes along one of the three axes.
#[derive(Clone, Copy, Debug, PartialEq, Eq, Structural)]
#[allow(inconsistent_fields)]
pub enum Brick {
    X { x: Span, y: usize, z: usize },
    Y { x: usize, y: Span, z: usize },
    Z { x: usize, y: usize, z: Span },
}

impl Brick {
    /// The cube is one of the brick.
    pub open spec fn holds(self, point: Point) -> bool {
        match self {
            Brick::X { x, y, z } => point.y == y && point.z == z && x.has(point.x),
            Brick::Y { x, y, z } => point.x == x && point.z == z && y.has(point.y),
            Brick::Z { x, y, z } => point.x == x && point.y == y && z.has(point.z),
        }
    }

    /// Whether the cube is one of the brick.
    pub fn overlaps(&self, point: Point) -> (r: bool)
        ensures
            r == self.holds(point),
    {
        match self {
            Brick::X { x, y, z } => point.y == *y && point.z == *z && x.start <= point.x && point.x
                <= x.end,
            Brick::Y { x, y, z } => point.x == *x && point.z == *z && y.start <= point.y && point.y
                <= y.end,
            Brick::Z { x, y, z } => point.x == *x && point.y == *y && z.start <= point.z && point.z
                <= z.end,
        }
    }

    /// The cubes of the brick that have none of it below them.
    pub open spec fn base(self) -> Seq<Point> {
        match self {
            Brick::X { x, y, z } => Seq::new(
                x.count(),
                |i: int| Point { x: (x.start + i) as usize, y, z },
            ),
            Brick::Y { x, y, z } => Seq::new(
                y.count(),
                |i: int| Point { x, y: (y.start + i) as usize, z },
            ),
            Brick::Z { x, y, z } => seq![Point { x, y, z: z.start }],
        }
    }

    /// The cubes of the brick that have none of it below them.
    pub fn footprint(&self) -> (r: Vec<Point>)
        ensures
            r@ == self.base(),
    {
        let mut r: Vec<Point> = Vec::new();
        match self {
            Brick::X { x, y, z } => {
                if x.start <= x.end {
                    let mut at = x.start;
                    while at < x.end
                        invariant
                            x.start <= at <= x.end,
                            r@ == Seq::new(
                                (at - x.start) as nat,
                                |i: int| Point { x: (x.start + i) as usize, y: *y, z: *z },
                            ),
                        decreases x.end - at,
                    {
                        r.push(Point { x: at, y: *y, z: *z });
                        at = at + 1;
                        proof {
                            assert(r@ =~= Seq::new(
                                (at - x.start) as nat,
                                |i: int| Point { x: (x.start + i) as usize, y: *y, z: *z },
                            ));
                        }
                    }
                    r.push(Point { x: at, y: *y, z: *z });
                }
                proof {
                    assert(r@ =~= self.base());
                }
            },
            Brick::Y { x, y, z } => {
                if y.start <= y.end {
                    let mut at = y.start;
                    while at < y.end
                        invariant
                            y.start <= at <= y.end,
                            r@ == Seq::new(
                                (at - y.start) as nat,
                                |i: int| Point { x: *x, y: (y.start + i) as usize, z: *z },
                            ),
                        decreases y.end - at,
                    {
                        r.push(Point { x: *x, y: at, z: *z });
                        at = at + 1;
                        proof {
                            assert(r@ =~= Seq::new(
                                (at - y.start) as nat,
                                |i: int| Point { x: *x, y: (y.start + i) as usize, z: *z },
                            ));
                        }
                    }
                    r.push(Point { x: *x, y: at, z: *z });
                }
                proof {
                    assert(r@ =~= self.base());
                }
            },
            Brick::Z { x, y, z } => {
                r.push(Point { x: *x, y: *y, z: z.start });
                proof {
                    assert(r@ =~= self.base());
                }
            },
        }
        r
    }

    /// The height of the lowest cube of the brick.
    pub open spec fn bottom(self) -> usize {
        match self {
            Brick::X { z, .. } => z,
            Brick::Y { z, .. } => z,
            Brick::Z { z, .. } => z.start,
        }
    }

    /// The height of the lowest cube of the brick.
    pub fn lowest_z(&self) -> (r: usize)
        ensures
            r == self.bottom(),
    {
        match self {
            Brick::X { z, .. } => *z,
            Brick::Y { z, .. } => *z,
            Brick::Z { z, .. } => z.start,
        }
    }

    /// The brick one cube lower.
    pub open spec fn lowered(self) -> Brick {
        match self {
            Brick::X { x, y, z } => Brick::X { x, y, z: (z - 1) as usize },
            Brick::Y { x, y, z } => Brick::Y { x, y, z: (z - 1) as usize },
            Brick::Z { x, y, z } => Brick::Z {
                x,
                y,
                z: Span { start: (z.start - 1) as usize, end: (z.end - 1) as usize },
            },
        }
    }

    /// The brick is in order: it has a cube, and stands above the ground.
    pub open spec fn wf(self) -> bool {
        &&& self.bottom() >= 1
        &&& match self {
            Brick::X { x, .. } => x.start <= x.end,
            Brick::Y { y, .. } => y.start <= y.end,
            Brick::Z { z, .. } => z.start <= z.end,
        }
    }

    /// Moves the brick one cube down.
    pub fn drop(&mut self)
        requires
            old(self).wf(),
        ensures
            *final(self) == old(self).lowered(),
    {
        let lower = match *self {
            Brick::X { x, y, z } => Brick::X { x, y, z: z - 1 },
            Brick::Y { x, y, z } => Brick::Y { x, y, z: z - 1 },
            Brick::Z { x, y, z } => Brick::Z { x, y, z: Span { start: z.start - 1, end: z.end - 1 } },
        };
        *self = lower;
    }

    /// The brick between two cubes: along the first axis in which they
    /// differ, and with the other two coordinates of the first cube.
    pub open spec fn between(start: Point, end: Point) -> Brick {
        if start.x < end.x {
            Brick::X { x: Span { start: start.x, end: end.x }, y: start.y, z: start.z }
        } else if start.x > end.x {
            Brick::X { x: Span { start: end.x, end: start.x }, y: start.y, z: start.z }
        } else if start.y < end.y {
            Brick::Y { x: start.x, y: Span { start: start.y, end: end.y }, z: start.z }
        } else if start.y > end.y {
            Brick::Y { x: start.x, y: Span { start: end.y, end: start.y }, z: start.z }
        } else if start.z < end.z {
            Brick::Z { x: start.x, y: start.y, z: Span { start: start.z, end: end.z } }
        } else if start.z > end.z {
            Brick::Z { x: start.x, y: start.y, z: Span { start: end.z, end: start.z } }
        } else {
            Brick::X { x: Span { start: start.x, end: end.x }, y: start.y, z: start.z }
        }
    }

    /// The brick that six numbers stand for: the three coordinates of one
    /// end, then those of the other. `None` where there are not just six
    /// numbers of the machine.
    pub open spec fn of(numbers: Seq<nat>) -> Option<Brick> {
        if numbers.len() == 6 && forall|k: int|
            0 <= k < 6 ==> #[trigger] numbers[k] <= usize::MAX {
            Some(
                Brick::between(
                    Point {
                        x: numbers[0] as usize,
                        y: numbers[1] as usize,
                        z: numbers[2] as usize,
                    },
                    Point {
                        x: numbers[3] as usize,
                        y: numbers[4] as usize,
                        z: numbers[5] as usize,
                    },
                ),
            )
        } else {
            None
        }
    }

    /// Reads a brick from the numbers that stand between `from` and `to`,
    /// whatever stands between them.
    pub fn from(bytes: &[u8], from: usize, to: usize) -> (r: Option<Self>)
        requires
            from <= to <= bytes@.len(),
        ensures
            r == Brick::of(numbers_in(bytes@.subrange(from as int, to as int))),
    {
        let ghost found = numbers_in(bytes@.subrange(from as int, to as int));
        let numbers = match read_numbers(bytes, from, to) {
            Some(numbers) => numbers,
            None => {
                return None;
            },
        };
        if numbers.len() != 6 {
            return None;
        }
        let start = Point { x: numbers[0], y: numbers[1], z: numbers[2] };
        let end = Point { x: numbers[3], y: numbers[4], z: numbers[5] };
        proof {
            assert forall|k: int| 0 <= k < 6 implies #[trigger] found[k] <= usize::MAX by {
                assert(found[k] == numbers@[k] as nat);
            }
            assert(found[0] == numbers@[0] as nat);
            assert(found[1] == numbers@[1] as nat);
            assert(found[2] == numbers@[2] as nat);
            assert(found[3] == numbers@[3] as nat);
            assert(found[4] == numbers@[4] as nat);
            assert(found[5] == numbers@[5] as nat);
        }
        let brick = if start.x < end.x {
            Brick::X { x: Span { start: start.x, end: end.x }, y: start.y, z: start.z }
        } else if start.x > end.x {
            Brick::X { x: Span { start: end.x, end: start.x }, y: start.y, z: start.z }
        } else if start.y < end.y {
            Brick::Y { x: start.x, y: Span { start: start.y, end: end.y }, z: start.z }
        } else if start.y > end.y {
            Brick::Y { x: start.x, y: Span { start: end.y, end: start.y }, z: start.z }
        } else if start.z < end.z {
            Brick::Z { x: start.x, y: start.y, z: Span { start: start.z, end: end.z } }
        } else if start.z > end.z {
            Brick::Z { x: start.x, y: start.y, z: Span { start: end.z, end: start.z } }
        } else {
            Brick::X { x: Span { start: start.x, end: end.x }, y: start.y, z: start.z }
        };
        proof {
            assert(brick == Brick::between(start, end));
        }
        Some(brick)
    }
}

/// The brick `upper` cannot fall for `lower`: a cube of `lower` is just
/// below a cube of its base.
pub open spec fn leans(upper: Brick, lower: Brick) -> bool {
    exists|k: int| 0 <= k < upper.base().len() && lower.holds(#[trigger] upper.base()[k].below())
}

/// The brick cannot fall for one of the others.
pub open spec fn blocked(others: Seq<Brick>, brick: Brick) -> bool {
    exists|j: int| 0 <= j < others.len() && leans(brick, #[trigger] others[j])
}

/// Where the brick comes to rest: it falls until it stands on the ground or
/// cannot fall for one of the others.
pub open spec fn rest(others: Seq<Brick>, brick: Brick) -> Brick
    decreases brick.bottom(),
{
    if brick.bottom() <= 1 || blocked(others, brick) {
        brick
    } else {
        rest(others, brick.lowered())
    }
}

/// The first `upto` bricks after each has fallen in turn, the ones before it
/// being at rest.
pub open spec fn settle(bricks: Seq<Brick>, upto: int) -> Seq<Brick>
    decreases upto,
{
    if upto <= 0 {
        Seq::empty()
    } else {
        settle(bricks, upto - 1).push(rest(settle(bricks, upto - 1), bricks[upto - 1]))
    }
}

/// How many of the first `upto` bricks fall when each falls in turn.
pub open spec fn falling(bricks: Seq<Brick>, upto: int) -> nat
    decreases upto,
{
    if upto <= 0 {
        0
    } else {
        falling(bricks, upto - 1) + if rest(settle(bricks, upto - 1), bricks[upto - 1])
            != bricks[upto - 1] {
            1nat
        } else {
            0nat
        }
    }
}

/// Every brick is in order.
pub open spec fn sound(bricks: Seq<Brick>) -> bool {
    forall|i: int| 0 <= i < bricks.len() ==> (#[trigger] bricks[i]).wf()
}

/// A brick at rest is in order, if it was before.
pub proof fn lemma_rest(others: Seq<Brick>, brick: Brick)
    requires
        brick.wf(),
    ensures
        rest(others, brick).wf(),
        rest(others, brick).bottom() <= brick.bottom(),
    decreases brick.bottom(),
{
    if !(brick.bottom() <= 1 || blocked(others, brick)) {
        lemma_rest(others, brick.lowered());
    }
}

/// Bricks that have fallen are in order, if they were before, and as many
/// as before.
pub proof fn lemma_settle(bricks: Seq<Brick>, upto: int)
    requires
        sound(bricks),
        0 <= upto <= bricks.len(),
    ensures
        sound(settle(bricks, upto)),
        settle(bricks, upto).len() == upto,
        falling(bricks, upto) <= upto,
    decreases upto,
{
    if upto > 0 {
        lemma_settle(bricks, upto - 1);
        lemma_rest(settle(bricks, upto - 1), bricks[upto - 1]);
    }
}

/// A pile of bricks, from the lowest up.
pub struct Stack {
    pub bricks: Vec<Brick>,
}

/// Whether the brick `upper` cannot fall for `lower`.
fn rests_on(upper: &Brick, lower: &Brick) -> (r: bool)
    requires
        upper.wf(),
    ensures
        r == leans(*upper, *lower),
{
    let footprint = upper.footprint();
    let mut k: usize = 0;
    while k < footprint.len()
        invariant
            upper.wf(),
            footprint@ == upper.base(),
            k <= footprint@.len(),
            forall|i: int| 0 <= i < k ==> !lower.holds(#[trigger] upper.base()[i].below()),
        decreases footprint@.len() - k,
    {
        proof {
            assert(footprint@[k as int].z == upper.bottom());
        }
        if lower.overlaps(footprint[k].drop()) {
            return true;
        }
        k = k + 1;
    }
    false
}

impl Stack {
    /// Whether the brick cannot fall for one of the first `upto` bricks.
    fn held(&self, upto: usize, brick: &Brick) -> (r: bool)
        requires
            brick.wf(),
            upto <= self.bricks@.len(),
        ensures
            r == blocked(self.bricks@.take(upto as int), *brick),
    {
        let mut j: usize = 0;
        let ghost others = self.bricks@.take(upto as int);
        while j < upto
            invariant
                brick.wf(),
                j <= upto <= self.bricks@.len(),
                others == self.bricks@.take(upto as int),
                forall|i: int| 0 <= i < j ==> !leans(*brick, #[trigger] others[i]),
            decreases upto - j,
        {
            proof {
                assert(others[j as int] == self.bricks@[j as int]);
            }
            if rests_on(brick, &self.bricks[j]) {
                return true;
            }
            j = j + 1;
        }
        false
    }

    /// Lets every brick fall in turn, from the first on, until it stands on
    /// the ground or on a brick before it. The result is the number of bricks
    /// that have fallen.
    pub fn drop(&mut self) -> (moved: usize)
        requires
            sound(old(self).bricks@),
        ensures
            final(self).bricks@ == settle(old(self).bricks@, old(self).bricks@.len() as int),
            moved == falling(old(self).bricks@, old(self).bricks@.len() as int),
            sound(final(self).bricks@),
    {
        let mut moved: usize = 0;
        let ghost before = self.bricks@;
        let n = self.bricks.len();
        let mut i: usize = 0;
        proof {
            assert(self.bricks@.take(0) =~= settle(before, 0));
        }
        while i < n
            invariant
                sound(before),
                before == old(self).bricks@,
                n == before.len(),
                self.bricks@.len() == n,
                i <= n,
                self.bricks@.take(i as int) == settle(before, i as int),
                forall|k: int| i <= k < n ==> self.bricks@[k] == before[k],
                moved == falling(before, i as int),
            decreases n - i,
        {
            let mut brick = self.bricks[i];
            let ghost others = self.bricks@.take(i as int);
            let ghost first = brick;
            proof {
                lemma_settle(before, i as int);
                assert(before[i as int].wf());
            }
            let mut did_move = false;
            loop
                invariant
                    brick.wf(),
                    i < n,
                    n == self.bricks@.len(),
                    others == self.bricks@.take(i as int),
                    rest(others, brick) == rest(others, first),
                    did_move == (brick != first),
                    brick.bottom() <= first.bottom(),
                    did_move ==> brick.bottom() < first.bottom(),
                ensures
                    brick == rest(others, first),
                    did_move == (brick != first),
                decreases brick.bottom(),
            {
                if brick.lowest_z() == 1 {
                    break ;
                }
                if self.held(i, &brick) {
                    break ;
                }
                did_move = true;
                brick.drop();
            }
            self.bricks.set(i, brick);
            if did_move {
                moved = moved + 1;
            }
            proof {
                assert(self.bricks@.take(i + 1) =~= others.push(brick));
            }
            i = i + 1;
        }
        proof {
            assert(self.bricks@.take(n as int) =~= self.bricks@);
            lemma_settle(before, n as int);
        }
        moved
    }
}

/// The brick `index` can go without another brick falling: every later
/// brick that cannot fall for it cannot fall for another brick before that
/// one either.
pub open spec fn safe(bricks: Seq<Brick>, index: int) -> bool {
    forall|i: int|
        index < i < bricks.len() && leans(#[trigger] bricks[i], bricks[index]) ==> propped(
            bricks,
            i,
            index,
        )
}

/// The brick `upper` cannot fall for a brick before it other than `but`.
pub open spec fn propped(bricks: Seq<Brick>, upper: int, but: int) -> bool {
    exists|j: int| 0 <= j < upper && j != but && leans(bricks[upper], #[trigger] bricks[j])
}

/// How many of the first `upto` bricks can go without another brick falling.
pub open spec fn spare(bricks: Seq<Brick>, upto: int) -> nat
    decreases upto,
{
    if upto <= 0 {
        0
    } else {
        spare(bricks, upto - 1) + if safe(bricks, upto - 1) {
            1nat
        } else {
            0nat
        }
    }
}

/// How many bricks fall in all when each of the first `upto` bricks is taken
/// away in turn, the others being as they are.
pub open spec fn chain(bricks: Seq<Brick>, upto: int) -> nat
    decreases upto,
{
    if upto <= 0 {
        0
    } else {
        chain(bricks, upto - 1) + falling(bricks.remove(upto - 1), bricks.len() - 1)
    }
}

/// The bricks stand in the order of their lowest cubes.
pub open spec fn rising(bricks: Seq<Brick>) -> bool {
    forall|i: int, j: int|
        0 <= i < j < bricks.len() ==> (#[trigger] bricks[i]).bottom() <= (
        #[trigger] bricks[j]).bottom()
}

impl Stack {
    /// Whether the brick `index` can go without another brick falling.
    pub fn can_disintegrate(&self, index: usize) -> (r: bool)
        requires
            sound(self.bricks@),
            index < self.bricks@.len(),
        ensures
            r == safe(self.bricks@, index as int),
    {
        let ghost bricks = self.bricks@;
        let n = self.bricks.len();
        let mut i = index + 1;
        while i < self.bricks.len()
            invariant
                sound(bricks),
                bricks == self.bricks@,
                index < i <= bricks.len(),
                forall|k: int|
                    index < k < i && leans(#[trigger] bricks[k], bricks[index as int]) ==> propped(
                        bricks,
                        k,
                        index as int,
                    ),
            decreases bricks.len() - i,
        {
            assert(bricks[i as int].wf());
            if rests_on(&self.bricks[i], &self.bricks[index]) {
                let mut found = false;
                let mut j: usize = 0;
                while j < i && !found
                    invariant
                        sound(bricks),
                        bricks == self.bricks@,
                        index < i < bricks.len(),
                        j <= i,
                        found ==> propped(bricks, i as int, index as int),
                        !found ==> forall|k: int|
                            0 <= k < j && k != index ==> !leans(bricks[i as int], #[trigger] bricks[k]),
                    decreases i - j, !found as int,
                {
                    if j != index && rests_on(&self.bricks[i], &self.bricks[j]) {
                        found = true;
                    } else {
                        j = j + 1;
                    }
                }
                if !found {
                    return false;
                }
            }
            i = i + 1;
        }
        true
    }

    /// How many bricks can go, each by itself, without another brick falling.
    pub fn count_disintegrations(&self) -> (count: usize)
        requires
            sound(self.bricks@),
        ensures
            count == spare(self.bricks@, self.bricks@.len() as int),
    {
        let mut count: usize = 0;
        let mut i: usize = 0;
        while i < self.bricks.len()
            invariant
                sound(self.bricks@),
                i <= self.bricks@.len(),
                count == spare(self.bricks@, i as int),
                count <= i,
            decreases self.bricks@.len() - i,
        {
            if self.can_disintegrate(i) {
                count = count + 1;
            }
            i = i + 1;
        }
        count
    }

    /// How many bricks fall in all when each brick is taken away in turn, the
    /// others being as they are.
    pub fn count_bricks_dropping(&self) -> (count: usize)
        requires
            sound(self.bricks@),
            self.bricks@.len() * self.bricks@.len() <= usize::MAX,
        ensures
            count == chain(self.bricks@, self.bricks@.len() as int),
    {
        let n = self.bricks.len();
        let mut count: usize = 0;
        let mut i: usize = 0;
        while i < n
            invariant
                sound(self.bricks@),
                n == self.bricks@.len(),
                n * n <= usize::MAX,
                i <= n,
                count == chain(self.bricks@, i as int),
                count <= i * n,
            decreases n - i,
        {
            let mut new_bricks: Vec<Brick> = Vec::new();
            let mut k: usize = 0;
            while k < n
                invariant
                    n == self.bricks@.len(),
                    k <= n,
                    i < n,
                    new_bricks@ == if k <= i {
                        self.bricks@.take(k as int)
                    } else {
                        self.bricks@.take(k as int).remove(i as int)
                    },
                decreases n - k,
            {
                if k != i {
                    new_bricks.push(self.bricks[k]);
                }
                proof {
                    let now = self.bricks@.take(k + 1);
                    let was = self.bricks@.take(k as int);
                    if k < i {
                        assert(now =~= was.push(self.bricks@[k as int]));
                    } else if k == i {
                        assert(now.remove(i as int) =~= was);
                    } else {
                        assert(now.remove(i as int) =~= was.remove(i as int).push(
                            self.bricks@[k as int],
                        ));
                    }
                }
                k = k + 1;
            }
            proof {
                assert(self.bricks@.take(n as int) =~= self.bricks@);
                let rest = self.bricks@.remove(i as int);
                assert forall|j: int| 0 <= j < rest.len() implies (#[trigger] rest[j]).wf() by {
                    if j < i {
                        assert(rest[j] == self.bricks@[j]);
                    } else {
                        assert(rest[j] == self.bricks@[j + 1]);
                    }
                }
                lemma_settle(rest, rest.len() as int);
                assert(i * n + n == (i + 1) * n) by (nonlinear_arith);
                assert((i + 1) * n <= n * n) by (nonlinear_arith)
                    requires
                        i + 1 <= n,
                ;
            }
            let mut new_stack = Stack { bricks: new_bricks };
            let moved = new_stack.drop();
            count = count + moved;
            i = i + 1;
        }
        count
    }

    /// Reads a pile: a brick in each line, each put into the pile behind the
    /// bricks that stand no higher. `None` where a line holds no brick, or
    /// one that is not in order.
    pub fn from(value: &str) -> (r: Option<Self>)
        ensures
            match r {
                Some(stack) => piled(lines(value.spec_bytes())) == Some(stack.bricks@) && sound(
                    stack.bricks@,
                ) && rising(stack.bricks@),
                None => piled(lines(value.spec_bytes())) is None,
            },
    {
        let rows = split_lines(value.as_bytes());
        let ghost text = lines(value.spec_bytes());
        let mut bricks: Vec<Brick> = Vec::new();
        let mut at: usize = 0;
        proof {
            assert(text.take(0) =~= Seq::<Seq<u8>>::empty());
        }
        while at < rows.len()
            invariant
                at <= rows@.len(),
                text == rows_of(rows@),
                text == lines(value.spec_bytes()),
                piled(text.take(at as int)) == Some(bricks@),
                sound(bricks@),
                rising(bricks@),
            decreases rows@.len() - at,
        {
            let row = &rows[at];
            proof {
                assert(row@.subrange(0, row@.len() as int) =~= row@);
                assert(text.take(at + 1).drop_last() =~= text.take(at as int));
                assert(text.take(at + 1).last() == row@);
            }
            let found = Brick::from(row.as_slice(), 0, row.len());
            let brick = match found {
                Some(brick) => brick,
                None => {
                    proof {
                        lemma_piled_none(text, at + 1);
                    }
                    return None;
                },
            };
            let whole = match brick {
                Brick::X { x, .. } => x.start <= x.end,
                Brick::Y { y, .. } => y.start <= y.end,
                Brick::Z { z, .. } => z.start <= z.end,
            };
            if brick.lowest_z() < 1 || !whole {
                proof {
                    lemma_piled_none(text, at + 1);
                }
                return None;
            }
            let mut place: usize = 0;
            while place < bricks.len() && bricks[place].lowest_z() <= brick.lowest_z()
                invariant
                    place <= bricks@.len(),
                    forall|k: int| 0 <= k < place ==> (#[trigger] bricks@[k]).bottom()
                        <= brick.bottom(),
                decreases bricks@.len() - place,
            {
                place = place + 1;
            }
            let ghost before = bricks@;
            proof {
                lemma_slot(before, brick, place as int);
            }
            bricks.insert(place, brick);
            proof {
                let after = bricks@;
                assert forall|i: int| 0 <= i < after.len() implies (#[trigger] after[i]).wf() by {
                    if i < place {
                        assert(after[i] == before[i]);
                    } else if i > place {
                        assert(after[i] == before[i - 1]);
                    }
                }
                assert forall|i: int, j: int| 0 <= i < j < after.len() implies (
                #[trigger] after[i]).bottom() <= (#[trigger] after[j]).bottom() by {
                    if i < place && j > place {
                        assert(after[i] == before[i]);
                        assert(after[j] == before[j - 1]);
                    } else if i < place && j < place {
                        assert(after[i] == before[i]);
                        assert(after[j] == before[j]);
                    } else if i > place {
                        assert(after[i] == before[i - 1]);
                        assert(after[j] == before[j - 1]);
                    } else if i == place {
                        assert(after[j] == before[j - 1]);
                    }
                }
            }
            at = at + 1;
        }
        proof {
            assert(text.take(at as int) =~= text);
        }
        Some(Stack { bricks })
    }
}

/// Where a brick goes into a pile: behind the bricks at its front that
/// stand no higher.
pub open spec fn slot(pile: Seq<Brick>, brick: Brick) -> nat
    decreases pile.len(),
{
    if pile.len() == 0 || pile[0].bottom() > brick.bottom() {
        0
    } else {
        1 + slot(pile.drop_first(), brick)
    }
}

/// The pile that the lines stand for: the brick of each line in turn is put
/// into its slot. `None` where a line holds no brick, or one that is not in
/// order.
pub open spec fn piled(text: Seq<Seq<u8>>) -> Option<Seq<Brick>>
    decreases text.len(),
{
    if text.len() == 0 {
        Some(Seq::empty())
    } else {
        match (piled(text.drop_last()), Brick::of(numbers_in(text.last()))) {
            (Some(pile), Some(brick)) => if brick.wf() {
                Some(pile.insert(slot(pile, brick) as int, brick))
            } else {
                None
            },
            _ => None,
        }
    }
}

proof fn lemma_slot(pile: Seq<Brick>, brick: Brick, place: int)
    requires
        0 <= place <= pile.len(),
        forall|k: int| 0 <= k < place ==> (#[trigger] pile[k]).bottom() <= brick.bottom(),
        place < pile.len() ==> pile[place].bottom() > brick.bottom(),
    ensures
        slot(pile, brick) == place,
    decreases pile.len(),
{
    if place > 0 {
        let rest = pile.drop_first();
        assert(pile[0].bottom() <= brick.bottom());
        assert forall|k: int| 0 <= k < place - 1 implies (#[trigger] rest[k]).bottom()
            <= brick.bottom() by {
            assert(rest[k] == pile[k + 1]);
        }
        if place < pile.len() {
            assert(rest[place - 1] == pile[place]);
        }
        lemma_slot(rest, brick, place - 1);
    }
}

proof fn lemma_piled_none(text: Seq<Seq<u8>>, upto: int)
    requires
        0 <= upto <= text.len(),
        piled(text.take(upto)) is None,
    ensures
        piled(text) is None,
    decreases text.len() - upto,
{
    if upto < text.len() {
        assert(text.take(upto + 1).drop_last() =~= text.take(upto));
        lemma_piled_none(text, upto + 1);
    } else {
        assert(text.take(upto) =~= text);
    }
}

/// How many bricks of the pile of the text can go, one at a time, without
/// another brick falling, once the pile has settled. `None` where the lines
/// hold no pile.
pub fn solve_part1(input: &str) -> (r: Option<usize>)
    ensures
        match (r, piled(lines(input.spec_bytes()))) {
            (Some(count), Some(pile)) => count == spare(
                settle(pile, pile.len() as int),
                settle(pile, pile.len() as int).len() as int,
            ),
            (None, None) => true,
            _ => false,
        },
{
    let mut stack = match Stack::from(input) {
        Some(stack) => stack,
        None => {
            return None;
        },
    };
    stack.drop();
    Some(stack.count_disintegrations())
}

/// How many bricks fall in all, over the bricks of the settled pile of the
/// text, where each in turn goes alone. `None` where the lines hold no
/// pile.
pub fn solve_part2(input: &str) -> (r: Option<usize>)
    ensures
        match (r, piled(lines(input.spec_bytes()))) {
            (Some(count), Some(pile)) => count == chain(
                settle(pile, pile.len() as int),
                settle(pile, pile.len() as int).len() as int,
            ),
            (None, None) => true,
            (None, Some(pile)) => settle(pile, pile.len() as int).len() * settle(
                pile,
                pile.len() as int,
            ).len() > usize::MAX,
            _ => false,
        },
{
    let mut stack = match Stack::from(input) {
        Some(stack) => stack,
        None => {
            return None;
        },
    };
    stack.drop();
    let bricks = stack.bricks.len();
    match bricks.checked_mul(bricks) {
        Some(_) => Some(stack.count_bricks_dropping()),
        None => None,
    }
}

} // verus!
