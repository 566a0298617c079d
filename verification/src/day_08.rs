//! Walking a network by a list of turns.

use crate::text::{find_gap, lines, lookup, rows_of, split_lines, until_gap};
use vstd::prelude::*;
use vstd::slice::*;
use vstd::string::*;

verus! {

/// `d` divides `n`.
pub open spec fn divides(d: nat, n: nat) -> bool {
    exists|k: nat| n == #[trigger] (k * d)
}

/// The greatest common divisor of `a` and `b`, by Euclid's rule.
pub open spec fn gcd(a: nat, b: nat) -> nat
    decreases b,
{
    if b == 0 {
        a
    } else {
        gcd(b, a % b)
    }
}

/// Euclid's rule gives a common divisor, and every common divisor divides it.
pub proof fn lemma_gcd(a: nat, b: nat)
    ensures
        divides(gcd(a, b), a),
        divides(gcd(a, b), b),
        forall|d: nat| divides(d, a) && divides(d, b) ==> #[trigger] divides(d, gcd(a, b)),
        a > 0 || b > 0 ==> gcd(a, b) > 0,
    decreases b,
{
    if b == 0 {
        assert(a == 1 * a);
        assert(0 == 0 * a);
    } else {
        let r = a % b;
        let q = a / b;
        let g = gcd(b, r);
        lemma_gcd(b, r);
        assert(a == q * b + r) by (nonlinear_arith)
            requires
                b > 0,
                q == a / b,
                r == a % b,
        ;
        let kb = choose|k: nat| b == #[trigger] (k * g);
        let kr = choose|k: nat| r == #[trigger] (k * g);
        assert(a == (q * kb + kr) * g) by (nonlinear_arith)
            requires
                a == q * b + r,
                b == kb * g,
                r == kr * g,
        ;
        assert forall|d: nat| divides(d, a) && divides(d, b) implies #[trigger] divides(d, g) by {
            let ka = choose|k: nat| a == #[trigger] (k * d);
            let kd = choose|k: nat| b == #[trigger] (k * d);
            assert(q * kd <= ka) by (nonlinear_arith)
                requires
                    a == ka * d,
                    b == kd * d,
                    a == q * b + r,
                    r >= 0,
                    b > 0,
            {
                if q * kd > ka {
                    assert(d > 0);
                    assert((q * kd) * d >= (ka + 1) * d);
                    assert(q * (kd * d) == (q * kd) * d);
                }
            }
            let k = (ka - q * kd) as nat;
            assert(r == k * d) by (nonlinear_arith)
                requires
                    a == ka * d,
                    b == kd * d,
                    a == q * b + r,
                    k == ka - q * kd,
            ;
            assert(divides(d, r));
        }
    }
}

/// Euclid's rule gives the same for two numbers in either order.
pub proof fn lemma_swap(a: nat, b: nat)
    ensures
        gcd(a, b) == gcd(b, a),
{
    lemma_gcd(a, b);
    lemma_gcd(b, a);
    let g = gcd(a, b);
    let h = gcd(b, a);
    assert(divides(g, h));
    assert(divides(h, g));
    let k = choose|k: nat| h == #[trigger] (k * g);
    let m = choose|m: nat| g == #[trigger] (m * h);
    if g != h {
        assert(false) by (nonlinear_arith)
            requires
                h == k * g,
                g == m * h,
                g != h,
                g >= 0,
                h >= 0,
        {
            if g == 0 {
                assert(h == 0);
            } else if h == 0 {
                assert(g == 0);
            } else {
                assert(k >= 1 && m >= 1);
                assert(h >= g);
                assert(g >= h);
            }
        }
    }
}

/// The greatest common divisor of two numbers that are not 0.
pub fn greatest_common_divisor(a: usize, b: usize) -> (r: usize)
    requires
        a > 0,
        b > 0,
    ensures
        r == gcd(a as nat, b as nat),
        r > 0,
{
    let mut x = a;
    let mut y = b;
    if y > x {
        proof {
            lemma_swap(a as nat, b as nat);
        }
        x = b;
        y = a;
    }
    loop
        invariant
            y > 0,
            gcd(x as nat, y as nat) == gcd(a as nat, b as nat),
        decreases y,
    {
        let r = x % y;
        proof {
            assert(gcd(x as nat, y as nat) == gcd(y as nat, r as nat));
        }
        if r == 0 {
            proof {
                assert(gcd(y as nat, 0) == y);
            }
            return y;
        }
        x = y;
        y = r;
    }
}

/// The lowest common multiple of two numbers that are not 0.
pub fn lowest_common_multiple(a: usize, b: usize) -> (r: usize)
    requires
        a > 0,
        b > 0,
        (a as nat / gcd(a as nat, b as nat)) * b <= usize::MAX,
    ensures
        r == (a as nat / gcd(a as nat, b as nat)) * b,
{
    (a / greatest_common_divisor(a, b)) * b
}

/// A turn at a node of the network.
#[derive(Clone, Copy, Debug, PartialEq, Eq, Structural)]
pub enum Direction {
    Left,
    Right,
}

impl Direction {
    /// The turn that a letter stands for.
    pub fn from(value: char) -> (r: Self)
        requires
            value == 'L' || value == 'R',
        ensures
            r == if value == 'L' {
                Direction::Left
            } else {
                Direction::Right
            },
    {
        if value == 'L' {
            Direction::Left
        } else {
            Direction::Right
        }
    }
}

/// A list of turns that is gone through again and again.
pub struct Moves {
    pub list: Vec<Direction>,
    pub index: usize,
}

impl Moves {
    /// The turn at the place where the list stands; the list then moves on by
    /// one, and from its end back to its start.
    pub fn next(&mut self) -> (r: Direction)
        requires
            old(self).index < old(self).list@.len(),
        ensures
            r == old(self).list@[old(self).index as int],
            final(self).list == old(self).list,
            final(self).index == (old(self).index + 1) % (old(self).list@.len() as int),
            final(self).index < final(self).list@.len(),
    {
        let len = self.list.len();
        let result = self.list[self.index];
        self.index = (self.index + 1) % len;
        result
    }
}

/// A network: the name of each node, and the nodes to its left and to its
/// right.
pub struct Network {
    pub names: Vec<Vec<u8>>,
    pub edges: Vec<(usize, usize)>,
}

/// The node that a turn leads to.
pub open spec fn turned(edges: Seq<(usize, usize)>, node: int, turn: Direction) -> int {
    match turn {
        Direction::Left => edges[node].0 as int,
        Direction::Right => edges[node].1 as int,
    }
}

/// The node reached from `start` after `steps` turns of the list, taken from
/// the place `index` on and round again.
pub open spec fn walked(
    edges: Seq<(usize, usize)>,
    list: Seq<Direction>,
    index: int,
    start: int,
    steps: nat,
) -> int
    decreases steps,
{
    if steps == 0 {
        start
    } else {
        turned(
            edges,
            walked(edges, list, index, start, (steps - 1) as nat),
            list[(index + steps - 1) % (list.len() as int)],
        )
    }
}

/// As many turns as there are nodes times turns in the list, or as the
/// machine has numbers, if those are fewer.
pub open spec fn limit(nodes: nat, turns: nat) -> nat {
    if nodes * turns <= usize::MAX {
        nodes * turns
    } else {
        usize::MAX as nat
    }
}

impl Network {
    /// The network is in order: every node has a name, and the nodes to its
    /// left and right are there.
    pub open spec fn wf(&self) -> bool {
        &&& self.names@.len() == self.edges@.len()
        &&& forall|node: int|
            0 <= node < self.edges@.len() ==> (#[trigger] self.edges@[node]).0 < self.edges@.len()
                && self.edges@[node].1 < self.edges@.len()
    }

    /// How many turns lead from `start` to the first node that is an end,
    /// `ends` saying of each node whether it is one. `None` where no end is
    /// reached within `limit` turns: from then on the walk can only go where
    /// it has been.
    pub fn run(&self, start: usize, ends: &Vec<bool>, moves: Moves) -> (r: Option<usize>)
        requires
            self.wf(),
            start < self.edges@.len(),
            ends@.len() == self.edges@.len(),
            moves.index < moves.list@.len(),
        ensures
            match r {
                Some(count) => {
                    &&& ends@[walked(
                        self.edges@,
                        moves.list@,
                        moves.index as int,
                        start as int,
                        count as nat,
                    )]
                    &&& forall|steps: nat|
                        steps < count ==> !ends@[#[trigger] walked(
                            self.edges@,
                            moves.list@,
                            moves.index as int,
                            start as int,
                            steps,
                        )]
                },
                None => forall|steps: nat|
                    steps <= limit(self.edges@.len(), moves.list@.len()) ==> !ends@[#[trigger] walked(
                        self.edges@,
                        moves.list@,
                        moves.index as int,
                        start as int,
                        steps,
                    )],
            },
    {
        let mut turns = moves;
        let ghost list = turns.list@;
        let ghost index = turns.index as int;
        let mut current = start;
        let mut count: usize = 0;
        let bound = match self.edges.len().checked_mul(turns.list.len()) {
            Some(bound) => bound,
            None => usize::MAX,
        };
        proof {
            assert(index % (list.len() as int) == index) by (nonlinear_arith)
                requires
                    0 <= index < list.len(),
            ;
        }
        while !ends[current]
            invariant
                self.wf(),
                ends@.len() == self.edges@.len(),
                turns.list@ == list,
                list == moves.list@,
                index == moves.index,
                turns.index < list.len(),
                index < list.len(),
                turns.index == (index + count) % (list.len() as int),
                current < self.edges@.len(),
                current == walked(self.edges@, list, index, start as int, count as nat),
                count <= bound,
                bound == limit(self.edges@.len(), list.len()),
                forall|steps: nat|
                    steps < count ==> !ends@[#[trigger] walked(
                        self.edges@,
                        list,
                        index,
                        start as int,
                        steps,
                    )],
            decreases bound - count,
        {
            if count >= bound {
                proof {
                    assert forall|steps: nat|
                        steps <= limit(self.edges@.len(), list.len()) implies !ends@[#[trigger] walked(
                        self.edges@,
                        list,
                        index,
                        start as int,
                        steps,
                    )] by {
                        if steps == count {
                            assert(walked(self.edges@, list, index, start as int, steps) == current);
                        }
                    }
                    assert(list == moves.list@);
                    assert(index == moves.index);
                }
                return None;
            }
            let ghost at = turns.index as int;
            let turn = turns.next();
            proof {
                assert(turn == list[(index + count) % (list.len() as int)]);
                assert((at + 1) % (list.len() as int) == (index + count + 1) % (list.len() as int))
                    by (nonlinear_arith)
                    requires
                        at == (index + count) % (list.len() as int),
                        list.len() > 0,
                ;
            }
            current = match turn {
                Direction::Left => self.edges[current].0,
                Direction::Right => self.edges[current].1,
            };
            count = count + 1;
        }
        Some(count)
    }
}

/// A byte of a name: a letter or a digit.
pub open spec fn in_name(byte: u8) -> bool {
    0x30 <= byte <= 0x39 || 0x41 <= byte <= 0x5a || 0x61 <= byte <= 0x7a
}

/// The name that starts at or after `from`: the first run of letters and
/// digits, and where it ends.
fn read_name(bytes: &[u8], from: usize, to: usize) -> (r: (Vec<u8>, usize))
    requires
        from <= to <= bytes@.len(),
    ensures
        from <= r.1 <= to,
        r.0@.len() <= r.1 - from,
        forall|k: int| 0 <= k < r.0@.len() ==> in_name(#[trigger] r.0@[k]),
        r.0@ == bytes@.subrange(r.1 - r.0@.len(), r.1 as int),
        forall|k: int| from <= k < r.1 - r.0@.len() ==> !in_name(#[trigger] bytes@[k]),
        r.1 < to ==> !in_name(bytes@[r.1 as int]),
        r.0@.len() == 0 ==> r.1 == to,
{
    let mut at = from;
    while at < to && !(0x30 <= bytes[at] && bytes[at] <= 0x39 || 0x41 <= bytes[at] && bytes[at]
        <= 0x5a || 0x61 <= bytes[at] && bytes[at] <= 0x7a)
        invariant
            from <= at <= to <= bytes@.len(),
            forall|k: int| from <= k < at ==> !in_name(#[trigger] bytes@[k]),
        decreases to - at,
    {
        at = at + 1;
    }
    let start = at;
    let mut name: Vec<u8> = Vec::new();
    while at < to && (0x30 <= bytes[at] && bytes[at] <= 0x39 || 0x41 <= bytes[at] && bytes[at]
        <= 0x5a || 0x61 <= bytes[at] && bytes[at] <= 0x7a)
        invariant
            from <= start <= at <= to <= bytes@.len(),
            name@ == bytes@.subrange(start as int, at as int),
            forall|k: int| 0 <= k < name@.len() ==> in_name(#[trigger] name@[k]),
        decreases to - at,
    {
        let ghost before = name@;
        name.push(bytes[at]);
        at = at + 1;
        proof {
            assert(name@ =~= bytes@.subrange(start as int, at as int));
            assert forall|k: int| 0 <= k < name@.len() implies in_name(#[trigger] name@[k]) by {
                if k < before.len() {
                    assert(name@[k] == before[k]);
                }
            }
        }
    }
    (name, at)
}

/// How many bytes at the front of the text are no part of a name.
pub open spec fn gap(text: Seq<u8>) -> nat
    decreases text.len(),
{
    if text.len() == 0 || in_name(text[0]) {
        0
    } else {
        1 + gap(text.drop_first())
    }
}

/// How many bytes at the front of the text are part of a name.
pub open spec fn span(text: Seq<u8>) -> nat
    decreases text.len(),
{
    if text.len() == 0 || !in_name(text[0]) {
        0
    } else {
        1 + span(text.drop_first())
    }
}

/// Where the first name at or after `from` begins, and where it ends.
pub open spec fn word_at(text: Seq<u8>, from: int) -> (int, int) {
    let start = from + gap(text.skip(from));
    (start, start + span(text.skip(start)))
}

/// The first three names of a line: that of a node, and those of the nodes
/// to its left and to its right.
pub open spec fn entry_of(line: Seq<u8>) -> (Seq<u8>, Seq<u8>, Seq<u8>) {
    let first = word_at(line, 0);
    let second = word_at(line, first.1);
    let third = word_at(line, second.1);
    (
        line.subrange(first.0, first.1),
        line.subrange(second.0, second.1),
        line.subrange(third.0, third.1),
    )
}

/// What the lines list: the entry of each line that holds a name.
pub open spec fn listed(text: Seq<Seq<u8>>) -> Seq<(Seq<u8>, Seq<u8>, Seq<u8>)>
    decreases text.len(),
{
    if text.len() == 0 {
        Seq::empty()
    } else if entry_of(text.last()).0.len() == 0 {
        listed(text.drop_last())
    } else {
        listed(text.drop_last()).push(entry_of(text.last()))
    }
}

/// `node` is the first node of the name.
#[verifier::opaque]
pub open spec fn first_named(entries: Seq<(Seq<u8>, Seq<u8>, Seq<u8>)>, name: Seq<u8>, node: int) -> bool {
    &&& 0 <= node < entries.len()
    &&& entries[node].0 == name
    &&& forall|k: int| 0 <= k < node ==> (#[trigger] entries[k]).0 != name
}

/// No node has the name.
#[verifier::opaque]
pub open spec fn unnamed(entries: Seq<(Seq<u8>, Seq<u8>, Seq<u8>)>, name: Seq<u8>) -> bool {
    forall|k: int| 0 <= k < entries.len() ==> (#[trigger] entries[k]).0 != name
}

/// An entry names a node to the left or right that no entry is for.
pub open spec fn loose(entries: Seq<(Seq<u8>, Seq<u8>, Seq<u8>)>) -> bool {
    exists|k: int|
        0 <= k < entries.len() && (unnamed(entries, (#[trigger] entries[k]).1) || unnamed(
            entries,
            entries[k].2,
        ))
}

/// The names, and those to the left and right of them, are the ones that
/// the entries hold.
pub open spec fn read_as(
    names: Seq<Vec<u8>>,
    lefts: Seq<Vec<u8>>,
    rights: Seq<Vec<u8>>,
    entries: Seq<(Seq<u8>, Seq<u8>, Seq<u8>)>,
) -> bool {
    &&& names.len() == entries.len()
    &&& lefts.len() == entries.len()
    &&& rights.len() == entries.len()
    &&& forall|k: int|
        0 <= k < entries.len() ==> (#[trigger] entries[k]) == (names[k]@, lefts[k]@, rights[k]@)
}

proof fn lemma_first(
    names: Seq<Vec<u8>>,
    lefts: Seq<Vec<u8>>,
    rights: Seq<Vec<u8>>,
    entries: Seq<(Seq<u8>, Seq<u8>, Seq<u8>)>,
    name: Seq<u8>,
    found: Option<usize>,
)
    requires
        read_as(names, lefts, rights, entries),
        match found {
            Some(node) => node < names.len() && names[node as int]@ == name && forall|k: int|
                0 <= k < node ==> (#[trigger] names[k])@ != name,
            None => forall|k: int| 0 <= k < names.len() ==> (#[trigger] names[k])@ != name,
        },
    ensures
        match found {
            Some(node) => first_named(entries, name, node as int),
            None => unnamed(entries, name),
        },
{
    reveal(first_named);
    reveal(unnamed);
    match found {
        Some(node) => {
            assert(entries[node as int].0 == names[node as int]@);
            assert forall|k: int| 0 <= k < node implies (#[trigger] entries[k]).0 != name by {
                assert(names[k]@ != name);
            }
        },
        None => {
            assert forall|k: int| 0 <= k < entries.len() implies (#[trigger] entries[k]).0
                != name by {
                assert(names[k]@ != name);
            }
        },
    }
}

proof fn lemma_gap(text: Seq<u8>, end: int)
    requires
        0 <= end <= text.len(),
        forall|k: int| 0 <= k < end ==> !in_name(#[trigger] text[k]),
        end < text.len() ==> in_name(text[end]),
    ensures
        gap(text) == end,
    decreases text.len(),
{
    if end > 0 {
        let rest = text.drop_first();
        assert(!in_name(text[0]));
        assert forall|k: int| 0 <= k < end - 1 implies !in_name(#[trigger] rest[k]) by {
            assert(rest[k] == text[k + 1]);
        }
        lemma_gap(rest, end - 1);
    }
}

proof fn lemma_span(text: Seq<u8>, end: int)
    requires
        0 <= end <= text.len(),
        forall|k: int| 0 <= k < end ==> in_name(#[trigger] text[k]),
        end < text.len() ==> !in_name(text[end]),
    ensures
        span(text) == end,
    decreases text.len(),
{
    if end > 0 {
        let rest = text.drop_first();
        assert(in_name(text[0]));
        assert forall|k: int| 0 <= k < end - 1 implies in_name(#[trigger] rest[k]) by {
            assert(rest[k] == text[k + 1]);
        }
        lemma_span(rest, end - 1);
    }
}

/// The name that starts at or after `from` in the line, and where it ends.
fn read_word(line: &Vec<u8>, from: usize) -> (r: (Vec<u8>, usize))
    requires
        from <= line@.len(),
    ensures
        from <= r.1 <= line@.len(),
        word_at(line@, from as int).1 == r.1,
        r.0@ == line@.subrange(word_at(line@, from as int).0, word_at(line@, from as int).1),
{
    let (name, end) = read_name(line.as_slice(), from, line.len());
    proof {
        let text = line@;
        let start = end - name@.len();
        let before = text.skip(from as int);
        assert forall|k: int| 0 <= k < start - from implies !in_name(#[trigger] before[k]) by {
            assert(before[k] == text[from + k]);
        }
        if start < text.len() {
            if name@.len() > 0 {
                assert(name@[0] == text[start]);
                assert(in_name(name@[0]));
            }
        }
        lemma_gap(before, start - from);
        let word = text.skip(start);
        assert forall|k: int| 0 <= k < end - start implies in_name(#[trigger] word[k]) by {
            assert(word[k] == name@[k]);
            assert(in_name(name@[k]));
        }
        lemma_span(word, end - start);
    }
    (name, end)
}

impl Network {
    /// The network is the one that the entries list: a node for each, with
    /// the first nodes of the two names to its left and right.
    pub open spec fn wired(&self, entries: Seq<(Seq<u8>, Seq<u8>, Seq<u8>)>) -> bool {
        &&& self.names@.len() == entries.len()
        &&& self.edges@.len() == entries.len()
        &&& forall|k: int| 0 <= k < entries.len() ==> (#[trigger] self.names@[k])@ == entries[k].0
        &&& forall|k: int|
            0 <= k < entries.len() ==> first_named(
                entries,
                entries[k].1,
                (#[trigger] self.edges@[k]).0 as int,
            ) && first_named(entries, entries[k].2, self.edges@[k].1 as int)
    }

    /// Reads a network: in each line the name of a node, then the names of
    /// the nodes to its left and to its right, whatever stands between them.
    /// The nodes are numbered in the order of their lines. `None` where a
    /// line names a node to the left or right that no line is for.
    pub fn from(value: &str) -> (r: Option<Self>)
        ensures
            match r {
                Some(network) => network.wf() && network.wired(
                    listed(lines(value.spec_bytes())),
                ),
                None => loose(listed(lines(value.spec_bytes()))),
            },
    {
        Network::read(value.as_bytes())
    }

    /// Reads a network from its bytes.
    fn read(bytes: &[u8]) -> (r: Option<Self>)
        ensures
            match r {
                Some(network) => network.wf() && network.wired(listed(lines(bytes@))),
                None => loose(listed(lines(bytes@))),
            },
    {
        let rows = split_lines(bytes);
        let ghost text = lines(bytes@);
        let mut names: Vec<Vec<u8>> = Vec::new();
        let mut lefts: Vec<Vec<u8>> = Vec::new();
        let mut rights: Vec<Vec<u8>> = Vec::new();
        let mut at: usize = 0;
        proof {
            assert(text.take(0) =~= Seq::<Seq<u8>>::empty());
        }
        while at < rows.len()
            invariant
                at <= rows@.len(),
                text == rows_of(rows@),
                read_as(names@, lefts@, rights@, listed(text.take(at as int))),
            decreases rows@.len() - at,
        {
            let row = &rows[at];
            let ghost before = listed(text.take(at as int));
            proof {
                assert(text.take(at + 1).drop_last() =~= text.take(at as int));
                assert(text.take(at + 1).last() == row@);
            }
            let (name, after) = read_word(row, 0);
            if name.len() > 0 {
                let (left, after) = read_word(row, after);
                let (right, _) = read_word(row, after);
                names.push(name);
                lefts.push(left);
                rights.push(right);
            }
            proof {
                let now = listed(text.take(at + 1));
                assert forall|k: int| 0 <= k < now.len() implies (#[trigger] now[k]) == (
                    names@[k]@,
                    lefts@[k]@,
                    rights@[k]@,
                ) by {
                    if k < before.len() {
                        assert(now[k] == before[k]);
                    }
                }
            }
            at = at + 1;
        }
        proof {
            assert(text.take(at as int) =~= text);
        }
        let ghost entries = listed(text);
        let mut edges: Vec<(usize, usize)> = Vec::new();
        let mut node: usize = 0;
        while node < names.len()
            invariant
                entries == listed(lines(bytes@)),
                read_as(names@, lefts@, rights@, entries),
                node <= names@.len(),
                edges@.len() == node,
                forall|k: int|
                    0 <= k < node ==> (#[trigger] edges@[k]).0 < names@.len() && edges@[k].1
                        < names@.len(),
                forall|k: int|
                    0 <= k < node ==> first_named(entries, entries[k].1, (#[trigger] edges@[k]).0 as int)
                        && first_named(entries, entries[k].2, edges@[k].1 as int),
            decreases names@.len() - node,
        {
            let left = lookup(&names, &lefts[node]);
            let right = lookup(&names, &rights[node]);
            proof {
                assert(entries[node as int] == (
                    names@[node as int]@,
                    lefts@[node as int]@,
                    rights@[node as int]@,
                ));
                lemma_first(names@, lefts@, rights@, entries, entries[node as int].1, left);
                lemma_first(names@, lefts@, rights@, entries, entries[node as int].2, right);
            }
            match (left, right) {
                (Some(left), Some(right)) => {
                    edges.push((left, right));
                },
                _ => {
                    return None;
                },
            }
            node = node + 1;
        }
        let network = Network { names, edges };
        proof {
            assert forall|k: int| 0 <= k < entries.len() implies (#[trigger] network.names@[k])@
                == entries[k].0 by {
                assert(entries[k] == (names@[k]@, lefts@[k]@, rights@[k]@));
            }
        }
        Some(network)
    }

    /// The number of the node of the name; `None` where there is none.
    pub fn node(&self, name: &str) -> (r: Option<usize>)
        ensures
            match r {
                Some(node) => node < self.names@.len() && self.names@[node as int]@
                    == name.spec_bytes(),
                None => forall|k: int|
                    0 <= k < self.names@.len() ==> (#[trigger] self.names@[k])@ != name.spec_bytes(),
            },
    {
        let wanted = name.as_bytes_vec();
        lookup(&self.names, &wanted)
    }
}

/// The byte stands for a turn.
pub open spec fn is_turn(byte: u8) -> bool {
    byte == 0x4c || byte == 0x52
}

/// The text is a list of turns: it is not empty, and each byte stands for
/// one.
pub open spec fn all_turns(text: Seq<u8>) -> bool {
    text.len() >= 1 && forall|k: int| 0 <= k < text.len() ==> is_turn(#[trigger] text[k])
}

/// The list holds the turns that the text stands for: left for `L`, right
/// for `R`.
pub open spec fn turns(list: Seq<Direction>, text: Seq<u8>) -> bool {
    &&& all_turns(text)
    &&& list.len() == text.len()
    &&& forall|k: int|
        0 <= k < list.len() ==> #[trigger] list[k] == if text[k] == 0x4c {
            Direction::Left
        } else {
            Direction::Right
        }
}

impl Moves {
    /// Reads a list of turns: an `L` or an `R` for each. `None` where the
    /// text holds another byte, or no turn at all.
    pub fn from(value: &str) -> (r: Option<Self>)
        ensures
            match r {
                Some(moves) => moves.index == 0 && turns(moves.list@, value.spec_bytes()),
                None => !all_turns(value.spec_bytes()),
            },
    {
        Moves::read(value.as_bytes())
    }

    /// Reads a list of turns from its bytes.
    fn read(bytes: &[u8]) -> (r: Option<Self>)
        ensures
            match r {
                Some(moves) => moves.index == 0 && turns(moves.list@, bytes@),
                None => !all_turns(bytes@),
            },
    {
        let mut list: Vec<Direction> = Vec::new();
        let mut i: usize = 0;
        while i < bytes.len()
            invariant
                i <= bytes@.len(),
                list@.len() == i,
                forall|k: int| 0 <= k < i ==> is_turn(#[trigger] bytes@[k]),
                forall|k: int|
                    0 <= k < i ==> #[trigger] list@[k]
                        == if bytes@[k] == 0x4c {
                        Direction::Left
                    } else {
                        Direction::Right
                    },
            decreases bytes@.len() - i,
        {
            if bytes[i] == 0x4c {
                list.push(Direction::Left);
            } else if bytes[i] == 0x52 {
                list.push(Direction::Right);
            } else {
                proof {
                    assert(!is_turn(bytes@[i as int]));
                }
                return None;
            }
            i = i + 1;
        }
        if list.len() == 0 {
            return None;
        }
        Some(Moves { list, index: 0 })
    }
}

/// The first end is reached from `start` after just `count` turns.
pub open spec fn arrived(
    edges: Seq<(usize, usize)>,
    list: Seq<Direction>,
    start: int,
    ends: Seq<bool>,
    count: nat,
) -> bool {
    &&& ends[walked(edges, list, 0, start, count)]
    &&& forall|steps: nat| steps < count ==> !ends[#[trigger] walked(edges, list, 0, start, steps)]
}

/// The name ends with the byte.
pub open spec fn ends_with(name: Seq<u8>, byte: u8) -> bool {
    name.len() >= 1 && name.last() == byte
}

/// The text is a list of turns, an empty line, and a network; with them the
/// turns and the network that it holds.
pub open spec fn map_of(text: Seq<u8>, list: Seq<Direction>, network: Network) -> bool {
    &&& until_gap(text) < text.len()
    &&& turns(list, text.take(until_gap(text) as int))
    &&& network.wf()
    &&& network.wired(listed(lines(text.skip(until_gap(text) as int + 2))))
}

/// The text is no list of turns, an empty line, and a network.
pub open spec fn unmapped(text: Seq<u8>) -> bool {
    ||| until_gap(text) >= text.len()
    ||| !all_turns(text.take(until_gap(text) as int))
    ||| loose(listed(lines(text.skip(until_gap(text) as int + 2))))
}

/// No end is reached from `start` within as many turns as `limit` says.
pub open spec fn astray(
    edges: Seq<(usize, usize)>,
    list: Seq<Direction>,
    start: int,
    ends: Seq<bool>,
) -> bool {
    forall|steps: nat|
        steps <= limit(edges.len(), list.len()) ==> !ends[#[trigger] walked(
            edges,
            list,
            0,
            start,
            steps,
        )]
}

/// Reads the turns and the network of a text.
fn read_map(bytes: &[u8]) -> (r: Option<(Moves, Network)>)
    ensures
        r matches Some((moves, network)) ==> moves.index == 0 && map_of(
            bytes@,
            moves.list@,
            network,
        ),
        r is None ==> unmapped(bytes@),
{
    let gap = find_gap(bytes, 0);
    proof {
        assert(bytes@.skip(0) =~= bytes@);
    }
    if gap >= bytes.len() {
        return None;
    }
    let head = slice_subrange(bytes, 0, gap);
    let tail = slice_subrange(bytes, gap + 2, bytes.len());
    proof {
        assert(head@ =~= bytes@.take(gap as int));
        assert(tail@ =~= bytes@.skip(gap + 2));
    }
    let moves = match Moves::read(head) {
        Some(moves) => moves,
        None => {
            return None;
        },
    };
    let network = match Network::read(tail) {
        Some(network) => network,
        None => {
            return None;
        },
    };
    Some((moves, network))
}

/// For each node whether its name ends with the byte.
fn ending(names: &Vec<Vec<u8>>, byte: u8) -> (r: Vec<bool>)
    ensures
        r@.len() == names@.len(),
        forall|k: int| 0 <= k < r@.len() ==> #[trigger] r@[k] == ends_with(names@[k]@, byte),
{
    let mut r: Vec<bool> = Vec::new();
    let mut k: usize = 0;
    while k < names.len()
        invariant
            k <= names@.len(),
            r@.len() == k,
            forall|j: int| 0 <= j < k ==> #[trigger] r@[j] == ends_with(names@[j]@, byte),
        decreases names@.len() - k,
    {
        let name = &names[k];
        r.push(name.len() >= 1 && name[name.len() - 1] == byte);
        k = k + 1;
    }
    r
}

/// The same turns once more.
fn again(list: &Vec<Direction>) -> (r: Moves)
    ensures
        r.list@ == list@,
        r.index == 0,
{
    let mut copy: Vec<Direction> = Vec::new();
    let mut k: usize = 0;
    while k < list.len()
        invariant
            k <= list@.len(),
            copy@ == list@.take(k as int),
        decreases list@.len() - k,
    {
        copy.push(list[k]);
        k = k + 1;
        proof {
            assert(copy@ =~= list@.take(k as int));
        }
    }
    proof {
        assert(list@.take(k as int) =~= list@);
    }
    Moves { list: copy, index: 0 }
}

/// After how many turns the walk from the first node `AAA` of the text
/// first comes to a node `ZZZ`. `None` where the text holds no turns and
/// network, where the network has no `AAA`, or where the walk does not come
/// there within `limit` turns.
pub fn solve_part1(input: &str) -> (r: Option<usize>)
    ensures
        r is None ==> unmapped(input.spec_bytes()) || exists|list: Seq<Direction>, network: Network|
            #![trigger map_of(input.spec_bytes(), list, network)]
            map_of(input.spec_bytes(), list, network) && ((forall|k: int|
                0 <= k < network.names@.len() ==> (#[trigger] network.names@[k])@
                    != "AAA".spec_bytes()) || exists|start: int, ends: Seq<bool>|
                #![trigger astray(network.edges@, list, start, ends)]
                0 <= start < network.names@.len() && network.names@[start]@ == "AAA".spec_bytes()
                    && ends.len() == network.names@.len() && (forall|k: int|
                    0 <= k < ends.len() ==> #[trigger] ends[k] == (network.names@[k]@
                        == "ZZZ".spec_bytes())) && astray(network.edges@, list, start, ends)),
        r matches Some(count) ==> exists|list: Seq<Direction>, network: Network, start: int, ends: Seq<bool>|
            #![trigger map_of(input.spec_bytes(), list, network), arrived(network.edges@, list, start, ends, count as nat)]
            map_of(input.spec_bytes(), list, network) && 0 <= start < network.names@.len()
                && network.names@[start]@ == "AAA".spec_bytes() && (forall|k: int|
                0 <= k < start ==> (#[trigger] network.names@[k])@ != "AAA".spec_bytes())
                && ends.len() == network.names@.len() && (forall|k: int|
                0 <= k < ends.len() ==> #[trigger] ends[k] == (network.names@[k]@
                    == "ZZZ".spec_bytes())) && arrived(
                network.edges@,
                list,
                start,
                ends,
                count as nat,
            ),
{
    let (moves, network) = match read_map(input.as_bytes()) {
        Some(read) => read,
        None => {
            return None;
        },
    };
    let start = match lookup(&network.names, &"AAA".as_bytes_vec()) {
        Some(start) => start,
        None => {
            return None;
        },
    };
    let wanted = "ZZZ".as_bytes_vec();
    let mut ends: Vec<bool> = Vec::new();
    let mut k: usize = 0;
    while k < network.names.len()
        invariant
            k <= network.names@.len(),
            ends@.len() == k,
            wanted@ == "ZZZ".spec_bytes(),
            forall|j: int|
                0 <= j < k ==> #[trigger] ends@[j] == (network.names@[j]@ == "ZZZ".spec_bytes()),
        decreases network.names@.len() - k,
    {
        ends.push(crate::text::same(&network.names[k], &wanted));
        k = k + 1;
    }
    let ghost list = moves.list@;
    let r = network.run(start, &ends, moves);
    proof {
        if r is Some {
            assert(arrived(network.edges@, list, start as int, ends@, r.unwrap() as nat));
        } else {
            assert(map_of(input.spec_bytes(), list, network) && astray(
                network.edges@,
                list,
                start as int,
                ends@,
            ));
        }
    }
    r
}

/// The lowest common multiple of two numbers.
pub open spec fn lcm(a: nat, b: nat) -> nat {
    (a / gcd(a, b)) * b
}

/// A number holds its greatest common divisor with another at least once.
pub proof fn lemma_step(value: nat, count: nat)
    requires
        value >= 1,
        count >= 1,
    ensures
        value / gcd(value, count) >= 1,
{
    lemma_gcd(value, count);
    let g = gcd(value, count);
    let k = choose|k: nat| value == #[trigger] (k * g);
    assert(k >= 1) by (nonlinear_arith)
        requires
            value == k * g,
            value >= 1,
    ;
    assert(value as int == g as int * k as int) by (nonlinear_arith)
        requires
            value == k * g,
    ;
    vstd::arithmetic::div_mod::lemma_div_multiples_vanish(k as int, g as int);
}

/// The lowest common multiple of the numbers, folded from the first on.
pub open spec fn folded(counts: Seq<nat>) -> nat
    decreases counts.len(),
{
    if counts.len() == 0 {
        0
    } else if counts.len() == 1 {
        counts[0]
    } else {
        lcm(folded(counts.drop_last()), counts.last())
    }
}

/// The nodes among the first `upto` whose names end with `A`.
pub open spec fn ghosts(names: Seq<Vec<u8>>, upto: int) -> Seq<int>
    decreases upto,
{
    if upto <= 0 {
        Seq::empty()
    } else if ends_with(names[upto - 1]@, 0x41) {
        ghosts(names, upto - 1).push(upto - 1)
    } else {
        ghosts(names, upto - 1)
    }
}

/// The nodes among the first that end with `A` come first among all that
/// do.
proof fn lemma_ghosts(names: Seq<Vec<u8>>, upto: int, all: int)
    requires
        0 <= upto <= all,
    ensures
        ghosts(names, upto).len() <= ghosts(names, all).len(),
        forall|k: int|
            0 <= k < ghosts(names, upto).len() ==> #[trigger] ghosts(names, all)[k] == ghosts(
                names,
                upto,
            )[k],
    decreases all - upto,
{
    if upto < all {
        lemma_ghosts(names, upto, all - 1);
    }
}

/// `counts` holds, for each node whose name ends with `A`, after how many
/// turns the walk from there first comes to a node whose name ends with
/// `Z`.
pub open spec fn haunted(network: Network, list: Seq<Direction>, counts: Seq<nat>) -> bool {
    let starts = ghosts(network.names@, network.names@.len() as int);
    let ends = Seq::new(network.names@.len(), |k: int| ends_with(network.names@[k]@, 0x5a));
    counts.len() == starts.len() && forall|i: int|
        0 <= i < counts.len() ==> arrived(network.edges@, list, starts[i], ends, #[trigger] counts[i])
}

/// No node ends with `A`; or the walk from one that does comes to no node
/// that ends with `Z` within as many turns as `limit` says, or stands on one
/// from the start; or the lowest common multiple of the numbers of turns of
/// the first walks is no number of the machine.
pub open spec fn unhaunted(network: Network, list: Seq<Direction>) -> bool {
    let starts = ghosts(network.names@, network.names@.len() as int);
    let ends = Seq::new(network.names@.len(), |k: int| ends_with(network.names@[k]@, 0x5a));
    ||| starts.len() == 0
    ||| exists|i: int|
        0 <= i < starts.len() && (astray(network.edges@, list, #[trigger] starts[i], ends)
            || ends[starts[i]])
    ||| exists|counts: Seq<nat>|
        #![trigger folded(counts)]
        2 <= counts.len() <= starts.len() && (forall|i: int|
            0 <= i < counts.len() ==> arrived(
                network.edges@,
                list,
                starts[i],
                ends,
                #[trigger] counts[i],
            )) && lcm(folded(counts.drop_last()), counts.last()) > usize::MAX
}

/// The lowest common multiple of the numbers of turns after which the
/// walks from the nodes that end with `A` first come to a node that ends
/// with `Z`. `None` where the text holds no turns and network, where no node
/// ends with `A`, where a walk does not come to its end within `limit`
/// turns or needs no turn at all, or where a multiple is no number of the
/// machine.
pub fn solve_part2(input: &str) -> (r: Option<usize>)
    ensures
        r is None ==> unmapped(input.spec_bytes()) || exists|list: Seq<Direction>, network: Network|
            #![trigger map_of(input.spec_bytes(), list, network)]
            map_of(input.spec_bytes(), list, network) && unhaunted(network, list),
        r matches Some(turns) ==> exists|list: Seq<Direction>, network: Network, counts: Seq<nat>|
            #![trigger map_of(input.spec_bytes(), list, network), folded(counts)]
            map_of(input.spec_bytes(), list, network) && haunted(network, list, counts)
                && counts.len() >= 1 && turns == folded(counts),
{
    let (moves, network) = match read_map(input.as_bytes()) {
        Some(read) => read,
        None => {
            return None;
        },
    };
    let ends = ending(&network.names, 0x5a);
    let ghost marks = Seq::new(network.names@.len(), |k: int| ends_with(network.names@[k]@, 0x5a));
    proof {
        assert(ends@ =~= marks);
    }
    let ghost mut counts: Seq<nat> = Seq::empty();
    let mut total: Option<usize> = None;
    let mut node: usize = 0;
    while node < network.names.len()
        invariant
            node <= network.names@.len(),
            network.wf(),
            map_of(input.spec_bytes(), moves.list@, network),
            moves.list@.len() >= 1,
            ends@ == marks,
            marks.len() == network.names@.len(),
            forall|k: int|
                0 <= k < marks.len() ==> #[trigger] marks[k] == ends_with(network.names@[k]@, 0x5a),
            counts.len() == ghosts(network.names@, node as int).len(),
            forall|i: int|
                0 <= i < counts.len() ==> arrived(
                    network.edges@,
                    moves.list@,
                    ghosts(network.names@, node as int)[i],
                    marks,
                    #[trigger] counts[i],
                ),
            match total {
                Some(value) => counts.len() >= 1 && value == folded(counts) && value >= 1,
                None => counts.len() == 0,
            },
        decreases network.names@.len() - node,
    {
        let name = &network.names[node];
        let ghost before = ghosts(network.names@, node as int);
        let ghost held = counts;
        let ghost starts = ghosts(network.names@, network.names@.len() as int);
        if name.len() >= 1 && name[name.len() - 1] == 0x41 {
            proof {
                let now = ghosts(network.names@, node + 1);
                assert(now == before.push(node as int));
                lemma_ghosts(network.names@, node + 1, network.names@.len() as int);
                assert(starts[before.len() as int] == now[before.len() as int]);
                assert(before.len() < starts.len());
                assert(marks =~= Seq::new(
                    network.names@.len(),
                    |k: int| ends_with(network.names@[k]@, 0x5a),
                ));
                lemma_ghosts(network.names@, node as int, network.names@.len() as int);
                assert(map_of(input.spec_bytes(), moves.list@, network));
            }
            let count = match network.run(node, &ends, again(&moves.list)) {
                Some(count) => count,
                None => {
                    proof {
                        assert(astray(network.edges@, moves.list@, starts[before.len() as int], marks));
                        assert(unhaunted(network, moves.list@));
                    }
                    return None;
                },
            };
            if count == 0 {
                proof {
                    assert(marks[starts[before.len() as int]]);
                    assert(unhaunted(network, moves.list@));
                }
                return None;
            }
            proof {
                counts = counts.push(count as nat);
                assert(counts.drop_last() =~= held);
                let now = ghosts(network.names@, node + 1);
                assert(now == before.push(node as int));
                assert(arrived(network.edges@, moves.list@, node as int, marks, count as nat));
                assert forall|i: int| 0 <= i < counts.len() implies arrived(
                    network.edges@,
                    moves.list@,
                    now[i],
                    marks,
                    #[trigger] counts[i],
                ) by {
                    if i < held.len() {
                        assert(counts[i] == held[i]);
                        assert(now[i] == before[i]);
                    }
                }
            }
            total = match total {
                Some(value) => {
                    let step = value / greatest_common_divisor(value, count);
                    match step.checked_mul(count) {
                        Some(next) => {
                            proof {
                                lemma_step(value as nat, count as nat);
                                assert(next >= 1) by (nonlinear_arith)
                                    requires
                                        step >= 1,
                                        count >= 1,
                                        next == step * count,
                                ;
                            }
                            Some(next)
                        },
                        None => {
                            proof {
                                assert(counts.len() >= 2);
                                assert(counts.len() == ghosts(network.names@, node + 1).len());
                                assert(counts.len() <= starts.len());
                                let whole = folded(counts);
                                assert(whole == lcm(folded(counts.drop_last()), counts.last()));
                                assert(counts.last() == count);
                                assert(folded(counts.drop_last()) == value);
                                assert(lcm(value as nat, count as nat) > usize::MAX);
                                assert forall|i: int| 0 <= i < counts.len() implies arrived(
                                    network.edges@,
                                    moves.list@,
                                    starts[i],
                                    marks,
                                    #[trigger] counts[i],
                                ) by {
                                    let now = ghosts(network.names@, node + 1);
                                    assert(starts[i] == now[i]);
                                }
                                assert(unhaunted(network, moves.list@));
                            }
                            return None;
                        },
                    }
                },
                None => Some(count),
            };
        }
        node = node + 1;
    }
    proof {
        assert(haunted(network, moves.list@, counts));
        if total is None {
            assert(unhaunted(network, moves.list@));
        }
    }
    total
}

} // verus!
