//! An almanac of maps from one kind of number to the next.

use crate::text::{
    blocks, find_gap, line_end, lines, numbers_in, read_numbers, rows_of, split_lines,
};
use vstd::multiset::group_multiset_axioms;
use vstd::prelude::*;
use vstd::seq_lib::{to_multiset_build, to_multiset_remove};
use vstd::slice::*;
use vstd::string::*;

verus! {

broadcast use group_multiset_axioms;

/// `length` numbers from `start` on.
#[derive(Debug, PartialEq, Eq, Structural)]
pub struct Range {
    pub start: usize,
    pub length: usize,
}

/// One line of a map: the `length` numbers from `source_start` on go to the
/// numbers from `destination_start` on.
pub struct RangeMap {
    pub source_start: usize,
    pub destination_start: usize,
    pub length: usize,
}

impl RangeMap {
    /// The line is in order: it maps a number, and none beyond the numbers
    /// of the machine.
    pub open spec fn wf(&self) -> bool {
        &&& self.length >= 1
        &&& self.source_start + self.length <= usize::MAX
        &&& self.destination_start + self.length <= usize::MAX
    }

    /// The line maps `value`.
    pub open spec fn covers(&self, value: int) -> bool {
        self.source_start <= value < self.source_start + self.length
    }

    /// Where the line sends `value`.
    pub open spec fn image(&self, value: int) -> int {
        self.destination_start + (value - self.source_start)
    }

    /// Where the line sends `source_value`; `None` for a number that it does
    /// not map.
    pub fn lookup(&self, source_value: usize) -> (r: Option<usize>)
        requires
            self.wf(),
        ensures
            r == if self.covers(source_value as int) {
                Some(self.image(source_value as int) as usize)
            } else {
                None
            },
    {
        if source_value < self.source_start {
            return None;
        }
        let diff = source_value - self.source_start;
        if diff > self.length - 1 {
            return None;
        }
        Some(self.destination_start + diff)
    }
}

/// A map: its lines, in the order of the numbers that they map.
pub struct Conversion {
    pub ranges: Vec<RangeMap>,
}

/// Where the first of the lines from `from` on that maps `value` sends it;
/// `value` itself where none maps it.
pub open spec fn sent(ranges: Seq<RangeMap>, value: int, from: int) -> int
    decreases ranges.len() - from,
{
    if from < 0 || from >= ranges.len() {
        value
    } else if ranges[from].covers(value) {
        ranges[from].image(value)
    } else {
        sent(ranges, value, from + 1)
    }
}

impl Conversion {
    /// Every line is in order.
    pub open spec fn wf(&self) -> bool {
        forall|i: int| 0 <= i < self.ranges@.len() ==> (#[trigger] self.ranges@[i]).wf()
    }

    /// Where the map sends `value`.
    pub open spec fn at(&self, value: int) -> int {
        sent(self.ranges@, value, 0)
    }

    /// Where the map sends `source_value`: where the first line that maps it
    /// sends it, or to itself.
    pub fn lookup_single(&self, source_value: usize) -> (r: usize)
        requires
            self.wf(),
        ensures
            r == self.at(source_value as int),
    {
        let mut i: usize = 0;
        while i < self.ranges.len()
            invariant
                self.wf(),
                i <= self.ranges@.len(),
                sent(self.ranges@, source_value as int, i as int) == self.at(source_value as int),
            decreases self.ranges@.len() - i,
        {
            match self.ranges[i].lookup(source_value) {
                Some(destination_value) => {
                    return destination_value;
                },
                None => {},
            }
            i = i + 1;
        }
        source_value
    }
}

/// `value` is one of the numbers of `range`.
pub open spec fn within(range: Range, value: int) -> bool {
    range.start <= value < range.start + range.length
}

/// `value` is a number of one of the ranges.
pub open spec fn among(ranges: Seq<Range>, value: int) -> bool {
    exists|k: int| 0 <= k < ranges.len() && within(#[trigger] ranges[k], value)
}

/// How many numbers the ranges hold, each counted as often as a range holds
/// it.
pub open spec fn total(ranges: Seq<Range>) -> nat
    decreases ranges.len(),
{
    if ranges.len() == 0 {
        0
    } else {
        total(ranges.drop_last()) + ranges.last().length as nat
    }
}

/// The lines come one after the other: each ends before the next begins.
pub open spec fn ordered(ranges: Seq<RangeMap>) -> bool {
    forall|i: int, j: int|
        0 <= i < j < ranges.len() ==> (#[trigger] ranges[i]).source_start + ranges[i].length <= (
        #[trigger] ranges[j]).source_start
}

/// A number that no line maps stays as it is.
pub proof fn lemma_unmapped(ranges: Seq<RangeMap>, value: int, from: int)
    requires
        0 <= from,
        forall|i: int| from <= i < ranges.len() ==> !(#[trigger] ranges[i]).covers(value),
    ensures
        sent(ranges, value, from) == value,
    decreases ranges.len() - from,
{
    if from < ranges.len() {
        lemma_unmapped(ranges, value, from + 1);
    }
}

/// A number goes where the one line that maps it sends it.
pub proof fn lemma_mapped(ranges: Seq<RangeMap>, value: int, from: int, at: int)
    requires
        0 <= from <= at < ranges.len(),
        ranges[at].covers(value),
        forall|i: int| from <= i < at ==> !(#[trigger] ranges[i]).covers(value),
    ensures
        sent(ranges, value, from) == ranges[at].image(value),
    decreases at - from,
{
    if from < at {
        lemma_mapped(ranges, value, from + 1, at);
    }
}

impl Conversion {
    /// Where the map sends the numbers of `range`: ranges that hold, between
    /// them, just the numbers that those of `range` are sent to, and as many
    /// numbers as `range` holds. They come in the order of the numbers of
    /// `range` that they stand for.
    pub fn lookup_range(&self, range: Range) -> (results: Vec<Range>)
        requires
            self.wf(),
            ordered(self.ranges@),
            range.start + range.length <= usize::MAX,
        ensures
            forall|value: int| within(range, value) ==> among(results@, #[trigger] self.at(value)),
            forall|k: int, sent: int|
                0 <= k < results@.len() && #[trigger] within(results@[k], sent) ==> exists|
                    value: int,
                | within(range, value) && #[trigger] self.at(value) == sent,
            total(results@) == range.length,
            forall|k: int|
                0 <= k < results@.len() ==> (#[trigger] results@[k]).length >= 1 && results@[k].start
                    + results@[k].length <= usize::MAX,
    {
        let mut results: Vec<Range> = Vec::new();
        let mut current = range.start;
        let mut remaining = range.length;
        let mut map_index: usize = 0;
        let ghost end = range.start + range.length;
        while remaining > 0 && map_index < self.ranges.len()
            invariant
                self.wf(),
                ordered(self.ranges@),
                end == range.start + range.length,
                end <= usize::MAX,
                range.start <= current,
                current + remaining == end,
                map_index <= self.ranges@.len(),
                forall|j: int|
                    0 <= j < map_index ==> (#[trigger] self.ranges@[j]).source_start
                        + self.ranges@[j].length <= current || remaining == 0,
                forall|value: int|
                    range.start <= value < current ==> among(results@, #[trigger] self.at(value)),
                forall|k: int, sent: int|
                    0 <= k < results@.len() && #[trigger] within(results@[k], sent) ==> exists|
                        value: int,
                    | range.start <= value < current && #[trigger] self.at(value) == sent,
                total(results@) + remaining == range.length,
                forall|k: int|
                    0 <= k < results@.len() ==> (#[trigger] results@[k]).length >= 1
                        && results@[k].start + results@[k].length <= usize::MAX,
            ensures
                forall|k: int|
                    0 <= k < results@.len() ==> (#[trigger] results@[k]).length >= 1
                        && results@[k].start + results@[k].length <= usize::MAX,
                end == range.start + range.length,
                range.start <= current,
                current + remaining == end,
                forall|j: int|
                    0 <= j < self.ranges@.len() ==> (#[trigger] self.ranges@[j]).source_start
                        + self.ranges@[j].length <= current || self.ranges@[j].source_start
                        >= end || remaining == 0,
                forall|value: int|
                    range.start <= value < current ==> among(results@, #[trigger] self.at(value)),
                forall|k: int, sent: int|
                    0 <= k < results@.len() && #[trigger] within(results@[k], sent) ==> exists|
                        value: int,
                    | range.start <= value < current && #[trigger] self.at(value) == sent,
                total(results@) + remaining == range.length,
            decreases self.ranges@.len() - map_index,
        {
            let range_map = &self.ranges[map_index];
            let ghost at = map_index as int;
            let ghost lines = self.ranges@;
            assert(lines[at].wf());
            if range_map.source_start > current + remaining - 1 {
                proof {
                    assert forall|j: int| 0 <= j < lines.len() implies (#[trigger] lines[j]).source_start
                        + lines[j].length <= current || lines[j].source_start >= end by {
                        if j > at {
                            assert(lines[at].source_start + lines[at].length <= lines[j].source_start);
                        }
                    }
                }
                break ;
            }
            map_index = map_index + 1;
            if range_map.source_start + (range_map.length - 1) < current {
                continue ;
            }
            if current < range_map.source_start {
                let length = range_map.source_start - current;
                let ghost before = results@;
                let ghost from = current as int;
                results.push(Range { start: current, length });
                proof {
                    lemma_pushed(before, Range { start: current, length });
                    assert forall|value: int| from <= value < from + length implies self.at(value)
                        == value by {
                        assert forall|i: int| 0 <= i < lines.len() implies !(#[trigger] lines[i]).covers(
                            value,
                        ) by {
                            if i > at {
                                assert(lines[at].source_start + lines[at].length
                                    <= lines[i].source_start);
                            }
                        }
                        lemma_unmapped(lines, value, 0);
                    }
                    assert forall|value: int| range.start <= value < from + length implies among(
                        results@,
                        #[trigger] self.at(value),
                    ) by {
                        if value >= from {
                            assert(within(results@[before.len() as int], value));
                        } else {
                            let k = choose|k: int|
                                0 <= k < before.len() && within(#[trigger] before[k], self.at(value));
                            assert(results@[k] == before[k]);
                        }
                    }
                    assert forall|k: int, sent: int|
                        0 <= k < results@.len() && #[trigger] within(
                            results@[k],
                            sent,
                        ) implies exists|value: int|
                        range.start <= value < from + length && #[trigger] self.at(value)
                            == sent by {
                        if k == before.len() {
                            assert(self.at(sent) == sent);
                        } else {
                            assert(results@[k] == before[k]);
                        }
                    }
                }
                current = range_map.source_start;
                remaining = remaining - length;
            }
            let diff = current - range_map.source_start;
            let mapped_length = range_map.length - diff;
            let taken = if mapped_length > remaining {
                remaining
            } else {
                mapped_length
            };
            let ghost before = results@;
            let ghost from = current as int;
            let piece = Range { start: range_map.destination_start + diff, length: taken };
            results.push(piece);
            proof {
                lemma_pushed(before, piece);
                assert forall|value: int| from <= value < from + taken implies self.at(value)
                    == lines[at].image(value) by {
                    assert forall|i: int| 0 <= i < at implies !(#[trigger] lines[i]).covers(
                        value,
                    ) by {}
                    lemma_mapped(lines, value, 0, at);
                }
                assert forall|value: int| range.start <= value < from + taken implies among(
                    results@,
                    #[trigger] self.at(value),
                ) by {
                    if value >= from {
                        assert(within(results@[before.len() as int], self.at(value)));
                    } else {
                        let k = choose|k: int|
                            0 <= k < before.len() && within(#[trigger] before[k], self.at(value));
                        assert(results@[k] == before[k]);
                    }
                }
                assert forall|k: int, sent: int|
                    0 <= k < results@.len() && #[trigger] within(results@[k], sent) implies exists|
                    value: int,
                | range.start <= value < from + taken && #[trigger] self.at(value) == sent by {
                    if k == before.len() {
                        let value = sent - lines[at].destination_start + lines[at].source_start;
                        assert(self.at(value) == sent);
                    } else {
                        assert(results@[k] == before[k]);
                    }
                }
            }
            current = current + taken;
            remaining = remaining - taken;
        }
        if remaining > 0 {
            let ghost before = results@;
            let ghost from = current as int;
            let ghost lines = self.ranges@;
            results.push(Range { start: current, length: remaining });
            proof {
                lemma_pushed(before, Range { start: current, length: remaining });
                assert forall|value: int| from <= value < end implies self.at(value) == value by {
                    assert forall|i: int| 0 <= i < lines.len() implies !(#[trigger] lines[i]).covers(
                        value,
                    ) by {}
                    lemma_unmapped(lines, value, 0);
                }
                assert forall|value: int| within(range, value) implies among(
                    results@,
                    #[trigger] self.at(value),
                ) by {
                    if value >= from {
                        assert(within(results@[before.len() as int], value));
                    } else {
                        let k = choose|k: int|
                            0 <= k < before.len() && within(#[trigger] before[k], self.at(value));
                        assert(results@[k] == before[k]);
                    }
                }
                assert forall|k: int, sent: int|
                    0 <= k < results@.len() && #[trigger] within(results@[k], sent) implies exists|
                    value: int,
                | within(range, value) && #[trigger] self.at(value) == sent by {
                    if k == before.len() {
                        assert(self.at(sent) == sent);
                    } else {
                        assert(results@[k] == before[k]);
                    }
                }
            }
        }
        results
    }
}

impl Almanac {
    /// The least number that the maps, one after the other, send a number
    /// of `seed_range` to.
    pub fn min_location_for_range(&self, seed_range: Range) -> (r: usize)
        requires
            self.wf(),
            forall|i: int| 0 <= i < self.maps@.len() ==> ordered((#[trigger] self.maps@[i]).ranges@),
            seed_range.length >= 1,
            seed_range.start + seed_range.length <= usize::MAX,
        ensures
            forall|seed: int|
                within(seed_range, seed) ==> r <= #[trigger] through(
                    self.maps@,
                    seed,
                    self.maps@.len() as int,
                ),
            exists|seed: int|
                within(seed_range, seed) && #[trigger] through(
                    self.maps@,
                    seed,
                    self.maps@.len() as int,
                ) == r,
    {
        let ghost maps = self.maps@;
        let mut ranges: Vec<Range> = Vec::new();
        ranges.push(seed_range);
        let mut i: usize = 0;
        proof {
            assert forall|seed: int| within(seed_range, seed) implies among(
                ranges@,
                #[trigger] through(maps, seed, 0),
            ) by {
                assert(within(ranges@[0], seed));
            }
            assert forall|k: int, sent: int|
                0 <= k < ranges@.len() && #[trigger] within(ranges@[k], sent) implies exists|
                seed: int,
            | within(seed_range, seed) && #[trigger] through(maps, seed, 0) == sent by {
                assert(through(maps, sent, 0) == sent);
            }
        }
        while i < self.maps.len()
            invariant
                self.wf(),
                maps == self.maps@,
                forall|i: int| 0 <= i < maps.len() ==> ordered((#[trigger] maps[i]).ranges@),
                i <= maps.len(),
                ranges@.len() >= 1,
                forall|k: int|
                    0 <= k < ranges@.len() ==> (#[trigger] ranges@[k]).length >= 1 && ranges@[k].start
                        + ranges@[k].length <= usize::MAX,
                forall|seed: int|
                    within(seed_range, seed) ==> among(ranges@, #[trigger] through(maps, seed, i as int)),
                forall|k: int, sent: int|
                    0 <= k < ranges@.len() && #[trigger] within(ranges@[k], sent) ==> exists|
                        seed: int,
                    | within(seed_range, seed) && #[trigger] through(maps, seed, i as int) == sent,
            decreases maps.len() - i,
        {
            let map = &self.maps[i];
            let ghost now = maps[i as int];
            assert(now.wf());
            assert(ordered(now.ranges@));
            let mut next: Vec<Range> = Vec::new();
            let mut k: usize = 0;
            while k < ranges.len()
                invariant
                    now == *map,
                    now.wf(),
                    ordered(now.ranges@),
                    k <= ranges@.len(),
                    ranges@.len() >= 1,
                    k >= 1 ==> next@.len() >= 1,
                    forall|k: int|
                        0 <= k < ranges@.len() ==> (#[trigger] ranges@[k]).length >= 1
                            && ranges@[k].start + ranges@[k].length <= usize::MAX,
                    forall|k: int|
                        0 <= k < next@.len() ==> (#[trigger] next@[k]).length >= 1 && next@[k].start
                            + next@[k].length <= usize::MAX,
                    forall|j: int, value: int|
                        0 <= j < k && #[trigger] within(ranges@[j], value) ==> among(
                            next@,
                            now.at(value),
                        ),
                    forall|n: int, sent: int|
                        0 <= n < next@.len() && #[trigger] within(next@[n], sent) ==> exists|
                            j: int,
                            value: int,
                        |
                            0 <= j < k && #[trigger] within(ranges@[j], value) && now.at(value)
                                == sent,
                decreases ranges@.len() - k,
            {
                let piece = Range { start: ranges[k].start, length: ranges[k].length };
                let ghost from = ranges@[k as int];
                let ghost before = next@;
                let mut found = map.lookup_range(piece);
                let ghost found_seq = found@;
                proof {
                    lemma_total_positive(found_seq);
                }
                next.append(&mut found);
                proof {
                    assert(next@ == before + found_seq);
                    assert forall|j: int, value: int|
                        0 <= j < k + 1 && #[trigger] within(ranges@[j], value) implies among(
                        next@,
                        now.at(value),
                    ) by {
                        if j < k {
                            let n = choose|n: int|
                                0 <= n < before.len() && within(#[trigger] before[n], now.at(value));
                            assert(next@[n] == before[n]);
                        } else {
                            assert(within(piece, value));
                            let n = choose|n: int|
                                0 <= n < found_seq.len() && within(
                                    #[trigger] found_seq[n],
                                    now.at(value),
                                );
                            assert(next@[before.len() + n] == found_seq[n]);
                        }
                    }
                    assert forall|n: int, sent: int|
                        0 <= n < next@.len() && #[trigger] within(next@[n], sent) implies exists|
                        j: int,
                        value: int,
                    |
                        0 <= j < k + 1 && #[trigger] within(ranges@[j], value) && now.at(value)
                            == sent by {
                        if n < before.len() {
                            assert(next@[n] == before[n]);
                        } else {
                            let m = n - before.len();
                            assert(next@[n] == found_seq[m]);
                            assert(within(found_seq[m], sent));
                            let value = choose|value: int|
                                within(piece, value) && #[trigger] now.at(value) == sent;
                            assert(within(ranges@[k as int], value));
                        }
                    }
                    assert forall|n: int| 0 <= n < next@.len() implies (#[trigger] next@[n]).length
                        >= 1 && next@[n].start + next@[n].length <= usize::MAX by {
                        if n < before.len() {
                            assert(next@[n] == before[n]);
                        } else {
                            assert(next@[n] == found_seq[n - before.len()]);
                        }
                    }
                }
                k = k + 1;
            }
            proof {
                let done = ranges@;
                assert forall|seed: int| within(seed_range, seed) implies among(
                    next@,
                    #[trigger] through(maps, seed, i + 1),
                ) by {
                    let at = through(maps, seed, i as int);
                    let j = choose|j: int| 0 <= j < done.len() && within(#[trigger] done[j], at);
                    assert(within(done[j], at));
                }
                assert forall|n: int, sent: int|
                    0 <= n < next@.len() && #[trigger] within(next@[n], sent) implies exists|
                    seed: int,
                | within(seed_range, seed) && #[trigger] through(maps, seed, i + 1) == sent by {
                    let (j, value) = choose|j: int, value: int|
                        0 <= j < done.len() && #[trigger] within(done[j], value) && now.at(value)
                            == sent;
                    let seed = choose|seed: int|
                        within(seed_range, seed) && #[trigger] through(maps, seed, i as int)
                            == value;
                    assert(through(maps, seed, i + 1) == sent);
                }
            }
            ranges = next;
            i = i + 1;
        }
        let mut least = ranges[0].start;
        let mut k: usize = 1;
        while k < ranges.len()
            invariant
                1 <= k <= ranges@.len(),
                forall|j: int| 0 <= j < k ==> least <= (#[trigger] ranges@[j]).start,
                exists|j: int| 0 <= j < k && (#[trigger] ranges@[j]).start == least,
            decreases ranges@.len() - k,
        {
            if ranges[k].start < least {
                least = ranges[k].start;
            }
            k = k + 1;
        }
        proof {
            let n = maps.len() as int;
            assert forall|seed: int| within(seed_range, seed) implies least <= #[trigger] through(
                maps,
                seed,
                n,
            ) by {
                let j = choose|j: int|
                    0 <= j < ranges@.len() && within(#[trigger] ranges@[j], through(maps, seed, n));
            }
            let j = choose|j: int| 0 <= j < ranges@.len() && (#[trigger] ranges@[j]).start == least;
            assert(within(ranges@[j], least as int));
        }
        least
    }
}

/// Ranges that hold a number have a range among them.
proof fn lemma_total_positive(ranges: Seq<Range>)
    ensures
        total(ranges) >= 1 ==> ranges.len() >= 1,
{
}

/// A range more adds its numbers to the total.
proof fn lemma_pushed(ranges: Seq<Range>, more: Range)
    ensures
        total(ranges.push(more)) == total(ranges) + more.length,
{
    assert(ranges.push(more).drop_last() =~= ranges);
}

/// The maps of an almanac, in the order in which a number goes through them.
pub struct Almanac {
    pub maps: Vec<Conversion>,
}

/// Where the first `upto` maps send `seed`, one after the other.
pub open spec fn through(maps: Seq<Conversion>, seed: int, upto: int) -> int
    decreases upto,
{
    if upto <= 0 {
        seed
    } else {
        maps[upto - 1].at(through(maps, seed, upto - 1))
    }
}

impl Almanac {
    /// Every map is in order.
    pub open spec fn wf(&self) -> bool {
        forall|i: int| 0 <= i < self.maps@.len() ==> (#[trigger] self.maps@[i]).wf()
    }

    /// Where the maps send `seed`, one after the other.
    pub fn location_for_seed(&self, seed: usize) -> (r: usize)
        requires
            self.wf(),
        ensures
            r == through(self.maps@, seed as int, self.maps@.len() as int),
    {
        let mut current = seed;
        let mut i: usize = 0;
        while i < self.maps.len()
            invariant
                self.wf(),
                i <= self.maps@.len(),
                current == through(self.maps@, seed as int, i as int),
            decreases self.maps@.len() - i,
        {
            current = self.maps[i].lookup_single(current);
            i = i + 1;
        }
        current
    }
}

/// The lines stand in the order of the numbers at which they start.
pub open spec fn rising(ranges: Seq<RangeMap>) -> bool {
    forall|i: int, j: int|
        0 <= i < j < ranges.len() ==> (#[trigger] ranges[i]).source_start <= (
        #[trigger] ranges[j]).source_start
}

impl RangeMap {
    /// The line of a map that three numbers stand for: the number at which
    /// the destinations start, the number at which the sources start, and how
    /// many numbers the line maps. `None` where there are not just three
    /// numbers of the machine.
    pub open spec fn of(numbers: Seq<nat>) -> Option<RangeMap> {
        if numbers.len() == 3 && numbers[0] <= usize::MAX && numbers[1] <= usize::MAX
            && numbers[2] <= usize::MAX {
            Some(
                RangeMap {
                    destination_start: numbers[0] as usize,
                    source_start: numbers[1] as usize,
                    length: numbers[2] as usize,
                },
            )
        } else {
            None
        }
    }

    /// Reads a line of a map from the numbers that stand between `from` and
    /// `to`.
    pub fn from(bytes: &[u8], from: usize, to: usize) -> (r: Option<Self>)
        requires
            from <= to <= bytes@.len(),
        ensures
            r == RangeMap::of(numbers_in(bytes@.subrange(from as int, to as int))),
    {
        match read_numbers(bytes, from, to) {
            Some(numbers) => {
                if numbers.len() == 3 {
                    proof {
                        let read = numbers@.map_values(|n: usize| n as nat);
                        assert(read =~= seq![numbers[0] as nat, numbers[1] as nat, numbers[2] as nat]);
                    }
                    Some(
                        RangeMap {
                            destination_start: numbers[0],
                            source_start: numbers[1],
                            length: numbers[2],
                        },
                    )
                } else {
                    proof {
                        assert(numbers@.map_values(|n: usize| n as nat).len() == numbers@.len());
                    }
                    None
                }
            },
            None => None,
        }
    }
}

/// Where a line goes into the lines of a map: behind the lines at their
/// front that start no later.
pub open spec fn slot(pile: Seq<RangeMap>, line: RangeMap) -> nat
    decreases pile.len(),
{
    if pile.len() == 0 || pile[0].source_start > line.source_start {
        0
    } else {
        1 + slot(pile.drop_first(), line)
    }
}

/// The lines in the order of the numbers at which they start, those that
/// start at one number in the order in which they came.
pub open spec fn arranged(lines: Seq<RangeMap>) -> Seq<RangeMap>
    decreases lines.len(),
{
    if lines.len() == 0 {
        Seq::empty()
    } else {
        let before = arranged(lines.drop_last());
        before.insert(slot(before, lines.last()) as int, lines.last())
    }
}

/// Each line is in order, and ends before the next begins.
pub open spec fn sound(ranges: Seq<RangeMap>) -> bool {
    &&& forall|i: int| 0 <= i < ranges.len() ==> (#[trigger] ranges[i]).wf()
    &&& forall|i: int|
        0 <= i && i + 1 < ranges.len() ==> (#[trigger] ranges[i]).source_start + ranges[i].length
            <= ranges[i + 1].source_start
}

proof fn lemma_slot(pile: Seq<RangeMap>, line: RangeMap, place: int)
    requires
        0 <= place <= pile.len(),
        forall|k: int| 0 <= k < place ==> (#[trigger] pile[k]).source_start <= line.source_start,
        place < pile.len() ==> pile[place].source_start > line.source_start,
    ensures
        slot(pile, line) == place,
    decreases pile.len(),
{
    if place > 0 {
        let rest = pile.drop_first();
        assert(pile[0].source_start <= line.source_start);
        assert forall|k: int| 0 <= k < place - 1 implies (#[trigger] rest[k]).source_start
            <= line.source_start by {
            assert(rest[k] == pile[k + 1]);
        }
        if place < pile.len() {
            assert(rest[place - 1] == pile[place]);
        }
        lemma_slot(rest, line, place - 1);
    }
}

/// The lines that the lines of a text stand for, one for each. `None` where
/// a line of the text holds no line of a map.
pub open spec fn lines_of(text: Seq<Seq<u8>>) -> Option<Seq<RangeMap>>
    decreases text.len(),
{
    if text.len() == 0 {
        Some(Seq::empty())
    } else {
        match (lines_of(text.drop_last()), RangeMap::of(numbers_in(text.last()))) {
            (Some(before), Some(line)) => Some(before.push(line)),
            _ => None,
        }
    }
}

proof fn lemma_lines_none(text: Seq<Seq<u8>>, upto: int)
    requires
        0 <= upto <= text.len(),
        lines_of(text.take(upto)) is None,
    ensures
        lines_of(text) is None,
    decreases text.len() - upto,
{
    if upto < text.len() {
        assert(text.take(upto + 1).drop_last() =~= text.take(upto));
        lemma_lines_none(text, upto + 1);
    } else {
        assert(text.take(upto) =~= text);
    }
}

/// The map that a part of a text stands for: a heading, then a line for
/// each line of the map. `None` where a line holds no line of a map, or
/// where the lines, brought into order, are not `sound`.
pub open spec fn map_of(part: Seq<u8>) -> Option<Seq<RangeMap>> {
    let rows = if lines(part).len() == 0 {
        lines(part)
    } else {
        lines(part).drop_first()
    };
    match lines_of(rows) {
        Some(read) => if sound(arranged(read)) {
            Some(arranged(read))
        } else {
            None
        },
        None => None,
    }
}

impl Conversion {
    /// The map of these lines, brought into the order of the numbers that
    /// they map. `None` where the lines in that order are not `sound`.
    pub fn new(lines: Vec<RangeMap>) -> (r: Option<Self>)
        ensures
            match r {
                Some(map) => map.ranges@ == arranged(lines@) && sound(map.ranges@) && map.wf()
                    && ordered(map.ranges@),
                None => !sound(arranged(lines@)),
            },
    {
        let ghost all = lines@;
        let mut sorted: Vec<RangeMap> = Vec::new();
        proof {
            assert(all.take(0) =~= Seq::<RangeMap>::empty());
        }
        for line in it: lines.into_iter()
            invariant
                it.seq() == all,
                sorted@ == arranged(all.take(it.index() as int)),
        {
            let mut at: usize = 0;
            while at < sorted.len() && sorted[at].source_start <= line.source_start
                invariant
                    at <= sorted@.len(),
                    forall|k: int| 0 <= k < at ==> (#[trigger] sorted@[k]).source_start
                        <= line.source_start,
                decreases sorted@.len() - at,
            {
                at = at + 1;
            }
            proof {
                lemma_slot(sorted@, line, at as int);
                let more = all.take(it.index() + 1);
                assert(more.drop_last() =~= all.take(it.index() as int));
                assert(more.last() == line);
            }
            sorted.insert(at, line);
        }
        proof {
            assert(all.take(all.len() as int) =~= all);
        }
        let mut k: usize = 0;
        while k < sorted.len()
            invariant
                k <= sorted@.len(),
                all == lines@,
                sorted@ == arranged(all),
                forall|i: int| 0 <= i < k ==> (#[trigger] sorted@[i]).wf(),
                forall|i: int|
                    0 <= i < k && i + 1 < sorted@.len() ==> (#[trigger] sorted@[i]).source_start
                        + sorted@[i].length <= sorted@[i + 1].source_start,
            decreases sorted@.len() - k,
        {
            let line = &sorted[k];
            if line.length < 1 || line.length > usize::MAX - line.source_start || line.length
                > usize::MAX - line.destination_start {
                proof {
                    assert(!sorted@[k as int].wf());
                }
                return None;
            }
            if k + 1 < sorted.len() && line.source_start + line.length > sorted[k + 1].source_start {
                proof {
                    assert(!(sorted@[k as int].source_start + sorted@[k as int].length
                        <= sorted@[k + 1].source_start));
                }
                return None;
            }
            k = k + 1;
        }
        proof {
            lemma_ordered(sorted@);
        }
        Some(Conversion { ranges: sorted })
    }

    /// Reads a map: a heading, then a line for each line of the map.
    pub fn from(bytes: &[u8], from: usize, to: usize) -> (r: Option<Self>)
        requires
            from <= to <= bytes@.len(),
        ensures
            match r {
                Some(map) => map_of(bytes@.subrange(from as int, to as int)) == Some(map.ranges@)
                    && map.wf() && ordered(map.ranges@),
                None => map_of(bytes@.subrange(from as int, to as int)) is None,
            },
    {
        let rows = split_lines(slice_subrange(bytes, from, to));
        let ghost text = if rows@.len() == 0 {
            rows_of(rows@)
        } else {
            rows_of(rows@).drop_first()
        };
        let mut read: Vec<RangeMap> = Vec::new();
        let mut at: usize = 1;
        proof {
            assert(text.take(0) =~= Seq::<Seq<u8>>::empty());
        }
        while at < rows.len()
            invariant
                1 <= at,
                at <= rows@.len() || (rows@.len() == 0 && at == 1),
                rows_of(rows@) == lines(bytes@.subrange(from as int, to as int)),
                rows@.len() >= 1 ==> text == rows_of(rows@).drop_first(),
                rows@.len() == 0 ==> text.len() == 0,
                lines_of(text.take(at - 1)) == Some(read@),
            decreases rows@.len() - at,
        {
            let row = &rows[at];
            proof {
                assert(row@.subrange(0, row@.len() as int) =~= row@);
                assert(text[at - 1] == row@);
                assert(text.take(at as int).drop_last() =~= text.take(at - 1));
                assert(text.take(at as int).last() == row@);
            }
            match RangeMap::from(row.as_slice(), 0, row.len()) {
                Some(line) => {
                    read.push(line);
                },
                None => {
                    proof {
                        lemma_lines_none(text, at as int);
                    }
                    return None;
                },
            }
            at = at + 1;
        }
        proof {
            if rows@.len() >= 1 {
                assert(text.take(at - 1) =~= text);
            } else {
                assert(text.take(at - 1) =~= text);
            }
        }
        Conversion::new(read)
    }
}

/// Lines of which each ends before the next begins come one after the other.
proof fn lemma_ordered(ranges: Seq<RangeMap>)
    requires
        forall|i: int| 0 <= i < ranges.len() ==> (#[trigger] ranges[i]).wf(),
        forall|i: int|
            0 <= i && i + 1 < ranges.len() ==> (#[trigger] ranges[i]).source_start
                + ranges[i].length <= ranges[i + 1].source_start,
    ensures
        ordered(ranges),
{
    assert forall|i: int, j: int| 0 <= i < j < ranges.len() implies (#[trigger] ranges[i]).source_start
        + ranges[i].length <= (#[trigger] ranges[j]).source_start by {
        lemma_ordered_step(ranges, i, j);
    }
}

proof fn lemma_ordered_step(ranges: Seq<RangeMap>, i: int, j: int)
    requires
        0 <= i < j < ranges.len(),
        forall|i: int| 0 <= i < ranges.len() ==> (#[trigger] ranges[i]).wf(),
        forall|i: int|
            0 <= i && i + 1 < ranges.len() ==> (#[trigger] ranges[i]).source_start
                + ranges[i].length <= ranges[i + 1].source_start,
    ensures
        ranges[i].source_start + ranges[i].length <= ranges[j].source_start,
    decreases j - i,
{
    if i + 1 < j {
        lemma_ordered_step(ranges, i + 1, j);
        assert(ranges[i + 1].wf());
    }
}

/// The seeds of an almanac and its maps.
pub struct Puzzle {
    pub seeds: Vec<usize>,
    pub almanac: Almanac,
}

/// A number of the machine as a number.
pub open spec fn number(value: Option<usize>) -> Option<int> {
    match value {
        Some(value) => Some(value as int),
        None => None,
    }
}

/// The least of the first `upto` numbers; `None` of no numbers.
pub open spec fn least(numbers: Seq<int>, upto: int) -> Option<int>
    decreases upto,
{
    if upto <= 0 {
        None
    } else {
        match least(numbers, upto - 1) {
            Some(before) if before <= numbers[upto - 1] => Some(before),
            _ => Some(numbers[upto - 1]),
        }
    }
}

impl Puzzle {
    /// The puzzle is in order: so are its maps, with their lines one after
    /// the other.
    pub open spec fn wf(&self) -> bool {
        &&& self.almanac.wf()
        &&& forall|i: int|
            0 <= i < self.almanac.maps@.len() ==> ordered((#[trigger] self.almanac.maps@[i]).ranges@)
    }

    /// The maps are the ones that the parts of a text behind its first stand
    /// for.
    pub open spec fn charted(maps: Seq<Conversion>, parts: Seq<Seq<u8>>) -> bool {
        maps.len() == parts.len() - 1 && forall|i: int|
            0 <= i < maps.len() ==> map_of(parts[i + 1]) == Some((#[trigger] maps[i]).ranges@)
    }

    /// A seed of the text is no number of the machine, or a part of it
    /// behind the first holds no map.
    pub open spec fn unread(text: Seq<u8>) -> bool {
        (exists|k: int|
            0 <= k < numbers_in(first_line(text)).len() && #[trigger] numbers_in(first_line(text))[k]
                > usize::MAX) || exists|i: int|
            1 <= i < blocks(text).len() && map_of(#[trigger] blocks(text)[i]) is None
    }

    /// The puzzle is the one that the text stands for.
    pub open spec fn read_from(&self, text: Seq<u8>) -> bool {
        &&& self.wf()
        &&& self.seeds@.map_values(|n: usize| n as nat) == numbers_in(first_line(text))
        &&& Puzzle::charted(self.almanac.maps@, blocks(text))
    }

    /// Reads a puzzle: the seeds in the first line, then the maps, each
    /// after an empty line. `None` where a seed is no number of the machine,
    /// or where a part holds no map.
    pub fn from(input: &str) -> (r: Option<Self>)
        ensures
            match r {
                Some(puzzle) => puzzle.wf() && puzzle.seeds@.map_values(|n: usize| n as nat)
                    == numbers_in(first_line(input.spec_bytes())) && Puzzle::charted(
                    puzzle.almanac.maps@,
                    blocks(input.spec_bytes()),
                ),
                None => Puzzle::unread(input.spec_bytes()),
            },
    {
        let bytes = input.as_bytes();
        let end = line_end(bytes, 0);
        proof {
            lemma_first_line(bytes@, end as int);
        }
        let seeds = match read_numbers(bytes, 0, end) {
            Some(seeds) => seeds,
            None => {
                return None;
            },
        };
        let mut maps: Vec<Conversion> = Vec::new();
        let ghost all = blocks(bytes@);
        let first = find_gap(bytes, 0);
        let ghost mut done: Seq<Seq<u8>> = seq![bytes@.subrange(0, first as int)];
        let mut at = first;
        let mut more = first < bytes.len();
        proof {
            assert(bytes@.skip(0) =~= bytes@);
            assert(bytes@.take(first as int) =~= bytes@.subrange(0, first as int));
            if more {
                assert(done + blocks(bytes@.skip(first + 2)) =~= all);
            } else {
                assert(bytes@.subrange(0, first as int) =~= bytes@);
                assert(done =~= all);
            }
        }
        if more {
            at = first + 2;
        }
        while more
            invariant
                at <= bytes@.len(),
                bytes@ == input.spec_bytes(),
                all == blocks(bytes@),
                done.len() >= 1,
                more ==> done + blocks(bytes@.skip(at as int)) == all,
                !more ==> done == all,
                Puzzle::charted(maps@, done),
                forall|i: int| 0 <= i < maps@.len() ==> (#[trigger] maps@[i]).wf() && ordered(
                    maps@[i].ranges@,
                ),
            decreases bytes@.len() - at, more as int,
        {
            let end = find_gap(bytes, at);
            let ghost rest = bytes@.skip(at as int);
            let ghost part = bytes@.subrange(at as int, end as int);
            proof {
                assert(rest.take(end - at) =~= part);
                if end >= bytes@.len() {
                    assert(part =~= rest);
                }
            }
            let ghost before = done;
            let ghost held = maps@;
            match Conversion::from(bytes, at, end) {
                Some(map) => {
                    maps.push(map);
                },
                None => {
                    proof {
                        assert(all[done.len() as int] == part);
                    }
                    return None;
                },
            }
            proof {
                done = done.push(part);
                assert forall|i: int| 0 <= i < maps@.len() implies map_of(done[i + 1]) == Some(
                    (#[trigger] maps@[i]).ranges@,
                ) by {
                    if i < held.len() {
                        assert(maps@[i] == held[i]);
                        assert(done[i + 1] == before[i + 1]);
                    }
                }
            }
            if end < bytes.len() {
                proof {
                    assert(rest.skip(end - at + 2) =~= bytes@.skip(end + 2));
                    assert(done + blocks(bytes@.skip(end + 2)) =~= before + blocks(rest));
                }
                at = end + 2;
            } else {
                proof {
                    assert(done =~= before + blocks(rest));
                }
                at = end;
                more = false;
            }
        }
        Some(Puzzle { seeds, almanac: Almanac { maps } })
    }

    /// The least location that a seed is sent to; `None` where there is no
    /// seed.
    pub fn solve_part1(&self) -> (r: Option<usize>)
        requires
            self.wf(),
        ensures
            number(r) == least(self.locations(), self.seeds@.len() as int),
    {
        let mut min: Option<usize> = None;
        let mut i: usize = 0;
        while i < self.seeds.len()
            invariant
                self.wf(),
                i <= self.seeds@.len(),
                number(min) == least(self.locations(), i as int),
            decreases self.seeds@.len() - i,
        {
            let location = self.almanac.location_for_seed(self.seeds[i]);
            proof {
                assert(self.locations()[i as int] == location);
            }
            min = match min {
                Some(before) if before <= location => Some(before),
                _ => Some(location),
            };
            i = i + 1;
        }
        min
    }

    /// Where each seed is sent.
    pub open spec fn locations(&self) -> Seq<int> {
        Seq::new(
            self.seeds@.len(),
            |i: int| through(self.almanac.maps@, self.seeds@[i] as int, self.almanac.maps@.len() as int),
        )
    }

    /// The seeds taken two by two as the start and the length of a range,
    /// `seed` is in the range number `pair`.
    pub open spec fn sown(&self, pair: int, seed: int) -> bool {
        &&& 0 <= pair && 2 * pair + 1 < self.seeds@.len()
        &&& self.seeds@[2 * pair] <= seed < self.seeds@[2 * pair] + self.seeds@[2 * pair + 1]
    }

    /// The range number `pair` reaches beyond the numbers of the machine.
    pub open spec fn beyond(&self, pair: int) -> bool {
        &&& 0 <= pair && 2 * pair + 1 < self.seeds@.len()
        &&& self.seeds@[2 * pair + 1] > 0
        &&& self.seeds@[2 * pair] + self.seeds@[2 * pair + 1] > usize::MAX
    }

    /// `r` is the least location that a seed of a range of seeds is sent
    /// to: `None` where the seeds are not pairs of a start and a length,
    /// where a range reaches beyond the numbers of the machine, or where
    /// there is no seed.
    pub open spec fn ranged(&self, r: Option<usize>) -> bool {
        &&& r is None <==> {
            ||| self.seeds@.len() % 2 != 0
            ||| exists|pair: int| #[trigger] self.beyond(pair)
            ||| forall|pair: int, seed: int| !#[trigger] self.sown(pair, seed)
        }
        &&& r matches Some(least) ==> {
            &&& forall|pair: int, seed: int| #[trigger]
                self.sown(pair, seed) ==> least <= through(
                    self.almanac.maps@,
                    seed,
                    self.almanac.maps@.len() as int,
                )
            &&& exists|pair: int, seed: int| #[trigger]
                self.sown(pair, seed) && through(
                    self.almanac.maps@,
                    seed,
                    self.almanac.maps@.len() as int,
                ) == least
        }
    }

    /// The least location that a seed of the ranges is sent to, the seeds
    /// being taken two by two as the start and the length of a range. `None`
    /// where no range holds a seed, where the seeds are odd in number, or
    /// where a range reaches beyond the numbers of the machine.
    pub fn solve_part2(&self) -> (r: Option<usize>)
        requires
            self.wf(),
        ensures
            self.ranged(r),
    {
        if self.seeds.len() % 2 != 0 {
            return None;
        }
        let ghost maps = self.almanac.maps@;
        let ghost n = maps.len() as int;
        let mut min: Option<usize> = None;
        let mut i: usize = 0;
        while i < self.seeds.len()
            invariant
                self.wf(),
                maps == self.almanac.maps@,
                n == maps.len(),
                i <= self.seeds@.len(),
                i % 2 == 0,
                self.seeds@.len() % 2 == 0,
                forall|pair: int| 2 * pair < i ==> !#[trigger] self.beyond(pair),
                forall|pair: int, seed: int| #[trigger]
                    self.sown(pair, seed) && 2 * pair < i ==> min is Some && min->0 <= through(
                        maps,
                        seed,
                        n,
                    ),
                min matches Some(least) ==> exists|pair: int, seed: int| #[trigger]
                    self.sown(pair, seed) && through(maps, seed, n) == least,
            decreases self.seeds@.len() - i,
        {
            let start = self.seeds[i];
            let length = self.seeds[i + 1];
            let ghost pair = i as int / 2;
            if length > 0 {
                if length > usize::MAX - start {
                    proof {
                        assert(self.beyond(pair));
                    }
                    return None;
                }
                let possible_min = self.almanac.min_location_for_range(Range { start, length });
                let ghost range = Range { start, length };
                proof {
                    let seed = choose|seed: int|
                        within(range, seed) && #[trigger] through(maps, seed, n) == possible_min;
                    assert(self.sown(pair, seed));
                }
                min = match min {
                    Some(before) if before <= possible_min => Some(before),
                    _ => Some(possible_min),
                };
                proof {
                    assert forall|p: int, seed: int| #[trigger]
                        self.sown(p, seed) && 2 * p < i + 2 implies min is Some && min->0 <= through(
                        maps,
                        seed,
                        n,
                    ) by {
                        if 2 * p == i {
                            assert(within(range, seed));
                        }
                    }
                }
            }
            i = i + 2;
        }
        min
    }
}

/// The text up to the first line feed.
pub open spec fn first_line(text: Seq<u8>) -> Seq<u8>
    decreases text.len(),
{
    if text.len() == 0 || text[0] == 0x0a {
        Seq::empty()
    } else {
        seq![text[0]] + first_line(text.skip(1))
    }
}

proof fn lemma_first_line(text: Seq<u8>, end: int)
    requires
        0 <= end <= text.len(),
        forall|k: int| 0 <= k < end ==> #[trigger] text[k] != 0x0a,
        end < text.len() ==> text[end] == 0x0a,
    ensures
        first_line(text) == text.subrange(0, end),
    decreases end,
{
    if end > 0 {
        let rest = text.skip(1);
        assert forall|k: int| 0 <= k < end - 1 implies #[trigger] rest[k] != 0x0a by {
            assert(rest[k] == text[k + 1]);
        }
        lemma_first_line(rest, end - 1);
        assert(text.subrange(0, end) =~= seq![text[0]] + rest.subrange(0, end - 1));
    } else {
        assert(text.subrange(0, end) =~= Seq::<u8>::empty());
    }
}

/// The least location that a seed of the text is sent to. `None` where the
/// text holds no puzzle, or no seed.
pub fn solve_part1(input: &str) -> (r: Option<usize>)
    ensures
        match r {
            Some(location) => exists|puzzle: Puzzle| #[trigger]
                puzzle.read_from(input.spec_bytes()) && number(r) == least(
                    puzzle.locations(),
                    puzzle.seeds@.len() as int,
                ),
            None => Puzzle::unread(input.spec_bytes()) || numbers_in(
                first_line(input.spec_bytes()),
            ).len() == 0,
        },
{
    match Puzzle::from(input) {
        Some(puzzle) => {
            let r = puzzle.solve_part1();
            proof {
                assert(puzzle.read_from(input.spec_bytes()));
                if r is None {
                    assert(puzzle.seeds@.map_values(|n: usize| n as nat).len()
                        == puzzle.seeds@.len());
                }
            }
            r
        },
        None => None,
    }
}

/// The least location that a seed of the ranges of seeds of the text is
/// sent to. `None` where the text holds no puzzle, or as `Puzzle::ranged`
/// has it.
pub fn solve_part2(input: &str) -> (r: Option<usize>)
    ensures
        r is None ==> Puzzle::unread(input.spec_bytes()) || exists|puzzle: Puzzle| #[trigger]
            puzzle.read_from(input.spec_bytes()) && puzzle.ranged(r),
        r is Some ==> exists|puzzle: Puzzle| #[trigger]
            puzzle.read_from(input.spec_bytes()) && puzzle.ranged(r),
{
    match Puzzle::from(input) {
        Some(puzzle) => {
            let r = puzzle.solve_part2();
            proof {
                assert(puzzle.read_from(input.spec_bytes()));
            }
            r
        },
        None => None,
    }
}

} // verus!
