//! The longest walk through a forest of trails.

use crate::ordered::{
    lemma_room, members, ordered_clone, ordered_contains, ordered_first, ordered_insert,
    ordered_last, ordered_len, ordered_new, ordered_pop,
};
use crate::text::{lemma_widest, lines, rows_of, split_lines, widest};
use indexmap::IndexSet;
use std::collections::VecDeque;
use vstd::arithmetic::div_mod::lemma_fundamental_div_mod;
use vstd::prelude::*;
use vstd::slice::*;
use vstd::string::*;

verus! {

/// The length that the list gives for the way to `to`: that of the first
/// entry for it.
pub open spec fn found(list: Seq<(usize, usize)>, to: usize) -> Option<usize>
    decreases list.len(),
{
    if list.len() == 0 {
        None
    } else if list[0].0 == to {
        Some(list[0].1)
    } else {
        found(list.drop_first(), to)
    }
}

/// No place has two entries in the list.
pub open spec fn single(list: Seq<(usize, usize)>) -> bool {
    forall|i: int, j: int|
        0 <= i < j < list.len() ==> (#[trigger] list[i]).0 != (#[trigger] list[j]).0
}

proof fn lemma_found(list: Seq<(usize, usize)>, at: int)
    requires
        single(list),
        0 <= at < list.len(),
    ensures
        found(list, list[at].0) == Some(list[at].1),
    decreases list.len(),
{
    if at > 0 {
        let rest = list.drop_first();
        assert(list[0].0 != list[at].0);
        assert forall|i: int, j: int| 0 <= i < j < rest.len() implies (#[trigger] rest[i]).0 != (
        #[trigger] rest[j]).0 by {
            assert(rest[i] == list[i + 1]);
            assert(rest[j] == list[j + 1]);
        }
        assert(rest[at - 1] == list[at]);
        lemma_found(rest, at - 1);
    }
}

proof fn lemma_found_at(list: Seq<(usize, usize)>, to: usize) -> (at: int)
    requires
        found(list, to) is Some,
    ensures
        0 <= at < list.len(),
        list[at].0 == to,
        found(list, to) == Some(list[at].1),
    decreases list.len(),
{
    if list[0].0 == to {
        0
    } else {
        lemma_found_at(list.drop_first(), to) + 1
    }
}

proof fn lemma_found_none(list: Seq<(usize, usize)>, to: usize)
    requires
        forall|k: int| 0 <= k < list.len() ==> (#[trigger] list[k]).0 != to,
    ensures
        found(list, to) is None,
    decreases list.len(),
{
    if list.len() > 0 {
        let rest = list.drop_first();
        assert(list[0].0 != to);
        assert forall|k: int| 0 <= k < rest.len() implies (#[trigger] rest[k]).0 != to by {
            assert(rest[k] == list[k + 1]);
        }
        lemma_found_none(rest, to);
    }
}

proof fn lemma_found_update(list: Seq<(usize, usize)>, at: int, length: usize, to: usize)
    requires
        0 <= at < list.len(),
        to != list[at].0,
    ensures
        found(list.update(at, (list[at].0, length)), to) == found(list, to),
    decreases list.len(),
{
    let changed = list.update(at, (list[at].0, length));
    if at == 0 {
        assert(changed.drop_first() =~= list.drop_first());
    } else {
        assert(changed.drop_first() =~= list.drop_first().update(
            at - 1,
            (list.drop_first()[at - 1].0, length),
        ));
        lemma_found_update(list.drop_first(), at - 1, length, to);
    }
}

proof fn lemma_found_push(list: Seq<(usize, usize)>, entry: (usize, usize), to: usize)
    ensures
        found(list.push(entry), to) == if found(list, to) is Some {
            found(list, to)
        } else if entry.0 == to {
            Some(entry.1)
        } else {
            None
        },
    decreases list.len(),
{
    if list.len() == 0 {
        assert(list.push(entry).drop_first() =~= list);
    } else {
        assert(list.push(entry).drop_first() =~= list.drop_first().push(entry));
        lemma_found_push(list.drop_first(), entry, to);
    }
}

/// What was found of the trails: the places that ways were followed from, and
/// for a place and another the longest way that was found from the one to the
/// other.
pub ghost struct Chart {
    pub entered: Set<usize>,
    pub lengths: Map<(usize, usize), usize>,
}

/// The chart after a way of `length` steps from `from` to `to` was followed:
/// `from` is entered, and the longer of this and what was known is kept.
pub open spec fn noted(chart: Chart, from: usize, to: usize, length: usize) -> Chart {
    Chart {
        entered: chart.entered.insert(from),
        lengths: chart.lengths.insert(
            (from, to),
            if chart.lengths.contains_key((from, to)) && chart.lengths[(from, to)] >= length {
                chart.lengths[(from, to)]
            } else {
                length
            },
        ),
    }
}

/// The steps of `walk` lead along ways of the chart.
pub open spec fn linked(lengths: Map<(usize, usize), usize>, walk: Seq<usize>) -> bool {
    forall|i: int|
        0 <= i < walk.len() - 1 ==> lengths.contains_key(#[trigger] pair(walk, i))
}

/// The place at `i` of the walk and the next.
pub open spec fn pair(walk: Seq<usize>, i: int) -> (usize, usize) {
    (walk[i], walk[i + 1])
}

/// A walk that can still go on: it starts at `start`, comes to no place
/// twice, does not come to `end` after its first place, and follows ways of
/// the chart.
pub open spec fn open_way(
    lengths: Map<(usize, usize), usize>,
    walk: Seq<usize>,
    start: usize,
    end: usize,
) -> bool {
    &&& walk.len() >= 1
    &&& walk[0] == start
    &&& walk.no_duplicates()
    &&& forall|i: int| 1 <= i < walk.len() ==> walk[i] != end
    &&& linked(lengths, walk)
}

/// An open way and one step more along a way of the chart, wherever to.
pub open spec fn reach(
    lengths: Map<(usize, usize), usize>,
    walk: Seq<usize>,
    start: usize,
    end: usize,
) -> bool {
    &&& walk.len() >= 2
    &&& open_way(lengths, walk.drop_last(), start, end)
    &&& lengths.contains_key(pair(walk, walk.len() - 2))
}

/// An open way and one step more, to `end`.
pub open spec fn trail(
    lengths: Map<(usize, usize), usize>,
    walk: Seq<usize>,
    start: usize,
    end: usize,
) -> bool {
    reach(lengths, walk, start, end) && walk.last() == end
}

/// The sum of the lengths of the ways that the walk follows.
pub open spec fn total(lengths: Map<(usize, usize), usize>, walk: Seq<usize>) -> nat
    decreases walk.len(),
{
    if walk.len() <= 1 {
        0
    } else {
        total(lengths, walk.drop_last()) + lengths[pair(walk, walk.len() - 2)] as nat
    }
}

/// `walk` begins with `head`.
pub open spec fn begins(walk: Seq<usize>, head: Seq<usize>) -> bool {
    head.len() <= walk.len() && walk.take(head.len() as int) == head
}

/// `best` is the length of the longest trail from `start` to `end`, 0 where
/// there is none.
pub open spec fn is_longest(
    lengths: Map<(usize, usize), usize>,
    start: usize,
    end: usize,
    best: nat,
) -> bool {
    &&& forall|walk: Seq<usize>| #[trigger]
        trail(lengths, walk, start, end) ==> total(lengths, walk) <= best
    &&& best == 0 || exists|walk: Seq<usize>| #[trigger]
        trail(lengths, walk, start, end) && total(lengths, walk) == best
}

/// Some walk that takes one step from an open way is longer than the machine
/// can count.
pub open spec fn too_long(lengths: Map<(usize, usize), usize>, start: usize, end: usize) -> bool {
    exists|walk: Seq<usize>| #[trigger]
        reach(lengths, walk, start, end) && total(lengths, walk) > usize::MAX
}

/// One of the first `upto` entries of the list is for `to`.
pub open spec fn among(list: Seq<(usize, usize)>, upto: int, to: usize) -> bool {
    exists|j: int| 0 <= j < upto && j < list.len() && (#[trigger] list[j]).0 == to
}

proof fn lemma_grow(walk: Seq<usize>, head: Seq<usize>)
    requires
        begins(walk, head),
        walk.len() > head.len(),
    ensures
        begins(walk, head.push(walk[head.len() as int])),
{
    assert(walk.take(head.len() as int + 1) =~= walk.take(head.len() as int).push(
        walk[head.len() as int],
    ));
}

proof fn lemma_last_step(
    lengths: Map<(usize, usize), usize>,
    head: Seq<usize>,
    walk: Seq<usize>,
)
    requires
        head.len() >= 1,
        begins(walk, head),
        walk.len() == head.len() + 1,
    ensures
        walk == head.push(walk.last()),
        walk.drop_last() == head,
        total(lengths, walk) == total(lengths, head) + lengths[(head.last(), walk.last())],
{
    assert(walk.drop_last() =~= walk.take(head.len() as int));
    assert(walk =~= head.push(walk.last()));
}

proof fn lemma_inner_step(
    lengths: Map<(usize, usize), usize>,
    head: Seq<usize>,
    walk: Seq<usize>,
    start: usize,
    end: usize,
)
    requires
        head.len() >= 1,
        reach(lengths, walk, start, end),
        begins(walk, head),
        walk.len() > head.len() + 1,
    ensures
        !head.contains(walk[head.len() as int]),
        walk[head.len() as int] != end,
{
    let most = walk.drop_last();
    let at = head.len() as int;
    assert(most[at] == walk[at]);
    if head.contains(walk[at]) {
        let k = choose|k: int| 0 <= k < head.len() && head[k] == walk[at];
        assert(walk.take(at)[k] == walk[k]);
        assert(most[k] == walk[k]);
    }
}

/// The ways that were found between the places of a forest. A place is a
/// number below `size`.
pub struct Mapping {
    entered: Vec<bool>,
    links: Vec<Vec<(usize, usize)>>,
}

impl View for Mapping {
    type V = Chart;

    closed spec fn view(&self) -> Chart {
        Chart {
            entered: Set::new(|k: usize| k < self.entered@.len() && self.entered@[k as int]),
            lengths: Map::new(
                |way: (usize, usize)|
                    way.0 < self.links@.len() && found(self.links@[way.0 as int]@, way.1) is Some,
                |way: (usize, usize)| found(self.links@[way.0 as int]@, way.1).unwrap(),
            ),
        }
    }
}

impl Mapping {
    /// How many places there are.
    pub closed spec fn size(&self) -> nat {
        self.links@.len()
    }

    /// The mapping is in order.
    pub closed spec fn wf(&self) -> bool {
        &&& self.entered@.len() == self.links@.len()
        &&& forall|k: int| 0 <= k < self.links@.len() ==> single(#[trigger] self.links@[k]@)
    }

    /// A mapping of `size` places with nothing found yet.
    pub fn new(size: usize) -> (r: Self)
        ensures
            r.wf(),
            r.size() == size,
            r@.entered == Set::<usize>::empty(),
            r@.lengths == Map::<(usize, usize), usize>::empty(),
    {
        let mut entered: Vec<bool> = Vec::new();
        let mut links: Vec<Vec<(usize, usize)>> = Vec::new();
        let mut k: usize = 0;
        while k < size
            invariant
                k <= size,
                entered@.len() == k,
                links@.len() == k,
                forall|i: int| 0 <= i < k ==> !entered@[i],
                forall|i: int| 0 <= i < k ==> (#[trigger] links@[i])@.len() == 0,
            decreases size - k,
        {
            entered.push(false);
            links.push(Vec::new());
            k = k + 1;
        }
        let r = Mapping { entered, links };
        proof {
            assert(r@.entered =~= Set::<usize>::empty());
            assert(r@.lengths =~= Map::<(usize, usize), usize>::empty());
        }
        r
    }

    /// Whether a way was followed from the place.
    pub fn has_entry(&self, place: usize) -> (r: bool)
        requires
            self.wf(),
        ensures
            r == self@.entered.contains(place),
    {
        place < self.entered.len() && self.entered[place]
    }

    /// The longest way that was found from `from` to `to`.
    pub fn length(&self, from: usize, to: usize) -> (r: Option<usize>)
        requires
            self.wf(),
        ensures
            match r {
                Some(length) => self@.lengths.contains_key((from, to)) && self@.lengths[(from, to)]
                    == length,
                None => !self@.lengths.contains_key((from, to)),
            },
    {
        if from >= self.links.len() {
            return None;
        }
        let list = &self.links[from];
        let mut i: usize = 0;
        while i < list.len()
            invariant
                i <= list@.len(),
                from < self.links@.len(),
                list@ == self.links@[from as int]@,
                single(list@),
                forall|k: int| 0 <= k < i ==> (#[trigger] list@[k]).0 != to,
            decreases list@.len() - i,
        {
            if list[i].0 == to {
                proof {
                    lemma_found(list@, i as int);
                }
                return Some(list[i].1);
            }
            i = i + 1;
        }
        proof {
            lemma_found_none(list@, to);
        }
        None
    }

    /// Notes a way of `length` steps from `from` to `to`.
    pub fn note(&mut self, from: usize, to: usize, length: usize)
        requires
            old(self).wf(),
            from < old(self).size(),
        ensures
            final(self).wf(),
            final(self).size() == old(self).size(),
            final(self)@ == noted(old(self)@, from, to, length),
    {
        let ghost before = self.links@[from as int]@;
        let mut at: usize = 0;
        let n = self.links[from].len();
        while at < n && self.links[from][at].0 != to
            invariant
                at <= n,
                from < self.links@.len(),
                n == self.links@[from as int]@.len(),
                forall|k: int| 0 <= k < at ==> (#[trigger] self.links@[from as int]@[k]).0 != to,
            decreases n - at,
        {
            at = at + 1;
        }
        if at < n {
            let known = self.links[from][at].1;
            proof {
                lemma_found(before, at as int);
            }
            if length > known {
                self.links[from].set(at, (to, length));
                proof {
                    let now = self.links@[from as int]@;
                    assert(now == before.update(at as int, (to, length)));
                    assert(single(now));
                    lemma_found(now, at as int);
                    assert forall|other: usize| other != to implies found(now, other) == found(
                        before,
                        other,
                    ) by {
                        lemma_found_update(before, at as int, length, other);
                    }
                }
            }
        } else {
            self.links[from].push((to, length));
            proof {
                let now = self.links@[from as int]@;
                lemma_found_none(before, to);
                assert(single(now));
                assert forall|other: usize| true implies found(now, other) == if found(
                    before,
                    other,
                ) is Some {
                    found(before, other)
                } else if to == other {
                    Some(length)
                } else {
                    None
                } by {
                    lemma_found_push(before, (to, length), other);
                }
            }
        }
        self.entered.set(from, true);
        proof {
            let goal = noted(old(self)@, from, to, length);
            assert(self@.entered =~= goal.entered);
            assert(self@.lengths =~= goal.lengths);
        }
    }

    /// The walk can go on from its last place only if that is a place of
    /// the mapping.
    proof fn lemma_stuck(&self, head: Seq<usize>, walk: Seq<usize>, start: usize, end: usize)
        requires
            open_way(self@.lengths, head, start, end),
            head.last() >= self.size(),
            reach(self@.lengths, walk, start, end),
            begins(walk, head),
        ensures
            walk == head,
    {
        if walk.len() > head.len() {
            let at = head.len() - 1;
            assert(walk.take(head.len() as int)[at] == walk[at]);
            if walk.len() == head.len() + 1 {
                assert(self@.lengths.contains_key(pair(walk, at)));
            } else {
                assert(self@.lengths.contains_key(pair(walk.drop_last(), at)));
            }
        } else {
            assert(walk.take(head.len() as int) =~= walk);
        }
    }

    /// The places of an open way whose last is a place of the mapping are
    /// all places of the mapping, so that there are no more of them than
    /// the mapping has.
    proof fn lemma_within(&self, head: Seq<usize>, start: usize, end: usize)
        requires
            open_way(self@.lengths, head, start, end),
            head.last() < self.size(),
            self.size() <= usize::MAX,
        ensures
            head.len() <= self.size(),
    {
        assert forall|k: int| 0 <= k < head.len() implies (#[trigger] head[k]) < self.size() by {
            if k < head.len() - 1 {
                assert(self@.lengths.contains_key(pair(head, k)));
            }
        }
        lemma_room(head, self.size());
    }

    /// The longest of the trails that begin with the walk, 0 where there is
    /// none; `None` where a step from an open way that begins with the walk
    /// is more than the machine can count.
    fn explore(
        &self,
        walk: &mut IndexSet<usize>,
        distance: usize,
        start: Ghost<usize>,
        end: usize,
    ) -> (r: Option<usize>)
        requires
            self.wf(),
            open_way(self@.lengths, members(*old(walk)), start@, end),
            distance == total(self@.lengths, members(*old(walk))),
        ensures
            members(*final(walk)) == members(*old(walk)),
            match r {
                Some(best) => {
                    &&& forall|way: Seq<usize>| #[trigger]
                        trail(self@.lengths, way, start@, end) && begins(way, members(*old(walk)))
                            ==> total(self@.lengths, way) <= best
                    &&& best == 0 || exists|way: Seq<usize>| #[trigger]
                        trail(self@.lengths, way, start@, end) && total(self@.lengths, way) == best
                    &&& forall|way: Seq<usize>| #[trigger]
                        reach(self@.lengths, way, start@, end) && begins(way, members(*old(walk)))
                            ==> total(self@.lengths, way) <= usize::MAX
                },
                None => too_long(self@.lengths, start@, end),
            },
        decreases self.size() + 1 - members(*old(walk)).len(),
    {
        let ghost head = members(*walk);
        let ghost lengths = self@.lengths;
        let last = match ordered_last(walk) {
            Some(last) => last,
            None => {
                return Some(0);
            },
        };
        if last >= self.links.len() {
            proof {
                assert forall|way: Seq<usize>| #[trigger]
                    reach(lengths, way, start@, end) && begins(way, head) implies total(
                    lengths,
                    way,
                ) <= usize::MAX && !trail(lengths, way, start@, end) by {
                    self.lemma_stuck(head, way, start@, end);
                }
            }
            return Some(0);
        }
        proof {
            assert(self.links@.len() == self.links.len());
            self.lemma_within(head, start@, end);
        }
        let n = self.links[last].len();
        let ghost list = self.links@[last as int]@;
        let mut best: usize = 0;
        let mut i: usize = 0;
        while i < n
            invariant
                i <= n,
                self.wf(),
                last < self.links@.len(),
                list == self.links@[last as int]@,
                n == list.len(),
                single(list),
                lengths == self@.lengths,
                head == members(*walk),
                head == members(*old(walk)),
                head.last() == last,
                head.len() <= self.size(),
                open_way(lengths, head, start@, end),
                distance == total(lengths, head),
                forall|way: Seq<usize>| #[trigger]
                    trail(lengths, way, start@, end) && begins(way, head) && way.len() > head.len()
                        && among(list, i as int, way[head.len() as int]) ==> total(lengths, way)
                        <= best,
                best == 0 || exists|way: Seq<usize>| #[trigger]
                    trail(lengths, way, start@, end) && total(lengths, way) == best,
                forall|way: Seq<usize>| #[trigger]
                    reach(lengths, way, start@, end) && begins(way, head) && way.len() > head.len()
                        && among(list, i as int, way[head.len() as int]) ==> total(lengths, way)
                        <= usize::MAX,
            decreases n - i,
        {
            let (to, length) = self.links[last][i];
            let ghost before = best;
            let ghost step = head.push(to);
            proof {
                lemma_found(list, i as int);
                assert(lengths.contains_key((last, to)) && lengths[(last, to)] == length);
                assert(step.drop_last() =~= head);
                assert(pair(step, step.len() - 2) == (last, to));
                assert(reach(lengths, step, start@, end));
                assert(total(lengths, step) == distance + length);
            }
            let next = match distance.checked_add(length) {
                Some(next) => next,
                None => {
                    return None;
                },
            };
            let ghost mut below: Option<usize> = None;
            if to == end {
                if next > best {
                    best = next;
                }
                proof {
                    assert(trail(lengths, step, start@, end));
                }
            } else if !ordered_contains(walk, to) {
                ordered_insert(walk, to);
                proof {
                    assert(members(*walk) == step);
                    assert forall|k: int| 0 <= k < step.len() - 1 implies lengths.contains_key(
                        #[trigger] pair(step, k),
                    ) by {
                        if k < head.len() - 1 {
                            assert(pair(step, k) == pair(head, k));
                        }
                    }
                    assert(open_way(lengths, step, start@, end));
                }
                let sub = self.explore(walk, next, start, end);
                ordered_pop(walk);
                proof {
                    assert(members(*walk) =~= head);
                }
                match sub {
                    Some(found) => {
                        proof {
                            below = Some(found);
                        }
                        if found > best {
                            best = found;
                        }
                    },
                    None => {
                        return None;
                    },
                }
            }
            proof {
                assert forall|way: Seq<usize>| #[trigger]
                    reach(lengths, way, start@, end) && begins(way, head) && way.len() > head.len()
                        && among(list, i + 1, way[head.len() as int]) implies total(lengths, way)
                    <= usize::MAX && (trail(lengths, way, start@, end) ==> total(lengths, way)
                    <= best) by {
                    let at = way[head.len() as int];
                    if among(list, i as int, at) {
                    } else {
                        let j = choose|j: int| 0 <= j < i + 1 && j < list.len() && (#[trigger] list[j]).0 == at;
                        assert(j == i);
                        assert(at == to);
                        if way.len() == head.len() + 1 {
                            lemma_last_step(lengths, head, way);
                        } else {
                            lemma_inner_step(lengths, head, way, start@, end);
                            lemma_grow(way, head);
                        }
                    }
                }
            }
            i = i + 1;
        }
        proof {
            assert forall|way: Seq<usize>| #[trigger]
                reach(lengths, way, start@, end) && begins(way, head) implies total(lengths, way)
                <= usize::MAX && (trail(lengths, way, start@, end) ==> total(lengths, way)
                <= best) by {
                if way.len() == head.len() {
                    assert(way.take(head.len() as int) =~= way);
                } else {
                    let at = head.len() - 1;
                    assert(way.take(head.len() as int)[at] == way[at]);
                    if way.len() == head.len() + 1 {
                        assert(lengths.contains_key(pair(way, at)));
                    } else {
                        assert(lengths.contains_key(pair(way.drop_last(), at)));
                    }
                    let to = way[head.len() as int];
                    let j = lemma_found_at(list, to);
                    assert(among(list, n as int, to));
                }
            }
        }
        Some(best)
    }

    /// The length of the longest trail from `map_start` to `map_end`: a walk
    /// along ways of the mapping that comes to no place twice and stops
    /// when it first comes to `map_end` after its start. 0 where there is
    /// none; `None` where a walk is longer than the machine can count.
    pub fn longest_path(&self, map_start: usize, map_end: usize) -> (r: Option<usize>)
        requires
            self.wf(),
        ensures
            match r {
                Some(longest) => is_longest(self@.lengths, map_start, map_end, longest as nat)
                    && !too_long(self@.lengths, map_start, map_end),
                None => too_long(self@.lengths, map_start, map_end),
            },
    {
        let mut walk = ordered_new();
        ordered_insert(&mut walk, map_start);
        proof {
            assert(members(walk) =~= seq![map_start]);
        }
        let r = self.explore(&mut walk, 0, Ghost(map_start), map_end);
        proof {
            let head = seq![map_start];
            assert forall|way: Seq<usize>| #[trigger]
                reach(self@.lengths, way, map_start, map_end) implies begins(way, head) by {
                assert(way.drop_last()[0] == way[0]);
                assert(way.take(1) =~= head);
            }
        }
        r
    }
}

#[derive(Clone, Copy, Debug, PartialEq, Eq, Structural)]
pub enum Direction {
    Up,
    Down,
    Left,
    Right,
}

#[derive(Clone, Copy, Debug, PartialEq, Eq, Hash, Structural)]
pub struct Point {
    pub row: isize,
    pub col: isize,
}

impl Point {
    pub fn new(row: isize, col: isize) -> (r: Self)
        ensures
            r == (Point { row, col }),
    {
        Point { row, col }
    }

    /// The point one step away in the direction.
    pub open spec fn step(self, direction: Direction) -> Point {
        match direction {
            Direction::Up => Point { row: (self.row - 1) as isize, col: self.col },
            Direction::Down => Point { row: (self.row + 1) as isize, col: self.col },
            Direction::Left => Point { row: self.row, col: (self.col - 1) as isize },
            Direction::Right => Point { row: self.row, col: (self.col + 1) as isize },
        }
    }

    /// The point one step away in the direction.
    pub fn shift(self, direction: Direction) -> (r: Self)
        requires
            isize::MIN < self.row < isize::MAX,
            isize::MIN < self.col < isize::MAX,
        ensures
            r == self.step(direction),
    {
        match direction {
            Direction::Up => Point::new(self.row - 1, self.col),
            Direction::Down => Point::new(self.row + 1, self.col),
            Direction::Left => Point::new(self.row, self.col - 1),
            Direction::Right => Point::new(self.row, self.col + 1),
        }
    }
}

#[derive(Clone, Copy, Debug, PartialEq, Eq, Structural)]
pub enum Tile {
    Open,
    Forest,
    SlopeDown,
    SlopeUp,
    SlopeLeft,
    SlopeRight,
}

impl Tile {
    /// The tile that a character stands for where slopes are steep.
    pub open spec fn steep(value: char) -> Option<Tile> {
        if value == '.' {
            Some(Tile::Open)
        } else if value == '#' {
            Some(Tile::Forest)
        } else if value == 'v' {
            Some(Tile::SlopeDown)
        } else if value == '<' {
            Some(Tile::SlopeLeft)
        } else if value == '>' {
            Some(Tile::SlopeRight)
        } else if value == '^' {
            Some(Tile::SlopeUp)
        } else {
            None
        }
    }

    /// The tile that a character stands for where slopes can be climbed:
    /// each slope is open ground.
    pub open spec fn flat(value: char) -> Option<Tile> {
        if value == '.' || value == 'v' || value == '<' || value == '>' || value == '^' {
            Some(Tile::Open)
        } else if value == '#' {
            Some(Tile::Forest)
        } else {
            None
        }
    }

    /// Reads a tile with its slopes; `None` for a character that stands for
    /// none.
    pub fn from_part1(value: char) -> (r: Option<Self>)
        ensures
            r == Tile::steep(value),
    {
        match value {
            '.' => Some(Tile::Open),
            '#' => Some(Tile::Forest),
            'v' => Some(Tile::SlopeDown),
            '<' => Some(Tile::SlopeLeft),
            '>' => Some(Tile::SlopeRight),
            '^' => Some(Tile::SlopeUp),
            _ => None,
        }
    }

    /// Reads a tile and takes each slope for open ground; `None` for a
    /// character that stands for none.
    pub fn from_part2(value: char) -> (r: Option<Self>)
        ensures
            r == Tile::flat(value),
    {
        match value {
            '.' | 'v' | '<' | '>' | '^' => Some(Tile::Open),
            '#' => Some(Tile::Forest),
            _ => None,
        }
    }
}

/// A walk that comes to no place twice: the numbers of its places in the
/// order of the walk.
pub struct Path {
    steps: IndexSet<usize>,
}

impl View for Path {
    type V = Seq<usize>;

    closed spec fn view(&self) -> Seq<usize> {
        members(self.steps)
    }
}

impl Path {
    /// The walk has a place, and none twice.
    pub open spec fn wf(&self) -> bool {
        self@.len() >= 1 && self@.no_duplicates()
    }

    /// The walk that stands at `place`.
    pub fn new(place: usize) -> (r: Self)
        ensures
            r.wf(),
            r@ == seq![place],
    {
        let mut steps = ordered_new();
        ordered_insert(&mut steps, place);
        proof {
            assert(members(steps) =~= seq![place]);
        }
        Path { steps }
    }

    /// Where the walk has come to.
    pub fn end(&self) -> (r: usize)
        requires
            self.wf(),
        ensures
            r == self@.last(),
    {
        match ordered_last(&self.steps) {
            Some(place) => place,
            None => 0,
        }
    }

    /// Where the walk started.
    pub fn start(&self) -> (r: usize)
        requires
            self.wf(),
        ensures
            r == self@[0],
    {
        match ordered_first(&self.steps) {
            Some(place) => place,
            None => 0,
        }
    }

    /// The walk with one step more, to `place`; `None` where it has been
    /// there.
    pub fn join(&self, place: usize) -> (r: Option<Self>)
        requires
            self.wf(),
        ensures
            match r {
                Some(longer) => !self@.contains(place) && longer@ == self@.push(place)
                    && longer.wf(),
                None => self@.contains(place),
            },
    {
        if ordered_contains(&self.steps, place) {
            None
        } else {
            let mut steps = ordered_clone(&self.steps);
            ordered_insert(&mut steps, place);
            Some(Path { steps })
        }
    }

    /// How many steps the walk has taken.
    pub fn len(&self) -> (r: usize)
        requires
            self.wf(),
        ensures
            r == self@.len() - 1,
    {
        ordered_len(&self.steps) - 1
    }
}

/// What each of the walks has come through.
pub open spec fn ways(paths: Seq<Path>) -> Seq<Seq<usize>> {
    paths.map_values(|path: Path| path@)
}

/// The walk with one step more, once for each of the places of `next` that
/// it has not been to, in their order.
pub open spec fn joined(walk: Seq<usize>, next: Seq<usize>) -> Seq<Seq<usize>>
    decreases next.len(),
{
    if next.len() == 0 {
        Seq::empty()
    } else {
        let before = joined(walk, next.drop_last());
        if walk.contains(next.last()) {
            before
        } else {
            before.push(walk.push(next.last()))
        }
    }
}

/// For each of the walks the walk of one step from `from` to where it has
/// come to.
pub open spec fn seeds(from: usize, onward: Seq<Seq<usize>>) -> Seq<Seq<usize>> {
    Seq::new(onward.len(), |i: int| seq![from, onward[i].last()])
}

/// A forest of trails: its tiles row by row, and how many rows and columns
/// it has. The place of a tile has the number of its row times the number of
/// columns, and its column more.
pub struct Trails {
    pub spots: Vec<Vec<Tile>>,
    pub rows: isize,
    pub cols: isize,
}

impl Trails {
    /// The forest is in order: it has as many rows as it says and none is
    /// longer than it says, and its places can be numbered.
    pub open spec fn wf(&self) -> bool {
        &&& self.rows == self.spots@.len()
        &&& 0 <= self.cols
        &&& self.rows * self.cols <= isize::MAX
        &&& forall|row: int|
            0 <= row < self.spots@.len() ==> (#[trigger] self.spots@[row])@.len() <= self.cols
    }

    /// How many places there are.
    pub open spec fn size(&self) -> int {
        self.rows * self.cols
    }

    /// The tile at a point, if the forest has one there.
    pub open spec fn tile(&self, point: Point) -> Option<Tile> {
        if 0 <= point.row < self.spots@.len() && 0 <= point.col < self.spots@[point.row as int]@.len() {
            Some(self.spots@[point.row as int]@[point.col as int])
        } else {
            None
        }
    }

    /// The number of the place at a point.
    pub open spec fn place_of(&self, point: Point) -> usize {
        (point.row * self.cols + point.col) as usize
    }

    /// The point of the place with a number.
    pub open spec fn spot_of(&self, place: usize) -> Point {
        Point {
            row: (place as int / self.cols as int) as isize,
            col: (place as int % self.cols as int) as isize,
        }
    }

    /// A step in the direction can be taken onto the point: the tile there
    /// is open ground, or a slope that leads the same way.
    pub open spec fn open_to(&self, point: Point, direction: Direction) -> bool {
        match self.tile(point) {
            Some(Tile::Open) => true,
            Some(Tile::SlopeUp) => direction == Direction::Up,
            Some(Tile::SlopeDown) => direction == Direction::Down,
            Some(Tile::SlopeLeft) => direction == Direction::Left,
            Some(Tile::SlopeRight) => direction == Direction::Right,
            _ => false,
        }
    }

    /// The point next to `point` in the direction, where a step can be
    /// taken onto it.
    pub open spec fn toward(&self, point: Point, direction: Direction) -> Seq<Point> {
        if self.open_to(point.step(direction), direction) {
            seq![point.step(direction)]
        } else {
            Seq::empty()
        }
    }

    /// The points that a step can be taken onto from `point`: up, down, left
    /// and right, in this order.
    pub open spec fn beside(&self, point: Point) -> Seq<Point> {
        self.toward(point, Direction::Up) + self.toward(point, Direction::Down) + self.toward(
            point,
            Direction::Left,
        ) + self.toward(point, Direction::Right)
    }

    /// The places that a step can be taken onto from a place.
    pub open spec fn next_places(&self, place: usize) -> Seq<usize> {
        self.beside(self.spot_of(place)).map_values(|point: Point| self.place_of(point))
    }

    /// The walks of one step more than `walk` that come to no place twice.
    pub open spec fn onward(&self, walk: Seq<usize>) -> Seq<Seq<usize>> {
        joined(walk, self.next_places(walk.last()))
    }

    /// What comes of following the walks of `queue`, the first of them
    /// first. A walk that cannot go on is noted in the chart. A walk that can
    /// go on in one way only is followed on at once. A walk that has come to
    /// a parting of the ways is noted, and where no way has been noted yet
    /// from where it stands, a walk of one step from there is put at the end
    /// of the queue for each of the ways. `None` where more than `fuel` walks
    /// are taken from the queue.
    pub open spec fn charted(&self, queue: Seq<Seq<usize>>, chart: Chart, fuel: nat) -> Option<
        Chart,
    >
        decreases fuel,
    {
        if queue.len() == 0 {
            Some(chart)
        } else if fuel == 0 {
            None
        } else {
            let walk = queue[0];
            let rest = queue.drop_first();
            let onward = self.onward(walk);
            let marked = noted(chart, walk[0], walk.last(), (walk.len() - 1) as usize);
            if onward.len() == 0 {
                self.charted(rest, marked, (fuel - 1) as nat)
            } else if onward.len() == 1 {
                self.charted(seq![onward[0]] + rest, chart, (fuel - 1) as nat)
            } else if marked.entered.contains(walk.last()) {
                self.charted(rest, marked, (fuel - 1) as nat)
            } else {
                self.charted(rest + seeds(walk.last(), onward), marked, (fuel - 1) as nat)
            }
        }
    }

    /// The tile at a point, if the forest has one there.
    pub fn get(&self, point: Point) -> (r: Option<Tile>)
        ensures
            r == self.tile(point),
    {
        if point.row < 0 || point.col < 0 {
            return None;
        }
        let row = point.row as usize;
        let col = point.col as usize;
        if row >= self.spots.len() {
            return None;
        }
        if col >= self.spots[row].len() {
            return None;
        }
        Some(self.spots[row][col])
    }

    /// The number of the place at a point of the forest.
    pub fn place(&self, point: Point) -> (r: usize)
        requires
            self.wf(),
            self.tile(point) is Some,
        ensures
            r == self.place_of(point),
            r < self.size(),
    {
        proof {
            assert(point.row * self.cols + point.col < self.rows * self.cols
                && 0 <= point.row * self.cols <= self.rows * self.cols) by (nonlinear_arith)
                requires
                    0 <= point.row < self.rows,
                    0 <= point.col < self.cols,
            ;
        }
        (point.row as usize) * (self.cols as usize) + (point.col as usize)
    }

    /// The point of a place of the forest.
    pub fn spot(&self, place: usize) -> (r: Point)
        requires
            self.wf(),
            place < self.size(),
        ensures
            r == self.spot_of(place),
            0 <= r.row < self.rows,
            0 <= r.col < self.cols,
    {
        proof {
            assert(self.cols > 0) by (nonlinear_arith)
                requires
                    0 <= place < self.rows * self.cols,
                    0 <= self.cols,
            ;
            lemma_fundamental_div_mod(place as int, self.cols as int);
            let row = place as int / self.cols as int;
            let col = place as int % self.cols as int;
            assert(0 <= row < self.rows) by (nonlinear_arith)
                requires
                    place == self.cols * row + col,
                    0 <= col < self.cols,
                    0 <= place < self.rows * self.cols,
            ;
        }
        let cols = self.cols as usize;
        Point::new((place / cols) as isize, (place % cols) as isize)
    }

    /// Whether a step in the direction can be taken onto the point.
    fn admits(&self, point: Point, direction: Direction) -> (r: bool)
        ensures
            r == self.open_to(point, direction),
    {
        match self.get(point) {
            Some(Tile::Open) => true,
            Some(Tile::SlopeUp) => direction == Direction::Up,
            Some(Tile::SlopeDown) => direction == Direction::Down,
            Some(Tile::SlopeLeft) => direction == Direction::Left,
            Some(Tile::SlopeRight) => direction == Direction::Right,
            _ => false,
        }
    }

    /// The points that a step can be taken onto from `point`.
    pub fn neighbors(&self, point: Point) -> (r: Vec<Point>)
        requires
            isize::MIN < point.row < isize::MAX,
            isize::MIN < point.col < isize::MAX,
        ensures
            r@ == self.beside(point),
            forall|k: int| 0 <= k < r@.len() ==> self.tile(#[trigger] r@[k]) is Some,
    {
        let mut options: Vec<Point> = Vec::new();
        let up = point.shift(Direction::Up);
        if self.admits(up, Direction::Up) {
            options.push(up);
        }
        proof {
            assert(options@ =~= self.toward(point, Direction::Up));
        }
        let down = point.shift(Direction::Down);
        if self.admits(down, Direction::Down) {
            options.push(down);
        }
        proof {
            assert(options@ =~= self.toward(point, Direction::Up) + self.toward(
                point,
                Direction::Down,
            ));
        }
        let left = point.shift(Direction::Left);
        if self.admits(left, Direction::Left) {
            options.push(left);
        }
        proof {
            assert(options@ =~= self.toward(point, Direction::Up) + self.toward(
                point,
                Direction::Down,
            ) + self.toward(point, Direction::Left));
        }
        let right = point.shift(Direction::Right);
        if self.admits(right, Direction::Right) {
            options.push(right);
        }
        proof {
            assert(options@ =~= self.beside(point));
        }
        options
    }

    /// The walks of one step more than `path` that come to no place twice.
    pub fn possible_continuations(&self, path: &Path) -> (r: Vec<Path>)
        requires
            self.wf(),
            path.wf(),
            path@.last() < self.size(),
        ensures
            ways(r@) == self.onward(path@),
            forall|k: int|
                0 <= k < r@.len() ==> (#[trigger] r@[k]).wf() && r@[k]@.drop_last() == path@
                    && !path@.contains(r@[k]@.last()) && r@[k]@.last() < self.size(),
    {
        let point = self.spot(path.end());
        let around = self.neighbors(point);
        let ghost next = self.next_places(path@.last());
        let mut results: Vec<Path> = Vec::new();
        let mut i: usize = 0;
        proof {
            assert(next.take(0) =~= Seq::<usize>::empty());
            assert(ways(results@) =~= joined(path@, next.take(0)));
        }
        while i < around.len()
            invariant
                i <= around@.len(),
                self.wf(),
                path.wf(),
                around@ == self.beside(self.spot_of(path@.last())),
                next == self.next_places(path@.last()),
                next.len() == around@.len(),
                forall|k: int| 0 <= k < around@.len() ==> self.tile(#[trigger] around@[k]) is Some,
                ways(results@) == joined(path@, next.take(i as int)),
                forall|k: int|
                    0 <= k < results@.len() ==> (#[trigger] results@[k]).wf()
                        && results@[k]@.drop_last() == path@ && !path@.contains(
                        results@[k]@.last(),
                    ) && results@[k]@.last() < self.size(),
            decreases around@.len() - i,
        {
            let place = self.place(around[i]);
            let ghost before = results@;
            proof {
                assert(next.take(i + 1).drop_last() =~= next.take(i as int));
                assert(next.take(i + 1).last() == place);
            }
            match path.join(place) {
                Some(longer) => {
                    proof {
                        assert(longer@.drop_last() =~= path@);
                    }
                    results.push(longer);
                    proof {
                        assert(ways(results@) =~= ways(before).push(path@.push(place)));
                    }
                },
                None => {},
            }
            i = i + 1;
        }
        proof {
            assert(next.take(i as int) =~= next);
        }
        results
    }

    /// The first point of the row that is open ground.
    pub open spec fn gate_of(&self, row: isize, gate: Option<Point>) -> bool {
        match gate {
            Some(point) => {
                &&& point.row == row
                &&& 0 <= point.col < self.cols
                &&& self.tile(point) == Some(Tile::Open)
                &&& forall|col: isize|
                    0 <= col < point.col ==> #[trigger] self.tile(Point { row, col }) != Some(
                        Tile::Open,
                    )
            },
            None => forall|col: isize|
                0 <= col < self.cols ==> #[trigger] self.tile(Point { row, col }) != Some(
                    Tile::Open,
                ),
        }
    }

    /// The first point of the row that is open ground, if there is one.
    fn gate(&self, row: isize) -> (r: Option<Point>)
        ensures
            self.gate_of(row, r),
    {
        let mut col: isize = 0;
        while col < self.cols
            invariant
                0 <= col,
                forall|before: isize|
                    0 <= before < col ==> #[trigger] self.tile(Point { row, col: before })
                        != Some(Tile::Open),
            decreases self.cols - col,
        {
            let point = Point::new(row, col);
            match self.get(point) {
                Some(Tile::Open) => {
                    return Some(point);
                },
                _ => {},
            }
            col = col + 1;
        }
        None
    }

    /// Where the walk through the forest starts: at the first open ground of
    /// the first row, if there is any.
    pub fn start(&self) -> (r: Option<Point>)
        ensures
            self.gate_of(0, r),
    {
        self.gate(0)
    }

    /// Where the walk through the forest ends: at the first open ground of
    /// the last row, if there is any.
    pub fn end(&self) -> (r: Option<Point>)
        requires
            self.rows > isize::MIN,
        ensures
            self.gate_of((self.rows - 1) as isize, r),
    {
        self.gate(self.rows - 1)
    }

    /// Follows the trails from `map_start` on, from one parting of the ways
    /// to the next, and notes how long the ways between them are. No more
    /// than `budget` walks are taken up; `None` where that does not suffice.
    pub fn create_mapping(&self, map_start: Point, budget: usize) -> (r: Option<Mapping>)
        requires
            self.wf(),
            self.tile(map_start) is Some,
        ensures
            match self.mapped(map_start, budget as nat) {
                Some(chart) => r matches Some(mapping) && mapping.wf() && mapping.size()
                    == self.size() && mapping@ == chart,
                None => r is None,
            },
    {
        let ghost goal = self.charted(
            seq![seq![self.place_of(map_start)]],
            Chart { entered: Set::empty(), lengths: Map::empty() },
            budget as nat,
        );
        let first = self.place(map_start);
        let size = (self.rows as usize) * (self.cols as usize);
        let mut queue: VecDeque<Path> = VecDeque::new();
        let mut mapping = Mapping::new(size);
        let mut left = budget;
        queue.push_back(Path::new(first));
        proof {
            assert(ways(queue@) =~= seq![seq![self.place_of(map_start)]]);
            assert(mapping@ == (Chart { entered: Set::empty(), lengths: Map::empty() }));
        }
        while queue.len() > 0
            invariant
                self.wf(),
                mapping.wf(),
                mapping.size() == self.size(),
                self.charted(ways(queue@), mapping@, left as nat) == goal,
                goal == self.charted(
                    seq![seq![self.place_of(map_start)]],
                    Chart { entered: Set::empty(), lengths: Map::empty() },
                    budget as nat,
                ),
                forall|k: int|
                    0 <= k < queue@.len() ==> (#[trigger] queue@[k]).wf() && queue@[k]@[0]
                        < self.size() && queue@[k]@.last() < self.size(),
            decreases left,
        {
            if left == 0 {
                proof {
                    assert(ways(queue@).len() > 0);
                }
                return None;
            }
            left = left - 1;
            let ghost line = queue@;
            let path = match queue.pop_front() {
                Some(path) => path,
                None => {
                    return None;
                },
            };
            proof {
                assert(queue@ =~= line.drop_first());
                assert(ways(line)[0] == path@);
                assert(ways(line).drop_first() =~= ways(queue@));
            }
            let ghost rest = queue@;
            let mut possibles = self.possible_continuations(&path);
            let ghost onward = self.onward(path@);
            if possibles.len() == 0 {
                mapping.note(path.start(), path.end(), path.len());
            } else if possibles.len() == 1 {
                match possibles.pop() {
                    Some(longer) => {
                        proof {
                            assert(longer@ == onward[0]);
                            assert(longer@[0] == longer@.drop_last()[0]);
                        }
                        queue.push_front(longer);
                        proof {
                            assert(ways(queue@) =~= seq![onward[0]] + ways(rest));
                        }
                    },
                    None => {},
                }
            } else {
                let from = path.end();
                mapping.note(path.start(), from, path.len());
                if !mapping.has_entry(from) {
                    let mut i: usize = 0;
                    proof {
                        assert(ways(queue@) =~= ways(rest) + seeds(from, onward).take(0));
                    }
                    while i < possibles.len()
                        invariant
                            i <= possibles@.len(),
                            self.wf(),
                            from < self.size(),
                            onward == ways(possibles@),
                            forall|k: int|
                                0 <= k < possibles@.len() ==> (#[trigger] possibles@[k]).wf()
                                    && possibles@[k]@.last() != from && possibles@[k]@.last()
                                    < self.size(),
                            ways(queue@) == ways(rest) + seeds(from, onward).take(i as int),
                            forall|k: int|
                                0 <= k < queue@.len() ==> (#[trigger] queue@[k]).wf()
                                    && queue@[k]@[0] < self.size() && queue@[k]@.last()
                                    < self.size(),
                        decreases possibles@.len() - i,
                    {
                        let to = possibles[i].end();
                        let ghost held = queue@;
                        match Path::new(from).join(to) {
                            Some(seed) => {
                                queue.push_back(seed);
                                proof {
                                    assert(seed@ =~= seq![from, to]);
                                    assert(seeds(from, onward).take(i + 1) =~= seeds(
                                        from,
                                        onward,
                                    ).take(i as int).push(seq![from, to]));
                                    assert(ways(queue@) =~= ways(held).push(seed@));
                                }
                            },
                            None => {
                                proof {
                                    assert(seq![from].contains(to));
                                    assert(seq![from][0] == from);
                                }
                            },
                        }
                        i = i + 1;
                    }
                    proof {
                        assert(seeds(from, onward).take(i as int) =~= seeds(from, onward));
                    }
                }
            }
        }
        Some(mapping)
    }

    /// A row has one first point of open ground at most.
    proof fn lemma_one_gate(&self, row: isize, one: Option<Point>, other: Option<Point>)
        requires
            self.gate_of(row, one),
            self.gate_of(row, other),
        ensures
            one == other,
    {
        match (one, other) {
            (Some(a), Some(b)) => {
                if a.col < b.col {
                    assert(self.tile(Point { row, col: a.col }) != Some(Tile::Open));
                } else if b.col < a.col {
                    assert(self.tile(Point { row, col: b.col }) != Some(Tile::Open));
                }
            },
            (Some(a), None) => {
                assert(self.tile(Point { row, col: a.col }) != Some(Tile::Open));
            },
            (None, Some(b)) => {
                assert(self.tile(Point { row, col: b.col }) != Some(Tile::Open));
            },
            (None, None) => {},
        }
    }

    /// `r` is what the longest walk through the forest comes to with `fuel`
    /// walks to take up: its length as `is_longest` has it over the ways
    /// that `create_mapping` finds; `None` where the forest has no start or
    /// no end, where the fuel does not suffice, or where a walk is longer
    /// than the machine can count.
    pub open spec fn answers(&self, fuel: nat, r: Option<usize>) -> bool {
        &&& self.gate_of(0, None) || self.gate_of((self.rows - 1) as isize, None) ==> r is None
        &&& forall|start: Point| #[trigger]
            self.gate_of(0, Some(start)) ==> forall|end: Point| #[trigger]
                self.gate_of((self.rows - 1) as isize, Some(end)) ==> match self.mapped(
                    start,
                    fuel,
                ) {
                    Some(chart) => match r {
                        Some(longest) => is_longest(
                            chart.lengths,
                            self.place_of(start),
                            self.place_of(end),
                            longest as nat,
                        ) && !too_long(
                            chart.lengths,
                            self.place_of(start),
                            self.place_of(end),
                        ),
                        None => too_long(
                            chart.lengths,
                            self.place_of(start),
                            self.place_of(end),
                        ),
                    },
                    None => r is None,
                }
    }

    /// The length of the longest walk from the start of the forest to its
    /// end that comes to no place twice and keeps to the ways that
    /// `create_mapping` finds. `None` where the forest has no start or no
    /// end, where the budget does not suffice, or where a walk is longer
    /// than the machine can count.
    pub fn longest_path(&self, budget: usize) -> (r: Option<usize>)
        requires
            self.wf(),
        ensures
            self.answers(budget as nat, r),
    {
        let start = self.start();
        let end = self.end();
        proof {
            let last = (self.rows - 1) as isize;
            assert forall|other: Option<Point>| #[trigger]
                self.gate_of(0, other) implies other == start by {
                self.lemma_one_gate(0, start, other);
            }
            assert forall|other: Option<Point>| #[trigger]
                self.gate_of(last, other) implies other == end by {
                self.lemma_one_gate(last, end, other);
            }
        }
        let start = match start {
            Some(start) => start,
            None => {
                return None;
            },
        };
        let end = match end {
            Some(end) => end,
            None => {
                return None;
            },
        };
        let mapping = match self.create_mapping(start, budget) {
            Some(mapping) => mapping,
            None => {
                return None;
            },
        };
        mapping.longest_path(self.place(start), self.place(end))
    }

    /// What `create_mapping` finds from `start` on.
    pub open spec fn mapped(&self, start: Point, fuel: nat) -> Option<Chart> {
        self.charted(
            seq![seq![self.place_of(start)]],
            Chart { entered: Set::empty(), lengths: Map::empty() },
            fuel,
        )
    }

    /// Reads a forest, a line for each row; with `steep` its slopes are
    /// kept. The forest is as wide as its longest line. `None` where a byte
    /// stands for no tile, or where the forest does not fit.
    fn read(value: &str, steep: bool) -> (r: Option<Self>)
        ensures
            match r {
                Some(trails) => trails.wf() && fits(lines(value.spec_bytes())) && trails.drawn(
                    lines(value.spec_bytes()),
                    steep,
                ),
                None => !readable(lines(value.spec_bytes()), steep) || !fits(
                    lines(value.spec_bytes()),
                ),
            },
    {
        let rows = split_lines(value.as_bytes());
        let ghost text = lines(value.spec_bytes());
        let mut spots: Vec<Vec<Tile>> = Vec::new();
        let mut cols: usize = 0;
        let mut i: usize = 0;
        proof {
            assert(text.take(0) =~= Seq::<Seq<u8>>::empty());
        }
        while i < rows.len()
            invariant
                i <= rows@.len(),
                text == rows_of(rows@),
                text == lines(value.spec_bytes()),
                spots@.len() == i,
                cols == widest(text.take(i as int)),
                forall|row: int|
                    0 <= row < i ==> (#[trigger] spots@[row])@.len() == text[row].len(),
                forall|row: int, col: int|
                    0 <= row < i && 0 <= col < text[row].len() ==> kind(
                        #[trigger] text[row][col],
                        steep,
                    ) == Some(spots@[row]@[col]),
            decreases rows@.len() - i,
        {
            let line = &rows[i];
            let mut row: Vec<Tile> = Vec::new();
            let mut j: usize = 0;
            while j < line.len()
                invariant
                    j <= line@.len(),
                    i < rows@.len(),
                    text == rows_of(rows@),
                    text == lines(value.spec_bytes()),
                    line@ == text[i as int],
                    row@.len() == j,
                    forall|col: int| 0 <= col < j ==> kind(#[trigger] line@[col], steep) == Some(
                        row@[col],
                    ),
                decreases line@.len() - j,
            {
                let tile = if steep {
                    Tile::from_part1(line[j] as char)
                } else {
                    Tile::from_part2(line[j] as char)
                };
                match tile {
                    Some(tile) => {
                        row.push(tile);
                    },
                    None => {
                        proof {
                            assert(kind(text[i as int][j as int], steep) is None);
                        }
                        return None;
                    },
                }
                j = j + 1;
            }
            if row.len() > cols {
                cols = row.len();
            }
            spots.push(row);
            proof {
                assert(text.take(i + 1).drop_last() =~= text.take(i as int));
            }
            i = i + 1;
        }
        proof {
            assert(text.take(i as int) =~= text);
            lemma_widest(text);
        }
        let rows = spots.len();
        if rows > MAX_PLACES || cols > MAX_PLACES {
            return None;
        }
        proof {
            assert(rows * cols <= MAX_PLACES * MAX_PLACES) by (nonlinear_arith)
                requires
                    0 <= rows <= MAX_PLACES,
                    0 <= cols <= MAX_PLACES,
            ;
        }
        if (rows as u64) * (cols as u64) > MAX_PLACES as u64 {
            return None;
        }
        Some(Trails { spots, rows: rows as isize, cols: cols as isize })
    }

    /// Reads a forest with its slopes.
    pub fn from_part1(value: &str) -> (r: Option<Self>)
        ensures
            match r {
                Some(trails) => trails.wf() && fits(lines(value.spec_bytes())) && trails.drawn(
                    lines(value.spec_bytes()),
                    true,
                ),
                None => !readable(lines(value.spec_bytes()), true) || !fits(
                    lines(value.spec_bytes()),
                ),
            },
    {
        Trails::read(value, true)
    }

    /// Reads a forest and takes each slope for open ground.
    pub fn from_part2(value: &str) -> (r: Option<Self>)
        ensures
            match r {
                Some(trails) => trails.wf() && fits(lines(value.spec_bytes())) && trails.drawn(
                    lines(value.spec_bytes()),
                    false,
                ),
                None => !readable(lines(value.spec_bytes()), false) || !fits(
                    lines(value.spec_bytes()),
                ),
            },
    {
        Trails::read(value, false)
    }

    /// The forest is the one that the lines draw: a row for each line, a
    /// tile for each byte, and as wide as the longest line.
    pub open spec fn drawn(&self, text: Seq<Seq<u8>>, steep: bool) -> bool {
        &&& readable(text, steep)
        &&& self.rows == text.len()
        &&& self.cols == widest(text)
        &&& self.spots@.len() == text.len()
        &&& forall|row: int|
            0 <= row < text.len() ==> (#[trigger] self.spots@[row])@.len() == text[row].len()
        &&& forall|row: int, col: int|
            0 <= row < text.len() && 0 <= col < text[row].len() ==> kind(
                #[trigger] text[row][col],
                steep,
            ) == Some(self.spots@[row]@[col])
    }
}

/// The most places that a forest can have.
pub const MAX_PLACES: usize = 0x7fff_ffff;

/// The forest that the lines draw has no more rows, columns or places than
/// `MAX_PLACES`.
pub open spec fn fits(text: Seq<Seq<u8>>) -> bool {
    text.len() <= MAX_PLACES && widest(text) <= MAX_PLACES && text.len() * widest(text)
        <= MAX_PLACES
}

/// The tile that a byte stands for, with its slope or without.
pub open spec fn kind(byte: u8, steep: bool) -> Option<Tile> {
    if steep {
        Tile::steep(byte as char)
    } else {
        Tile::flat(byte as char)
    }
}

/// Every byte of the lines stands for a tile.
pub open spec fn readable(text: Seq<Seq<u8>>, steep: bool) -> bool {
    forall|row: int, col: int|
        0 <= row < text.len() && 0 <= col < text[row].len() ==> kind(
            #[trigger] text[row][col],
            steep,
        ) is Some
}

/// The most walks that are taken up for a forest.
pub const BUDGET: usize = usize::MAX;

/// The longest walk through the forest of the text with its slopes, as
/// `Trails::answers` has it. `None` too where the text holds no forest.
pub fn solve_part1(input: &str) -> (r: Option<usize>)
    ensures
        if readable(lines(input.spec_bytes()), true) && fits(lines(input.spec_bytes())) {
            exists|trails: Trails|
                trails.wf() && #[trigger] trails.drawn(lines(input.spec_bytes()), true)
                    && trails.answers(BUDGET as nat, r)
        } else {
            r is None
        },
{
    match Trails::from_part1(input) {
        Some(trails) => trails.longest_path(BUDGET),
        None => None,
    }
}

/// The longest walk through the forest of the text with its slopes taken
/// for open ground, as `Trails::answers` has it. `None` too where the text
/// holds no forest.
pub fn solve_part2(input: &str) -> (r: Option<usize>)
    ensures
        if readable(lines(input.spec_bytes()), false) && fits(lines(input.spec_bytes())) {
            exists|trails: Trails|
                trails.wf() && #[trigger] trails.drawn(lines(input.spec_bytes()), false)
                    && trails.answers(BUDGET as nat, r)
        } else {
            r is None
        },
{
    match Trails::from_part2(input) {
        Some(trails) => trails.longest_path(BUDGET),
        None => None,
    }
}

} // verus!
