//! The mathematical model of a uniform-cost search: the graph, the state of a
//! search over it, what one request for the next result computes, and the laws
//! that hold of it.

use crate::dijkstra::Value;
use vstd::prelude::*;
use vstd::set_lib::*;

verus! {

/// A weighted graph over states of type `V`: which states are goals, and the
/// transitions that leave each state, each with its cost.
#[verifier::reject_recursive_types(V)]
pub ghost struct Graph<V> {
    pub goal: spec_fn(V) -> bool,
    pub edges: spec_fn(V) -> Seq<(V, u32)>,
}

/// The state of a search.
pub ghost struct Search<V> {
    /// The states found and not yet taken up, each with the cost at which it
    /// was found, in the order in which they were found.
    pub frontier: Seq<(V, nat)>,
    /// The identities that are final, each with its cost.
    pub settled: Map<u32, nat>,
    /// The identities whose transitions were asked for, in that order.
    pub expanded: Seq<u32>,
}

/// A search that has only found its origin.
pub open spec fn start<V>(origin: V) -> Search<V> {
    Search { frontier: seq![(origin, 0nat)], settled: Map::empty(), expanded: Seq::empty() }
}

/// The first position of `frontier` that holds its lowest cost.
pub open spec fn lowest<V>(frontier: Seq<(V, nat)>) -> int
    decreases frontier.len(),
{
    if frontier.len() <= 1 {
        0
    } else {
        let before = lowest(frontier.drop_last());
        if frontier.last().1 < frontier[before].1 {
            frontier.len() - 1
        } else {
            before
        }
    }
}

/// What an expansion adds to the frontier: the transitions to identities that
/// are not final, in their order, each at `base` plus its own cost.
pub open spec fn offspring<V: Value>(edges: Seq<(V, u32)>, done: Set<u32>, base: nat) -> Seq<
    (V, nat),
>
    decreases edges.len(),
{
    if edges.len() == 0 {
        Seq::empty()
    } else {
        let before = offspring(edges.drop_last(), done, base);
        let (state, cost) = edges.last();
        if done.contains(state.id_spec()) {
            before
        } else {
            before.push((state, (base + cost) as nat))
        }
    }
}

/// How many identities are not final yet.
pub open spec fn room(done: Set<u32>) -> nat {
    Set::<u32>::full().difference(done).len()
}

/// The search after the entry at `i` was found stale and dropped.
pub open spec fn discard<V>(s: Search<V>, i: int) -> Search<V> {
    Search { frontier: s.frontier.remove(i), settled: s.settled, expanded: s.expanded }
}

/// The search after the entry at `i` was taken up and its identity made final.
pub open spec fn settle<V: Value>(s: Search<V>, i: int) -> Search<V> {
    Search {
        frontier: s.frontier.remove(i),
        settled: s.settled.insert(s.frontier[i].0.id_spec(), s.frontier[i].1),
        expanded: s.expanded,
    }
}

/// The search after the entry at `i` was taken up, made final and expanded.
pub open spec fn expand<V: Value>(g: Graph<V>, s: Search<V>, i: int) -> Search<V> {
    let (state, cost) = s.frontier[i];
    let taken = settle(s, i);
    Search {
        frontier: taken.frontier + offspring((g.edges)(state), taken.settled.dom(), cost),
        settled: taken.settled,
        expanded: s.expanded.push(state.id_spec()),
    }
}

/// What one request for the next result computes: the result, if there is
/// one, and the search as it stands afterwards.
///
/// The cheapest entry of the frontier is taken, the earliest of them where
/// several cost the same. An entry whose identity is final already is stale
/// and dropped. Otherwise its identity becomes final at its cost; a goal is the
/// result and the search pauses there, anything else is expanded and the
/// search goes on. With an empty frontier there is no result, and the search
/// stays as it is.
pub open spec fn advance<V: Value>(g: Graph<V>, s: Search<V>) -> (Option<(V, nat)>, Search<V>)
    decreases room(s.settled.dom()), s.frontier.len(),
    via advance_terminates::<V>
{
    if s.frontier.len() == 0 {
        (None, s)
    } else {
        let i = lowest(s.frontier);
        let (state, cost) = s.frontier[i];
        if s.settled.dom().contains(state.id_spec()) {
            advance(g, discard(s, i))
        } else if (g.goal)(state) {
            (Some((state, cost)), settle(s, i))
        } else {
            advance(g, expand(g, s, i))
        }
    }
}

#[via_fn]
proof fn advance_terminates<V: Value>(g: Graph<V>, s: Search<V>) {
    if s.frontier.len() != 0 {
        lemma_lowest(s.frontier);
        let i = lowest(s.frontier);
        let id = s.frontier[i].0.id_spec();
        if !s.settled.dom().contains(id) {
            lemma_room_shrinks(s.settled.dom(), id);
            assert(s.settled.insert(id, s.frontier[i].1).dom() =~= s.settled.dom().insert(id));
        }
    }
}

/// The state that step `k` of `path` leaves: the origin for the first step,
/// else the state that the step before it reached.
pub open spec fn source<V>(origin: V, path: Seq<(V, u32)>, k: int) -> V {
    if k <= 0 {
        origin
    } else {
        path[k - 1].0
    }
}

/// `step` is a transition out of `from`, and `from` is no goal: a search does
/// not go on from a goal.
pub open spec fn leaves<V>(g: Graph<V>, from: V, step: (V, u32)) -> bool {
    !(g.goal)(from) && (g.edges)(from).contains(step)
}

/// `path` is a chain of transitions of `g` that starts at `origin`, given as
/// the states it reaches, each with the cost of the transition into it.
pub open spec fn is_walk<V>(g: Graph<V>, origin: V, path: Seq<(V, u32)>) -> bool {
    forall|k: int| 0 <= k < path.len() ==> leaves(g, source(origin, path, k), #[trigger] path[k])
}

/// The state at which `path` ends.
pub open spec fn end_of<V>(origin: V, path: Seq<(V, u32)>) -> V {
    source(origin, path, path.len() as int)
}

/// The sum of the costs along `path`.
pub open spec fn cost_of<V>(path: Seq<(V, u32)>) -> nat
    decreases path.len(),
{
    if path.len() == 0 {
        0
    } else {
        (cost_of(path.drop_last()) + path.last().1) as nat
    }
}

/// Some walk from `origin` ends at `state` and costs `cost`.
pub open spec fn reaches<V>(g: Graph<V>, origin: V, state: V, cost: nat) -> bool {
    exists|path: Seq<(V, u32)>| #[trigger]
        is_walk(g, origin, path) && end_of(origin, path) == state && cost_of(path) == cost
}

pub proof fn lemma_lowest<V>(frontier: Seq<(V, nat)>)
    requires
        frontier.len() > 0,
    ensures
        0 <= lowest(frontier) < frontier.len(),
        forall|i: int| 0 <= i < frontier.len() ==> frontier[lowest(frontier)].1 <= (#[trigger] frontier[i]).1,
        forall|i: int| 0 <= i < lowest(frontier) ==> frontier[lowest(frontier)].1 < (#[trigger] frontier[i]).1,
    decreases frontier.len(),
{
    if frontier.len() > 1 {
        let front = frontier.drop_last();
        lemma_lowest(front);
        assert forall|i: int| 0 <= i < frontier.len() implies frontier[lowest(frontier)].1 <= (
        #[trigger] frontier[i]).1 by {
            if i < front.len() {
                assert(front[i] == frontier[i]);
            }
        }
        assert forall|i: int| 0 <= i < lowest(frontier) implies frontier[lowest(frontier)].1 < (
        #[trigger] frontier[i]).1 by {
            assert(front[i] == frontier[i]);
        }
    }
}

pub proof fn lemma_room_shrinks(done: Set<u32>, id: u32)
    requires
        !done.contains(id),
    ensures
        room(done.insert(id)) < room(done),
{
    <u32 as FiniteFull>::full_properties();
    let all = Set::<u32>::full();
    let open = all.difference(done);
    assert(all.finite());
    assert(open.subset_of(all));
    lemma_set_subset_finite(all, open);
    assert(open.contains(id));
    assert(all.difference(done.insert(id)) =~= open.remove(id));
}

} // verus!
