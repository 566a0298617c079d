//! A uniform-cost search that gives the goals of a graph one by one, cheapest
//! first.

use crate::laws::{
    after, born, follows, given, inv, law_next_is_cheapest, lemma_discard, lemma_expand,
    lemma_offspring, lemma_settle_goal, lemma_start,
};
use crate::search::{
    advance, discard, expand, lemma_lowest, lemma_room_shrinks, lowest, offspring, room, settle,
    Graph, Search,
};
use std::collections::HashSet;
use vstd::prelude::*;
use vstd::set_lib::{lemma_len_subset, FiniteFull, FiniteRange};

verus! {

broadcast use vstd::std_specs::hash::group_hash_axioms;

/// The highest cost that one transition can have.
pub const MAX_STEP: u64 = 0xFFFF_FFFF;

/// A state of a search space.
///
/// The identity is what the engine deduplicates on: two states with the same
/// identity are one node of the graph, whatever else they carry. An
/// implementation overrides `id_spec` together with `id`.
pub trait Value {
    /// The identity of this state, as contracts see it.
    open spec fn id_spec(&self) -> u32 {
        0
    }

    /// The identity of this state.
    fn id(&self) -> (r: u32)
        ensures
            r == self.id_spec(),
    ;
}

/// A state with the cost at which the search found it.
struct Node<V> {
    value: V,
    cost: u64,
}

/// What the frontier holds, as the model sees it.
spec fn entries<V>(nodes: Seq<Node<V>>) -> Seq<(V, nat)> {
    nodes.map_values(|n: Node<V>| (n.value, n.cost as nat))
}

/// Both functions may be called on every state.
pub open spec fn callable<V, FS: Fn(&V) -> bool, FN: Fn(&V) -> Vec<(V, u32)>>(
    success: FS,
    neighbors: FN,
) -> bool {
    &&& forall|state: V| call_requires(success, (&state,))
    &&& forall|state: V| call_requires(neighbors, (&state,))
}

/// The two functions compute the graph `g`: whatever `success` answers for a
/// state is what `g` says of it, and whatever `neighbors` gives for it are the
/// transitions that leave it in `g`.
pub open spec fn implements<V, FS: Fn(&V) -> bool, FN: Fn(&V) -> Vec<(V, u32)>>(
    success: FS,
    neighbors: FN,
    g: Graph<V>,
) -> bool {
    &&& forall|state: V, answer: bool|
        call_ensures(success, (&state,), answer) ==> answer == (g.goal)(state)
    &&& forall|state: V, out: Vec<(V, u32)>|
        call_ensures(neighbors, (&state,), out) ==> out@ == (g.edges)(state)
}

/// A search engine: it is made with an origin, a test for goals and a
/// function that gives the transitions out of a state, and gives the goals
/// that can be reached from the origin one by one, each with the cost of the
/// cheapest way to it.
pub struct Dijkstra<V, FS, FN> where V: Value {
    unvisited: Vec<Node<V>>,
    visited: HashSet<u32>,
    success: FS,
    neighbors: FN,
    settled: Ghost<Map<u32, nat>>,
    expanded: Ghost<Seq<u32>>,
    origin: Ghost<V>,
}

/// A result as the model sees it.
pub open spec fn lift<V>(r: Option<(V, u64)>) -> Option<(V, nat)> {
    match r {
        Some((state, cost)) => Some((state, cost as nat)),
        None => None,
    }
}

/// A request on the search `s` will do what `follows` says.
#[verifier::opaque]
spec fn promised<V: Value>(g: Graph<V>, origin: V, s: Search<V>) -> bool {
    follows(g, origin, s, advance(g, s).0, advance(g, s).1)
}

/// The position of the first cheapest node.
fn lowest_index<V>(nodes: &Vec<Node<V>>) -> (at: usize)
    requires
        nodes.len() > 0,
    ensures
        at == lowest(entries(nodes@)),
        at < nodes.len(),
{
    let mut at: usize = 0;
    let mut i: usize = 1;
    proof {
        assert(entries(nodes@).take(1).len() == 1);
    }
    while i < nodes.len()
        invariant
            1 <= i <= nodes.len(),
            at < i,
            at == lowest(entries(nodes@).take(i as int)),
        decreases nodes.len() - i,
    {
        proof {
            let seen = entries(nodes@).take(i as int + 1);
            assert(seen.drop_last() =~= entries(nodes@).take(i as int));
            assert(seen.last() == entries(nodes@)[i as int]);
            assert(seen[at as int] == entries(nodes@)[at as int]);
        }
        if nodes[i].cost < nodes[at].cost {
            at = i;
        }
        i = i + 1;
    }
    proof {
        assert(entries(nodes@).take(i as int) =~= entries(nodes@));
    }
    at
}

/// Puts on the frontier each transition of `edges` that leads to an identity
/// that is not final, in their order, at `base` plus its own cost.
fn offer<V: Value>(unvisited: &mut Vec<Node<V>>, visited: &HashSet<u32>, edges: Vec<(V, u32)>, base: u64)
    requires
        base + MAX_STEP <= u64::MAX,
    ensures
        entries(final(unvisited)@) == entries(old(unvisited)@) + offspring(
            edges@,
            visited@,
            base as nat,
        ),
{
    let ghost all = edges@;
    for edge in it: edges.into_iter()
        invariant
            it.seq() == all,
            base + MAX_STEP <= u64::MAX,
            entries(unvisited@) == entries(old(unvisited)@) + offspring(
                all.take(it.index() as int),
                visited@,
                base as nat,
            ),
    {
        let (state, cost) = edge;
        proof {
            let seen = all.take(it.index() + 1);
            assert(seen.drop_last() =~= all.take(it.index() as int));
            assert(seen.last() == all[it.index() as int]);
        }
        let id = state.id();
        if !visited.contains(&id) {
            let ghost before = unvisited@;
            unvisited.push(Node { value: state, cost: base + cost as u64 });
            proof {
                assert(entries(unvisited@) =~= entries(before).push((state, (base + cost) as nat)));
            }
        }
    }
    proof {
        assert(all.take(all.len() as int) =~= all);
    }
}

impl<V: Value, FS: Fn(&V) -> bool, FN: Fn(&V) -> Vec<(V, u32)>> Dijkstra<V, FS, FN> {
    /// The search as the model sees it.
    pub closed spec fn view(&self) -> Search<V> {
        Search {
            frontier: entries(self.unvisited@),
            settled: self.settled@,
            expanded: self.expanded@,
        }
    }

    /// The two functions of the engine compute the graph `g`.
    pub closed spec fn searches(&self, g: Graph<V>) -> bool {
        implements(self.success, self.neighbors, g)
    }

    /// The state from which the engine set out.
    pub closed spec fn origin(&self) -> V {
        self.origin@
    }

    /// The engine is in order.
    pub closed spec fn wf(&self) -> bool {
        &&& callable(self.success, self.neighbors)
        &&& self.visited@ == self.settled@.dom()
        &&& self.settled@.dom().finite()
        &&& forall|i: int|
            0 <= i < self.unvisited@.len() ==> (#[trigger] self.unvisited@[i]).cost
                <= self.settled@.dom().len() * MAX_STEP
        &&& forall|g: Graph<V>| #[trigger]
            implements(self.success, self.neighbors, g) ==> inv(g, self.origin@, self@)
    }

    /// An engine in order meets the invariant of a search over every graph
    /// that its functions compute.
    pub proof fn engine_meets_invariant(&self, g: Graph<V>)
        requires
            self.wf(),
            self.searches(g),
        ensures
            inv(g, self.origin(), self@),
    {
    }

    /// Determinism. Two engines that stand alike and search one graph give
    /// the same results from now on, request by request, and stand alike
    /// after each.
    pub proof fn law_runs_repeat(&self, other: &Self, g: Graph<V>, n: nat)
        requires
            self.wf(),
            other.wf(),
            self.searches(g),
            other.searches(g),
            self@ == other@,
        ensures
            given(g, self@, n) == given(g, other@, n),
            after(g, self@, n) == after(g, other@, n),
    {
    }

    /// An engine that will search from `start`.
    pub fn new(start: V, success: FS, neighbors: FN) -> (r: Self)
        requires
            callable(success, neighbors),
        ensures
            r.wf(),
            r.origin() == start,
            r@ == crate::search::start(start),
            forall|g: Graph<V>| #[trigger] r.searches(g) == implements(success, neighbors, g),
    {
        let ghost origin = start;
        let mut unvisited = Vec::new();
        unvisited.push(Node { value: start, cost: 0 });
        let r = Dijkstra {
            unvisited,
            visited: HashSet::new(),
            success,
            neighbors,
            settled: Ghost(Map::empty()),
            expanded: Ghost(Seq::empty()),
            origin: Ghost(origin),
        };
        proof {
            assert(r@.frontier =~= seq![(origin, 0nat)]);
            assert(r.visited@ =~= r.settled@.dom());
            assert forall|g: Graph<V>| #[trigger]
                implements(r.success, r.neighbors, g) implies inv(g, origin, r@) by {
                lemma_start(g, origin);
            }
        }
        r
    }

    /// The next goal, with the cost of the cheapest way to it; `None` once no
    /// goal is left, and from then on.
    ///
    /// Whatever graph the functions of the engine compute, the result and the
    /// engine afterwards are what `advance` computes over that graph from the
    /// engine before, so a request gives one answer on one engine; what that
    /// answer is worth is said by `follows`.
    pub fn next(&mut self) -> (r: Option<(V, u64)>)
        requires
            old(self).wf(),
        ensures
            final(self).wf(),
            final(self).origin() == old(self).origin(),
            forall|g: Graph<V>| #[trigger] final(self).searches(g) == old(self).searches(g),
            forall|g: Graph<V>| #[trigger]
                old(self).searches(g) ==> {
                    &&& lift(r) == advance(g, old(self)@).0
                    &&& final(self)@ == advance(g, old(self)@).1
                    &&& follows(g, old(self).origin(), old(self)@, lift(r), final(self)@)
                },
    {
        let ghost first = self@;
        proof {
            assert forall|g: Graph<V>| #[trigger]
                implements(self.success, self.neighbors, g) implies promised(
                g,
                self.origin@,
                first,
            ) by {
                law_next_is_cheapest(g, self.origin@, first);
                reveal(promised);
            }
        }
        loop
            invariant
                self.wf(),
                self.success == old(self).success,
                self.neighbors == old(self).neighbors,
                self.origin == old(self).origin,
                first == old(self)@,
                forall|g: Graph<V>| #[trigger]
                    implements(self.success, self.neighbors, g) ==> advance(g, self@) == advance(
                        g,
                        first,
                    ) && promised(g, self.origin@, first),
            decreases room(self@.settled.dom()), self.unvisited.len(),
        {
            if self.unvisited.len() == 0 {
                proof {
                    reveal(promised);
                }
                return None;
            }
            let ghost before = self@;
            let ghost nodes = self.unvisited@;
            let at = lowest_index(&self.unvisited);
            proof {
                lemma_lowest(before.frontier);
                lemma_bound(self.settled@.dom());
            }
            let node = self.unvisited.remove(at);
            proof {
                assert(entries(self.unvisited@) =~= before.frontier.remove(at as int));
                assert(nodes[at as int] == node);
                assert(before.frontier[at as int] == (node.value, node.cost as nat));
                assert forall|i: int| 0 <= i < self.unvisited@.len() implies (
                #[trigger] self.unvisited@[i]).cost <= self.settled@.dom().len() * MAX_STEP by {
                    let j = if i < at { i } else { i + 1 };
                    assert(self.unvisited@[i] == nodes[j]);
                }
            }
            let id = node.value.id();
            if self.visited.contains(&id) {
                proof {
                    assert(self@ == discard(before, at as int));
                    assert forall|g: Graph<V>| #[trigger]
                        implements(self.success, self.neighbors, g) implies inv(
                        g,
                        self.origin@,
                        self@,
                    ) by {
                        lemma_discard(g, self.origin@, before, at as int);
                    }
                }
                continue ;
            }
            self.visited.insert(id);
            self.settled = Ghost(self.settled@.insert(id, node.cost as nat));
            proof {
                assert(self.settled@.dom() =~= before.settled.dom().insert(id));
                assert(self.visited@ =~= self.settled@.dom());
                lemma_room_shrinks(before.settled.dom(), id);
                lemma_bound(self.settled@.dom());
                assert(self@ == settle(before, at as int));
            }
            let found = (self.success)(&node.value);
            if found {
                proof {
                    reveal(promised);
                    assert forall|g: Graph<V>| #[trigger]
                        implements(self.success, self.neighbors, g) implies inv(
                        g,
                        self.origin@,
                        self@,
                    ) by {
                        lemma_settle_goal(g, self.origin@, before);
                    }
                }
                return Some((node.value, node.cost));
            }
            let edges = (self.neighbors)(&node.value);
            let ghost out = edges@;
            proof {
                lemma_offspring(out, self.settled@.dom(), node.cost as nat);
            }
            let ghost kept = self.unvisited@;
            offer(&mut self.unvisited, &self.visited, edges, node.cost);
            self.expanded = Ghost(self.expanded@.push(id));
            proof {
                let more = offspring(out, self.settled@.dom(), node.cost as nat);
                assert forall|g: Graph<V>| #[trigger]
                    implements(self.success, self.neighbors, g) implies inv(
                    g,
                    self.origin@,
                    self@,
                ) && advance(g, self@) == advance(g, before) by {
                    assert(out == (g.edges)(node.value));
                    assert(!(g.goal)(node.value));
                    lemma_expand(g, self.origin@, before);
                    assert(self@ == expand(g, before, at as int));
                }
                assert forall|i: int| 0 <= i < self.unvisited@.len() implies (
                #[trigger] self.unvisited@[i]).cost <= self.settled@.dom().len() * MAX_STEP by {
                    let entry = entries(self.unvisited@)[i];
                    assert(entries(self.unvisited@) == entries(kept) + more);
                    assert(entries(kept).len() == kept.len());
                    assert(entries(self.unvisited@).len() == self.unvisited@.len());
                    if i < kept.len() {
                        assert(entry == entries(kept)[i]);
                    } else {
                        let m = i - kept.len();
                        assert(entry == more[m]);
                        assert(born(out, node.cost as nat, more[m]));
                    }
                }
            }
        }
    }
}

/// No more than 2^32 identities can be final.
proof fn lemma_bound(done: Set<u32>)
    requires
        done.finite(),
    ensures
        done.len() <= 0x1_0000_0000,
{
    <u32 as FiniteFull>::full_properties();
    <u32 as FiniteRange>::range_properties(0u32, u32::MAX);
    let all = Set::<u32>::full();
    assert(all =~= Set::<u32>::range_inclusive(0u32, u32::MAX));
    lemma_len_subset(done, all);
}

} // verus!
