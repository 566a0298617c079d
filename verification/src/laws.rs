//! Why a uniform-cost search is right: the invariant that every step of a
//! search keeps, and the laws that follow from it.

use crate::dijkstra::Value;
use crate::search::{
    advance, cost_of, discard, end_of, expand, is_walk, leaves, lemma_lowest, lowest, offspring,
    reaches, room, settle, source, start, Graph, Search, lemma_room_shrinks,
};
use vstd::prelude::*;

verus! {

/// The frontier holds an entry for `id` that costs no more than `bound`.
pub open spec fn offers<V: Value>(frontier: Seq<(V, nat)>, id: u32, bound: int) -> bool {
    exists|i: int|
        0 <= i < frontier.len() && (#[trigger] frontier[i]).0.id_spec() == id && frontier[i].1
            <= bound
}

/// `from` has a transition of cost `cost` to a state of identity `id`.
pub open spec fn has_edge<V: Value>(g: Graph<V>, from: V, id: u32, cost: u32) -> bool {
    exists|k: int|
        0 <= k < (g.edges)(from).len() && (#[trigger] (g.edges)(from)[k]).0.id_spec() == id && (
        g.edges)(from)[k].1 == cost
}

/// `a` behaves as `b` does: both are goals or neither is, and each
/// transition of `a` is matched by one of `b`, of the same cost and to the
/// same identity.
pub open spec fn alike<V: Value>(g: Graph<V>, a: V, b: V) -> bool {
    &&& (g.goal)(a) == (g.goal)(b)
    &&& forall|k: int|
        0 <= k < (g.edges)(a).len() ==> has_edge(
            g,
            b,
            (#[trigger] (g.edges)(a)[k]).0.id_spec(),
            (g.edges)(a)[k].1,
        )
}

/// Some walk from `origin` ends at `state`.
pub open spec fn visits<V>(g: Graph<V>, origin: V, state: V) -> bool {
    exists|path: Seq<(V, u32)>| #[trigger] is_walk(g, origin, path) && end_of(origin, path) == state
}

/// The identity of a state decides what the graph says of it: of the states
/// that a walk from `origin` can end at, those of one identity are alike.
pub open spec fn respects_identity<V: Value>(g: Graph<V>, origin: V) -> bool {
    forall|a: V, b: V|
        visits(g, origin, a) && visits(g, origin, b) && a.id_spec() == b.id_spec()
            ==> #[trigger] alike(g, a, b)
}

/// No final cost is above `cost`.
pub open spec fn at_most(settled: Map<u32, nat>, cost: nat) -> bool {
    forall|id: u32| settled.dom().contains(id) ==> #[trigger] settled[id] <= cost
}

/// What holds of every search, whatever the graph.
pub open spec fn sound<V: Value>(g: Graph<V>, origin: V, s: Search<V>) -> bool {
    &&& s.settled.dom().finite()
    &&& forall|i: int|
        0 <= i < s.frontier.len() ==> reaches(
            g,
            origin,
            (#[trigger] s.frontier[i]).0,
            s.frontier[i].1,
        )
    &&& forall|i: int| 0 <= i < s.frontier.len() ==> at_most(s.settled, (#[trigger] s.frontier[i]).1)
    &&& s.expanded.no_duplicates()
    &&& forall|j: int|
        0 <= j < s.expanded.len() ==> s.settled.dom().contains(#[trigger] s.expanded[j])
}

/// `id` is final, or the frontier offers it at `bound` or less.
pub open spec fn covered<V: Value>(s: Search<V>, id: u32, bound: int) -> bool {
    s.settled.dom().contains(id) || offers(s.frontier, id, bound)
}

/// No walk to a final identity is cheaper than its final cost.
pub open spec fn lower<V: Value>(g: Graph<V>, origin: V, s: Search<V>) -> bool {
    forall|path: Seq<(V, u32)>| #[trigger]
        is_walk(g, origin, path) && s.settled.dom().contains(end_of(origin, path).id_spec())
            ==> s.settled[end_of(origin, path).id_spec()] <= cost_of(path)
}

/// Each transition out of a final state that is no goal, but for the states
/// of identity `skip`, leads to a covered identity.
pub open spec fn closed_but<V: Value>(
    g: Graph<V>,
    origin: V,
    s: Search<V>,
    skip: Option<u32>,
) -> bool {
    forall|a: V, k: int|
        visits(g, origin, a) && s.settled.dom().contains(a.id_spec()) && skip != Some(a.id_spec())
            && !(g.goal)(a) && 0 <= k < (g.edges)(a).len() ==> covered(
            s,
            (#[trigger] (g.edges)(a)[k]).0.id_spec(),
            s.settled[a.id_spec()] + (g.edges)(a)[k].1,
        )
}

/// What holds of a search over a graph that respects identity.
pub open spec fn tight<V: Value>(g: Graph<V>, origin: V, s: Search<V>) -> bool {
    &&& lower(g, origin, s)
    &&& closed_but(g, origin, s, None)
    &&& covered(s, origin.id_spec(), 0)
}

/// The invariant of a search from `origin` over `g`.
#[verifier::opaque]
pub open spec fn inv<V: Value>(g: Graph<V>, origin: V, s: Search<V>) -> bool {
    &&& sound(g, origin, s)
    &&& respects_identity(g, origin) ==> tight(g, origin, s)
}

proof fn lemma_offers_after_remove<V: Value>(frontier: Seq<(V, nat)>, i: int, id: u32, bound: int)
    requires
        0 <= i < frontier.len(),
        offers(frontier, id, bound),
        frontier[i].0.id_spec() != id,
    ensures
        offers(frontier.remove(i), id, bound),
{
    let j = choose|j: int|
        0 <= j < frontier.len() && (#[trigger] frontier[j]).0.id_spec() == id && frontier[j].1
            <= bound;
    let rest = frontier.remove(i);
    if j < i {
        assert(rest[j] == frontier[j]);
    } else {
        assert(rest[j - 1] == frontier[j]);
    }
}

proof fn lemma_offers_after_append<V: Value>(
    frontier: Seq<(V, nat)>,
    more: Seq<(V, nat)>,
    id: u32,
    bound: int,
)
    requires
        offers(frontier, id, bound) || offers(more, id, bound),
    ensures
        offers(frontier + more, id, bound),
{
    let all = frontier + more;
    if offers(frontier, id, bound) {
        let j = choose|j: int|
            0 <= j < frontier.len() && (#[trigger] frontier[j]).0.id_spec() == id && frontier[j].1
                <= bound;
        assert(all[j] == frontier[j]);
    } else {
        let j = choose|j: int|
            0 <= j < more.len() && (#[trigger] more[j]).0.id_spec() == id && more[j].1 <= bound;
        assert(all[frontier.len() + j] == more[j]);
    }
}

proof fn lemma_walk_prefix<V>(g: Graph<V>, origin: V, path: Seq<(V, u32)>)
    requires
        is_walk(g, origin, path),
        path.len() > 0,
    ensures
        is_walk(g, origin, path.drop_last()),
        cost_of(path.drop_last()) <= cost_of(path),
        leaves(g, end_of(origin, path.drop_last()), path.last()),
{
    let front = path.drop_last();
    assert forall|k: int| 0 <= k < front.len() implies leaves(
        g,
        source(origin, front, k),
        #[trigger] front[k],
    ) by {
        assert(front[k] == path[k]);
        assert(source(origin, front, k) == source(origin, path, k));
    }
    let last = path.len() - 1;
    assert(leaves(g, source(origin, path, last), path[last]));
    assert(source(origin, path, last) == end_of(origin, front));
}

proof fn lemma_walk_extend<V>(g: Graph<V>, origin: V, path: Seq<(V, u32)>, step: (V, u32))
    requires
        is_walk(g, origin, path),
        leaves(g, end_of(origin, path), step),
    ensures
        is_walk(g, origin, path.push(step)),
        end_of(origin, path.push(step)) == step.0,
        cost_of(path.push(step)) == cost_of(path) + step.1,
{
    let longer = path.push(step);
    assert(longer.drop_last() =~= path);
    assert(longer.last() == step);
    assert(longer[longer.len() - 1] == step);
    assert forall|k: int| 0 <= k < longer.len() implies leaves(
        g,
        source(origin, longer, k),
        #[trigger] longer[k],
    ) by {
        if k < path.len() {
            assert(longer[k] == path[k]);
            if k > 0 {
                assert(longer[k - 1] == path[k - 1]);
            }
            assert(leaves(g, source(origin, path, k), path[k]));
        } else {
            if k > 0 {
                assert(longer[k - 1] == path[k - 1]);
            }
        }
    }
}

proof fn lemma_reaches_extend<V>(g: Graph<V>, origin: V, state: V, cost: nat, step: (V, u32))
    requires
        reaches(g, origin, state, cost),
        leaves(g, state, step),
    ensures
        reaches(g, origin, step.0, (cost + step.1) as nat),
{
    let path = choose|path: Seq<(V, u32)>| #[trigger]
        is_walk(g, origin, path) && end_of(origin, path) == state && cost_of(path) == cost;
    lemma_walk_extend(g, origin, path, step);
    assert(is_walk(g, origin, path.push(step)));
}

proof fn lemma_reaches_visits<V>(g: Graph<V>, origin: V, state: V, cost: nat)
    requires
        reaches(g, origin, state, cost),
    ensures
        visits(g, origin, state),
{
    let path = choose|path: Seq<(V, u32)>| #[trigger]
        is_walk(g, origin, path) && end_of(origin, path) == state && cost_of(path) == cost;
    assert(is_walk(g, origin, path) && end_of(origin, path) == state);
}

/// `entry` is where some transition of `edges` leads, at `base` plus its cost.
pub open spec fn born<V>(edges: Seq<(V, u32)>, base: nat, entry: (V, nat)) -> bool {
    exists|j: int|
        0 <= j < edges.len() && entry == ((#[trigger] edges[j]).0, (base + edges[j].1) as nat)
}

pub proof fn lemma_offspring<V: Value>(edges: Seq<(V, u32)>, done: Set<u32>, base: nat)
    ensures
        forall|m: int|
            0 <= m < offspring(edges, done, base).len() ==> born(
                edges,
                base,
                #[trigger] offspring(edges, done, base)[m],
            ),
        forall|j: int|
            0 <= j < edges.len() ==> done.contains((#[trigger] edges[j]).0.id_spec()) || offers(
                offspring(edges, done, base),
                edges[j].0.id_spec(),
                base + edges[j].1,
            ),
    decreases edges.len(),
{
    if edges.len() > 0 {
        let front = edges.drop_last();
        let before = offspring(front, done, base);
        let after = offspring(edges, done, base);
        let last = edges.len() - 1;
        lemma_offspring(front, done, base);
        assert forall|m: int| 0 <= m < after.len() implies born(edges, base, #[trigger] after[m]) by {
            if m < before.len() {
                assert(after[m] == before[m]);
                assert(born(front, base, before[m]));
                let j = choose|j: int|
                    0 <= j < front.len() && before[m] == ((#[trigger] front[j]).0, (base
                        + front[j].1) as nat);
                assert(edges[j] == front[j]);
            } else {
                assert(after[m] == (edges[last].0, (base + edges[last].1) as nat));
            }
        }
        assert forall|j: int| 0 <= j < edges.len() implies done.contains(
            (#[trigger] edges[j]).0.id_spec(),
        ) || offers(after, edges[j].0.id_spec(), base + edges[j].1) by {
            let id = edges[j].0.id_spec();
            if !done.contains(id) {
                if j < front.len() {
                    assert(front[j] == edges[j]);
                    let m = choose|m: int|
                        0 <= m < before.len() && (#[trigger] before[m]).0.id_spec() == id
                            && before[m].1 <= base + edges[j].1;
                    assert(after[m] == before[m]);
                } else {
                    assert(after[after.len() - 1] == (edges[last].0, (base + edges[last].1) as nat));
                }
            }
        }
    }
}

/// The frontier holds an entry that costs no more than `bound`.
pub open spec fn within<V>(frontier: Seq<(V, nat)>, bound: int) -> bool {
    exists|i: int| 0 <= i < frontier.len() && (#[trigger] frontier[i]).1 <= bound
}

/// A walk that ends at an identity that is not final crosses the frontier: an
/// entry of the frontier costs no more than the walk.
proof fn lemma_cut<V: Value>(g: Graph<V>, origin: V, s: Search<V>, path: Seq<(V, u32)>)
    requires
        respects_identity(g, origin),
        tight(g, origin, s),
        is_walk(g, origin, path),
        !s.settled.dom().contains(end_of(origin, path).id_spec()),
    ensures
        within(s.frontier, cost_of(path) as int),
    decreases path.len(),
{
    if path.len() == 0 {
        let i = choose|i: int|
            0 <= i < s.frontier.len() && (#[trigger] s.frontier[i]).0.id_spec() == origin.id_spec()
                && s.frontier[i].1 <= 0;
        assert(s.frontier[i].1 <= cost_of(path));
    } else {
        lemma_walk_prefix(g, origin, path);
        let front = path.drop_last();
        let from = end_of(origin, front);
        if !s.settled.dom().contains(from.id_spec()) {
            lemma_cut(g, origin, s, front);
            let i = choose|i: int|
                0 <= i < s.frontier.len() && (#[trigger] s.frontier[i]).1 <= cost_of(front);
            assert(s.frontier[i].1 <= cost_of(path));
        } else {
            let step = path.last();
            assert(visits(g, origin, from));
            let out = (g.edges)(from);
            let k = choose|k: int| 0 <= k < out.len() && #[trigger] out[k] == step;
            assert(end_of(origin, path) == step.0);
            assert(covered(
                s,
                ((g.edges)(from)[k]).0.id_spec(),
                s.settled[from.id_spec()] + (g.edges)(from)[k].1,
            ));
            assert(is_walk(g, origin, front));
            let bound = s.settled[from.id_spec()] + step.1;
            let i = choose|i: int|
                0 <= i < s.frontier.len() && (#[trigger] s.frontier[i]).0.id_spec()
                    == step.0.id_spec() && s.frontier[i].1 <= bound;
            assert(s.frontier[i].1 <= cost_of(path));
        }
    }
}

/// Dropping a stale entry keeps the invariant.
pub proof fn lemma_discard<V: Value>(g: Graph<V>, origin: V, s: Search<V>, i: int)
    requires
        inv(g, origin, s),
        0 <= i < s.frontier.len(),
        s.settled.dom().contains(s.frontier[i].0.id_spec()),
    ensures
        inv(g, origin, discard(s, i)),
{
    reveal(inv);
    let t = discard(s, i);
    assert forall|j: int| 0 <= j < t.frontier.len() implies reaches(
        g,
        origin,
        (#[trigger] t.frontier[j]).0,
        t.frontier[j].1,
    ) && at_most(t.settled, t.frontier[j].1) by {
        let old_j = if j < i { j } else { j + 1 };
        assert(t.frontier[j] == s.frontier[old_j]);
    }
    if respects_identity(g, origin) {
        lemma_covered_after_removal(g, origin, s, t, i, None);
        assert(lower(g, origin, t));
    }
}

/// What was covered before the entry at `i` left the frontier is covered
/// afterwards, once the identity of that entry is final.
proof fn lemma_covered_after_removal<V: Value>(
    g: Graph<V>,
    origin: V,
    s: Search<V>,
    t: Search<V>,
    i: int,
    skip: Option<u32>,
)
    requires
        0 <= i < s.frontier.len(),
        t.frontier == s.frontier.remove(i),
        t.settled.dom().contains(s.frontier[i].0.id_spec()),
        forall|id: u32| s.settled.dom().contains(id) ==> t.settled.dom().contains(id),
        forall|id: u32|
            t.settled.dom().contains(id) && skip != Some(id) ==> s.settled.dom().contains(id)
                && s.settled[id] == t.settled[id],
        closed_but(g, origin, s, None),
    ensures
        closed_but(g, origin, t, skip),
        forall|id: u32, bound: int| #[trigger] covered(s, id, bound) ==> covered(t, id, bound),
{
    assert forall|id: u32, bound: int| #[trigger] covered(s, id, bound) implies covered(
        t,
        id,
        bound,
    ) by {
        if !t.settled.dom().contains(id) {
            lemma_offers_after_remove(s.frontier, i, id, bound);
        }
    }
    assert forall|a: V, k: int|
        visits(g, origin, a) && t.settled.dom().contains(a.id_spec()) && skip != Some(a.id_spec())
            && !(g.goal)(a) && 0 <= k < (g.edges)(a).len() implies covered(
        t,
        (#[trigger] (g.edges)(a)[k]).0.id_spec(),
        t.settled[a.id_spec()] + (g.edges)(a)[k].1,
    ) by {
        assert(covered(
            s,
            ((g.edges)(a)[k]).0.id_spec(),
            s.settled[a.id_spec()] + (g.edges)(a)[k].1,
        ));
    }
}

/// No walk that ends at an identity that is not final is cheaper than `cost`.
pub open spec fn least<V: Value>(g: Graph<V>, origin: V, s: Search<V>, cost: nat) -> bool {
    forall|path: Seq<(V, u32)>| #[trigger]
        is_walk(g, origin, path) && !s.settled.dom().contains(end_of(origin, path).id_spec())
            ==> cost <= cost_of(path)
}

/// The cheapest entry of the frontier is no dearer than any walk that ends at
/// an identity that is not final.
proof fn lemma_lowest_is_least<V: Value>(g: Graph<V>, origin: V, s: Search<V>)
    requires
        respects_identity(g, origin),
        tight(g, origin, s),
        s.frontier.len() > 0,
    ensures
        least(g, origin, s, s.frontier[lowest(s.frontier)].1),
{
    lemma_lowest(s.frontier);
    let cost = s.frontier[lowest(s.frontier)].1;
    assert forall|path: Seq<(V, u32)>| #[trigger]
        is_walk(g, origin, path) && !s.settled.dom().contains(
            end_of(origin, path).id_spec(),
        ) implies cost <= cost_of(path) by {
        lemma_cut(g, origin, s, path);
        let i = choose|i: int|
            0 <= i < s.frontier.len() && (#[trigger] s.frontier[i]).1 <= cost_of(path);
        assert(cost <= s.frontier[i].1);
    }
}

/// Taking up the cheapest entry keeps the invariant, but for the transitions
/// out of the identity that has just become final.
proof fn lemma_settle<V: Value>(g: Graph<V>, origin: V, s: Search<V>)
    requires
        inv(g, origin, s),
        s.frontier.len() > 0,
        !s.settled.dom().contains(s.frontier[lowest(s.frontier)].0.id_spec()),
    ensures
        sound(g, origin, settle(s, lowest(s.frontier))),
        at_most(s.settled, s.frontier[lowest(s.frontier)].1),
        respects_identity(g, origin) ==> {
            &&& lower(g, origin, settle(s, lowest(s.frontier)))
            &&& closed_but(
                g,
                origin,
                settle(s, lowest(s.frontier)),
                Some(s.frontier[lowest(s.frontier)].0.id_spec()),
            )
            &&& covered(settle(s, lowest(s.frontier)), origin.id_spec(), 0)
            &&& least(g, origin, s, s.frontier[lowest(s.frontier)].1)
        },
{
    reveal(inv);
    lemma_lowest(s.frontier);
    let i = lowest(s.frontier);
    let (state, cost) = s.frontier[i];
    let id = state.id_spec();
    let t = settle(s, i);
    assert(t.settled.dom() =~= s.settled.dom().insert(id));
    assert(at_most(s.settled, s.frontier[i].1));
    assert forall|j: int| 0 <= j < t.frontier.len() implies reaches(
        g,
        origin,
        (#[trigger] t.frontier[j]).0,
        t.frontier[j].1,
    ) && at_most(t.settled, t.frontier[j].1) by {
        let old_j = if j < i { j } else { j + 1 };
        assert(t.frontier[j] == s.frontier[old_j]);
        assert(at_most(s.settled, s.frontier[old_j].1));
        assert(cost <= s.frontier[old_j].1);
    }
    if respects_identity(g, origin) {
        lemma_lowest_is_least(g, origin, s);
        lemma_covered_after_removal(g, origin, s, t, i, Some(id));
        assert(covered(s, origin.id_spec(), 0));
        assert forall|path: Seq<(V, u32)>| #[trigger]
            is_walk(g, origin, path) && t.settled.dom().contains(
                end_of(origin, path).id_spec(),
            ) implies t.settled[end_of(origin, path).id_spec()] <= cost_of(path) by {
            if end_of(origin, path).id_spec() != id {
                assert(s.settled.dom().contains(end_of(origin, path).id_spec()));
            }
        }
    }
}

/// Taking up a goal keeps the invariant.
pub proof fn lemma_settle_goal<V: Value>(g: Graph<V>, origin: V, s: Search<V>)
    requires
        inv(g, origin, s),
        s.frontier.len() > 0,
        !s.settled.dom().contains(s.frontier[lowest(s.frontier)].0.id_spec()),
        (g.goal)(s.frontier[lowest(s.frontier)].0),
    ensures
        inv(g, origin, settle(s, lowest(s.frontier))),
{
    reveal(inv);
    lemma_settle(g, origin, s);
    let state = s.frontier[lowest(s.frontier)].0;
    let t = settle(s, lowest(s.frontier));
    if respects_identity(g, origin) {
        assert(visits(g, origin, state)) by {
            lemma_lowest(s.frontier);
            let at = lowest(s.frontier);
            assert(reaches(g, origin, s.frontier[at].0, s.frontier[at].1));
            lemma_reaches_visits(g, origin, state, s.frontier[at].1);
        }
        assert forall|a: V, k: int|
            visits(g, origin, a) && t.settled.dom().contains(a.id_spec()) && !(g.goal)(a) && 0 <= k
                < (g.edges)(a).len() implies covered(
            t,
            (#[trigger] (g.edges)(a)[k]).0.id_spec(),
            t.settled[a.id_spec()] + (g.edges)(a)[k].1,
        ) by {
            if a.id_spec() == state.id_spec() {
                assert(alike(g, a, state));
            }
        }
    }
}

/// Taking up and expanding a state that is no goal keeps the invariant.
pub proof fn lemma_expand<V: Value>(g: Graph<V>, origin: V, s: Search<V>)
    requires
        inv(g, origin, s),
        s.frontier.len() > 0,
        !s.settled.dom().contains(s.frontier[lowest(s.frontier)].0.id_spec()),
        !(g.goal)(s.frontier[lowest(s.frontier)].0),
    ensures
        inv(g, origin, expand(g, s, lowest(s.frontier))),
{
    reveal(inv);
    lemma_settle(g, origin, s);
    lemma_lowest(s.frontier);
    let i = lowest(s.frontier);
    let (state, cost) = s.frontier[i];
    let id = state.id_spec();
    let t = settle(s, i);
    let u = expand(g, s, i);
    let out = (g.edges)(state);
    let more = offspring(out, t.settled.dom(), cost);
    lemma_offspring(out, t.settled.dom(), cost);
    assert(u.frontier == t.frontier + more);
    assert forall|j: int| 0 <= j < u.frontier.len() implies reaches(
        g,
        origin,
        (#[trigger] u.frontier[j]).0,
        u.frontier[j].1,
    ) && at_most(u.settled, u.frontier[j].1) by {
        if j < t.frontier.len() {
            assert(u.frontier[j] == t.frontier[j]);
        } else {
            let m = j - t.frontier.len();
            assert(u.frontier[j] == more[m]);
            assert(born(out, cost, more[m]));
            let k = choose|k: int|
                0 <= k < out.len() && more[m] == ((#[trigger] out[k]).0, (cost + out[k].1) as nat);
            assert(out.contains(out[k]));
            assert(leaves(g, state, out[k]));
            assert(reaches(g, origin, state, cost));
            lemma_reaches_extend(g, origin, state, cost, out[k]);
            assert(at_most(u.settled, u.frontier[j].1)) by {
                assert forall|x: u32| u.settled.dom().contains(x) implies #[trigger] u.settled[x]
                    <= u.frontier[j].1 by {
                    if x != id {
                        assert(s.settled.dom().contains(x));
                    }
                }
            }
        }
    }
    assert(u.expanded.no_duplicates()) by {
        assert forall|a: int, b: int|
            0 <= a < u.expanded.len() && 0 <= b < u.expanded.len() && a != b implies u.expanded[a]
            != u.expanded[b] by {
            if a < s.expanded.len() {
                assert(s.settled.dom().contains(s.expanded[a]));
            }
            if b < s.expanded.len() {
                assert(s.settled.dom().contains(s.expanded[b]));
            }
        }
    }
    assert forall|j: int| 0 <= j < u.expanded.len() implies u.settled.dom().contains(
        #[trigger] u.expanded[j],
    ) by {
        if j < s.expanded.len() {
            assert(s.settled.dom().contains(s.expanded[j]));
        }
    }
    if respects_identity(g, origin) {
        assert(lower(g, origin, u));
        assert(covered(u, origin.id_spec(), 0)) by {
            if !u.settled.dom().contains(origin.id_spec()) {
                lemma_offers_after_append(t.frontier, more, origin.id_spec(), 0);
            }
        }
        assert(visits(g, origin, state)) by {
            assert(reaches(g, origin, s.frontier[i].0, s.frontier[i].1));
            lemma_reaches_visits(g, origin, state, cost);
        }
        assert forall|a: V, k: int|
            visits(g, origin, a) && u.settled.dom().contains(a.id_spec()) && !(g.goal)(a) && 0 <= k
                < (g.edges)(a).len() implies covered(
            u,
            (#[trigger] (g.edges)(a)[k]).0.id_spec(),
            u.settled[a.id_spec()] + (g.edges)(a)[k].1,
        ) by {
            let to = ((g.edges)(a)[k]).0.id_spec();
            let bound = u.settled[a.id_spec()] + (g.edges)(a)[k].1;
            if !u.settled.dom().contains(to) {
                if a.id_spec() == id {
                    assert(alike(g, a, state));
                    assert(has_edge(g, state, to, (g.edges)(a)[k].1));
                    let j = choose|j: int|
                        0 <= j < out.len() && (#[trigger] out[j]).0.id_spec() == to && out[j].1 == (
                        g.edges)(a)[k].1;
                    assert(offers(more, out[j].0.id_spec(), cost + out[j].1));
                    lemma_offers_after_append(t.frontier, more, to, bound);
                } else {
                    assert(covered(t, to, bound));
                    lemma_offers_after_append(t.frontier, more, to, bound);
                }
            }
        }
    }
}

/// `t` holds all that was final in `s`, at the same costs, and the expansions
/// of `s` in their order before any of its own.
pub open spec fn grows<V>(s: Search<V>, t: Search<V>) -> bool {
    &&& forall|id: u32| #[trigger]
        s.settled.dom().contains(id) ==> t.settled.dom().contains(id) && t.settled[id]
            == s.settled[id]
    &&& s.expanded.is_prefix_of(t.expanded)
}

/// No walk to a goal whose identity is not final in `s` is cheaper than `cost`.
pub open spec fn cheapest_goal<V: Value>(g: Graph<V>, origin: V, s: Search<V>, cost: nat) -> bool {
    forall|path: Seq<(V, u32)>| #[trigger]
        is_walk(g, origin, path) && (g.goal)(end_of(origin, path)) && !s.settled.dom().contains(
            end_of(origin, path).id_spec(),
        ) ==> cost <= cost_of(path)
}

/// Every goal that a walk ends at has its identity final in `s`.
pub open spec fn no_goal_left<V: Value>(g: Graph<V>, origin: V, s: Search<V>) -> bool {
    forall|path: Seq<(V, u32)>| #[trigger]
        is_walk(g, origin, path) && (g.goal)(end_of(origin, path)) ==> s.settled.dom().contains(
            end_of(origin, path).id_spec(),
        )
}

/// What a request on the search `s` that gave `r` and left the search `t`
/// has done.
///
/// A result is a goal whose identity was not final before and is final now, at
/// the cost given; a walk from the origin ends at it and costs just that; and
/// nothing final is dearer. Over a graph that respects identity no walk to a
/// goal that was not final before is cheaper. Without a result the frontier is
/// empty, and over such a graph every goal that can be reached was given
/// before.
pub open spec fn follows<V: Value>(
    g: Graph<V>,
    origin: V,
    s: Search<V>,
    r: Option<(V, nat)>,
    t: Search<V>,
) -> bool {
    &&& inv(g, origin, t)
    &&& grows(s, t)
    &&& match r {
        Some((state, cost)) => {
            &&& (g.goal)(state)
            &&& reaches(g, origin, state, cost)
            &&& !s.settled.dom().contains(state.id_spec())
            &&& t.settled.dom().contains(state.id_spec())
            &&& t.settled[state.id_spec()] == cost
            &&& at_most(s.settled, cost)
            &&& respects_identity(g, origin) ==> cheapest_goal(g, origin, s, cost)
        },
        None => {
            &&& t.frontier.len() == 0
            &&& respects_identity(g, origin) ==> no_goal_left(g, origin, s)
        },
    }
}

/// A search that has only found its origin meets the invariant.
pub proof fn lemma_start<V: Value>(g: Graph<V>, origin: V)
    ensures
        inv(g, origin, start(origin)),
{
    reveal(inv);
    let s = start(origin);
    let nothing = Seq::<(V, u32)>::empty();
    assert(is_walk(g, origin, nothing));
    assert(reaches(g, origin, origin, 0));
    assert(s.frontier[0] == (origin, 0nat));
    assert(offers(s.frontier, origin.id_spec(), 0));
}

/// Optimality. A request on a search that meets the invariant leaves one that
/// meets it, and what it gives is as `follows` says: the cheapest goal that
/// was not given before, at the cost of a cheapest walk to it.
pub proof fn law_next_is_cheapest<V: Value>(g: Graph<V>, origin: V, s: Search<V>)
    requires
        inv(g, origin, s),
    ensures
        follows(g, origin, s, advance(g, s).0, advance(g, s).1),
    decreases room(s.settled.dom()), s.frontier.len(),
{
    reveal(inv);
    let (r, t) = advance(g, s);
    if s.frontier.len() == 0 {
        if respects_identity(g, origin) {
            assert forall|path: Seq<(V, u32)>| #[trigger]
                is_walk(g, origin, path) && (g.goal)(
                    end_of(origin, path),
                ) implies s.settled.dom().contains(end_of(origin, path).id_spec()) by {
                if !s.settled.dom().contains(end_of(origin, path).id_spec()) {
                    lemma_cut(g, origin, s, path);
                }
            }
        }
    } else {
        lemma_lowest(s.frontier);
        let i = lowest(s.frontier);
        let (state, cost) = s.frontier[i];
        let id = state.id_spec();
        if s.settled.dom().contains(id) {
            lemma_discard(g, origin, s, i);
            law_next_is_cheapest(g, origin, discard(s, i));
        } else if (g.goal)(state) {
            lemma_settle(g, origin, s);
            lemma_settle_goal(g, origin, s);
        } else {
            let u = expand(g, s, i);
            lemma_expand(g, origin, s);
            assert(u.settled.dom() =~= s.settled.dom().insert(id));
            lemma_room_shrinks(s.settled.dom(), id);
            law_next_is_cheapest(g, origin, u);
            assert(follows(g, origin, u, r, t));
            assert(grows(s, t)) by {
                assert forall|x: u32| #[trigger] s.settled.dom().contains(x) implies t.settled.dom().contains(x)
                    && t.settled[x] == s.settled[x] by {
                    assert(u.settled.dom().contains(x));
                }
            }
            if respects_identity(g, origin) {
                assert forall|path: Seq<(V, u32)>| #[trigger]
                    is_walk(g, origin, path) && (g.goal)(end_of(origin, path)) implies end_of(
                    origin,
                    path,
                ).id_spec() != id by {
                    if end_of(origin, path).id_spec() == id {
                        assert(reaches(g, origin, s.frontier[i].0, s.frontier[i].1));
                        lemma_reaches_visits(g, origin, state, cost);
                        assert(visits(g, origin, end_of(origin, path)));
                        assert(alike(g, end_of(origin, path), state));
                    }
                }
            }
            match r {
                Some((found, price)) => {
                    assert(at_most(s.settled, price)) by {
                        assert forall|x: u32| s.settled.dom().contains(x) implies #[trigger] s.settled[x] <= price by {
                            assert(u.settled.dom().contains(x));
                            assert(u.settled[x] == s.settled[x]);
                        }
                    }
                },
                None => {},
            }
        }
    }
}

/// The search after `n` requests.
pub open spec fn after<V: Value>(g: Graph<V>, s: Search<V>, n: nat) -> Search<V>
    decreases n,
{
    if n == 0 {
        s
    } else {
        advance(g, after(g, s, (n - 1) as nat)).1
    }
}

/// What request number `n` gives, the first being number 0.
pub open spec fn given<V: Value>(g: Graph<V>, s: Search<V>, n: nat) -> Option<(V, nat)> {
    advance(g, after(g, s, n)).0
}

/// The cost of a result; 0 where there is none.
pub open spec fn price<V>(r: Option<(V, nat)>) -> nat {
    match r {
        Some((_, cost)) => cost,
        None => 0,
    }
}

/// Requests keep the invariant, and what is final stays final.
pub proof fn lemma_after<V: Value>(g: Graph<V>, origin: V, s: Search<V>, i: nat, j: nat)
    requires
        inv(g, origin, s),
        i <= j,
    ensures
        inv(g, origin, after(g, s, j)),
        grows(after(g, s, i), after(g, s, j)),
    decreases j,
{
    if j == 0 {
    } else if i == j {
        lemma_after(g, origin, s, 0, (j - 1) as nat);
        law_next_is_cheapest(g, origin, after(g, s, (j - 1) as nat));
    } else {
        let before = after(g, s, (j - 1) as nat);
        lemma_after(g, origin, s, i, (j - 1) as nat);
        law_next_is_cheapest(g, origin, before);
        assert(grows(before, after(g, s, j)));
        assert(grows(after(g, s, i), after(g, s, j))) by {
            let a = after(g, s, i);
            let c = after(g, s, j);
            assert forall|id: u32| #[trigger] a.settled.dom().contains(id) implies c.settled.dom().contains(id)
                && c.settled[id] == a.settled[id] by {
                assert(before.settled.dom().contains(id));
            }
        }
    }
}

/// Monotonicity. Of two results of one search the later costs no less.
pub proof fn law_costs_never_fall<V: Value>(g: Graph<V>, origin: V, s: Search<V>, i: nat, j: nat)
    requires
        inv(g, origin, s),
        i <= j,
        given(g, s, i) is Some,
        given(g, s, j) is Some,
    ensures
        price(given(g, s, i)) <= price(given(g, s, j)),
{
    if i < j {
        lemma_after(g, origin, s, 0, i);
        law_next_is_cheapest(g, origin, after(g, s, i));
        lemma_after(g, origin, s, i + 1, j);
        law_next_is_cheapest(g, origin, after(g, s, j));
        let (state, cost) = given(g, s, i)->0;
        let next = after(g, s, i + 1);
        assert(next.settled.dom().contains(state.id_spec()));
        assert(after(g, s, j).settled[state.id_spec()] == cost);
    }
}

/// No-revisit. However many requests a search has served, it has expanded no
/// identity twice, and none that is not final.
pub proof fn law_expands_once<V: Value>(g: Graph<V>, origin: V, s: Search<V>, n: nat)
    requires
        inv(g, origin, s),
    ensures
        after(g, s, n).expanded.no_duplicates(),
        forall|k: int|
            0 <= k < after(g, s, n).expanded.len() ==> after(g, s, n).settled.dom().contains(
                #[trigger] after(g, s, n).expanded[k],
            ),
{
    reveal(inv);
    lemma_after(g, origin, s, 0, n);
}

/// Exhaustion stability. Once a request gave nothing, no later one gives
/// anything, and the search stays as that request left it.
pub proof fn law_exhaustion_is_final<V: Value>(
    g: Graph<V>,
    origin: V,
    s: Search<V>,
    i: nat,
    j: nat,
)
    requires
        inv(g, origin, s),
        i <= j,
        given(g, s, i) is None,
    ensures
        given(g, s, j) is None,
        after(g, s, j + 1) == after(g, s, i + 1),
    decreases j,
{
    if i < j {
        law_exhaustion_is_final(g, origin, s, i, (j - 1) as nat);
        lemma_after(g, origin, s, 0, i);
        law_next_is_cheapest(g, origin, after(g, s, i));
        assert(after(g, s, j).frontier.len() == 0);
    }
}

/// A walk stays at home: where `home` holds of the origin and, with a state
/// that is no goal, of all that its transitions lead to, it holds of the end
/// of every walk.
pub proof fn lemma_walk_stays<V>(
    g: Graph<V>,
    origin: V,
    path: Seq<(V, u32)>,
    home: spec_fn(V) -> bool,
)
    requires
        home(origin),
        forall|a: V, k: int|
            home(a) && !(g.goal)(a) && 0 <= k < (g.edges)(a).len() ==> home(
                (#[trigger] (g.edges)(a)[k]).0,
            ),
        is_walk(g, origin, path),
    ensures
        home(end_of(origin, path)),
    decreases path.len(),
{
    if path.len() > 0 {
        lemma_walk_prefix(g, origin, path);
        let front = path.drop_last();
        lemma_walk_stays(g, origin, front, home);
        let from = end_of(origin, front);
        let out = (g.edges)(from);
        let k = choose|k: int| 0 <= k < out.len() && #[trigger] out[k] == path.last();
        assert(home(((g.edges)(from)[k]).0));
    }
}

} // verus!
