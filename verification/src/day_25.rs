//! Cutting a wiring diagram in two where the fewest wires cross.

use crate::ordered::{
    lemma_room, members, ordered_contains, ordered_insert, ordered_new, ordered_pop,
};
use crate::text::{intern, lemma_seek, rows_of, seek};
use indexmap::IndexSet;
use vstd::prelude::*;
use vstd::slice::*;
use vstd::string::*;

verus! {

/// The most components that a diagram can hold.
pub const MAX_NODES: usize = 0xFFFF;

/// The sum of the weights.
pub open spec fn mass(weights: Seq<usize>) -> nat
    decreases weights.len(),
{
    if weights.len() == 0 {
        0
    } else {
        mass(weights.drop_last()) + weights.last() as nat
    }
}

/// How many of the weights are not 0.
pub open spec fn count(weights: Seq<usize>) -> nat
    decreases weights.len(),
{
    if weights.len() == 0 {
        0
    } else {
        count(weights.drop_last()) + if weights.last() != 0 {
            1nat
        } else {
            0nat
        }
    }
}

proof fn lemma_mass_update(weights: Seq<usize>, at: int, weight: usize)
    requires
        0 <= at < weights.len(),
    ensures
        mass(weights.update(at, weight)) == mass(weights) - weights[at] + weight,
        weights[at] <= mass(weights),
        count(weights.update(at, weight)) == count(weights) - (if weights[at] != 0 {
            1int
        } else {
            0int
        }) + (if weight != 0 {
            1int
        } else {
            0int
        }),
        count(weights) <= weights.len(),
    decreases weights.len(),
{
    let last = weights.len() - 1;
    if at == last {
        assert(weights.update(at, weight).drop_last() =~= weights.drop_last());
        if last > 0 {
            lemma_mass_update(weights.drop_last(), 0, weights[0]);
        }
    } else {
        lemma_mass_update(weights.drop_last(), at, weight);
        assert(weights.update(at, weight).drop_last() =~= weights.drop_last().update(at, weight));
    }
}

proof fn lemma_mass_two(weights: Seq<usize>, a: int, b: int)
    requires
        0 <= a < weights.len(),
        0 <= b < weights.len(),
        a != b,
    ensures
        weights[a] + weights[b] <= mass(weights),
{
    lemma_mass_update(weights, a, 0);
    lemma_mass_update(weights.update(a, 0), b, 0);
}

proof fn lemma_cell(a: int, b: int, n: int)
    requires
        0 <= a < n,
        0 <= b < n,
    ensures
        0 <= a * n + b < n * n,
{
    assert(a * n + b < n * n) by (nonlinear_arith)
        requires
            0 <= a < n,
            0 <= b < n,
    {
        assert(a * n <= (n - 1) * n);
    }
    assert(0 <= a * n) by (nonlinear_arith)
        requires
            0 <= a,
            0 <= n,
    ;
}

proof fn lemma_cells_differ(a: int, b: int, c: int, d: int, n: int)
    requires
        0 <= a < n,
        0 <= b < n,
        0 <= c < n,
        0 <= d < n,
    ensures
        a != c || b != d ==> a * n + b != c * n + d,
{
    if a < c {
        assert(a * n + n <= c * n) by (nonlinear_arith)
            requires
                a + 1 <= c,
                0 <= n,
        ;
    } else if c < a {
        assert(c * n + n <= a * n) by (nonlinear_arith)
            requires
                c + 1 <= a,
                0 <= n,
        ;
    }
}

/// A wiring diagram: components, each with a weight, and wires between them,
/// each with a weight. A component of weight 0 has been merged into another
/// and is no part of the diagram any more.
pub struct Contraption {
    nodes: Vec<usize>,
    edges: Vec<u64>,
}

/// A byte that ends a name.
pub open spec fn is_break(byte: u8) -> bool {
    byte == 0x20 || byte == 0x3a || byte == 0x0a
}

impl Contraption {
    /// The weight of each component.
    pub closed spec fn weights(&self) -> Seq<usize> {
        self.nodes@
    }

    /// The weight of the wires between two components.
    pub closed spec fn link(&self, a: int, b: int) -> nat {
        self.edges@[a * self.nodes@.len() + b] as nat
    }

    /// The diagram is in order: it is small enough, and between two
    /// components run no more wires than pairs of the parts they were merged
    /// from.
    pub closed spec fn wf(&self) -> bool {
        &&& self.nodes@.len() <= MAX_NODES
        &&& self.edges@.len() == self.nodes@.len() * self.nodes@.len()
        &&& mass(self.nodes@) <= MAX_NODES
        &&& forall|a: int, b: int|
            0 <= a < self.nodes@.len() && 0 <= b < self.nodes@.len() ==> #[trigger] self.link(a, b)
                <= self.nodes@[a] * self.nodes@[b]
    }

    /// The weight of the wires between `a` and `b`.
    fn wire(&self, a: usize, b: usize) -> (weight: u64)
        requires
            self.wf(),
            a < self.weights().len(),
            b < self.weights().len(),
        ensures
            weight == self.link(a as int, b as int),
            weight <= self.weights()[a as int] * self.weights()[b as int],
            weight <= 0xFFFE_0001,
    {
        let n = self.nodes.len();
        proof {
            lemma_cell(a as int, b as int, n as int);
            assert(self.link(a as int, b as int) <= self.nodes@[a as int] * self.nodes@[b as int]);
            lemma_mass_update(self.nodes@, a as int, 0);
            lemma_mass_update(self.nodes@, b as int, 0);
            assert(self.nodes@[a as int] * self.nodes@[b as int] <= 0xFFFF * 0xFFFF)
                by (nonlinear_arith)
                requires
                    self.nodes@[a as int] <= 0xFFFF,
                    self.nodes@[b as int] <= 0xFFFF,
            ;
            assert(n * n <= 0xFFFF * 0xFFFF) by (nonlinear_arith)
                requires
                    n <= 0xFFFF,
            ;
        }
        self.edges[a * n + b]
    }

    /// How many components the diagram has.
    pub fn len(&self) -> (n: usize)
        requires
            self.wf(),
        ensures
            n == count(self.weights()),
    {
        let mut n: usize = 0;
        let mut i: usize = 0;
        while i < self.nodes.len()
            invariant
                i <= self.nodes.len(),
                n == count(self.nodes@.take(i as int)),
                n <= i,
            decreases self.nodes.len() - i,
        {
            proof {
                assert(self.nodes@.take(i + 1).drop_last() =~= self.nodes@.take(i as int));
            }
            if self.nodes[i] != 0 {
                n = n + 1;
            }
            i = i + 1;
        }
        proof {
            assert(self.nodes@.take(i as int) =~= self.nodes@);
        }
        n
    }

    /// The weight of all components together.
    fn total(&self) -> (sum: usize)
        requires
            self.wf(),
        ensures
            sum == mass(self.weights()),
    {
        let mut sum: usize = 0;
        let mut i: usize = 0;
        while i < self.nodes.len()
            invariant
                i <= self.nodes.len(),
                sum == mass(self.nodes@.take(i as int)),
                mass(self.nodes@) <= MAX_NODES,
            decreases self.nodes.len() - i,
        {
            proof {
                assert(self.nodes@.take(i + 1).drop_last() =~= self.nodes@.take(i as int));
                lemma_mass_prefix(self.nodes@, i + 1);
            }
            sum = sum + self.nodes[i];
            i = i + 1;
        }
        proof {
            assert(self.nodes@.take(i as int) =~= self.nodes@);
        }
        sum
    }

    /// The weight of the wires between `node` and those of the first `upto`
    /// components that `held` holds.
    pub closed spec fn pull(&self, node: int, held: Seq<usize>, upto: int) -> nat
        decreases upto,
    {
        if upto <= 0 {
            0
        } else {
            self.pull(node, held, upto - 1) + if held.contains((upto - 1) as usize) {
                self.link(node, upto - 1)
            } else {
                0
            }
        }
    }

    /// The weight of the wires between `node` and the components in `subset`.
    fn pull_of(&self, node: usize, subset: &IndexSet<usize>) -> (weight: u64)
        requires
            self.wf(),
            node < self.weights().len(),
        ensures
            weight == self.pull(node as int, members(*subset), self.weights().len() as int),
    {
        let n = self.nodes.len();
        let mut weight: u64 = 0;
        let mut other: usize = 0;
        while other < n
            invariant
                self.wf(),
                n == self.nodes.len(),
                node < n,
                other <= n,
                weight == self.pull(node as int, members(*subset), other as int),
                n <= MAX_NODES,
                weight <= other * 0xFFFE_0001,
            decreases n - other,
        {
            if ordered_contains(subset, other) {
                let wire = self.wire(node, other);
                weight = weight + wire;
            }
            other = other + 1;
        }
        weight
    }

    /// The component outside `subset` that the heaviest wires tie to it, the
    /// first of them where several are tied as heavily; `None` where no wire
    /// leaves `subset`.
    fn most_connected(&self, subset: &IndexSet<usize>) -> (r: Option<usize>)
        requires
            self.wf(),
        ensures
            match r {
                Some(node) => self.next_after(members(*subset), node as int),
                None => self.shut(members(*subset)),
            },
    {
        let n = self.nodes.len();
        let mut max_weight: u64 = 0;
        let mut max_node: Option<usize> = None;
        let mut node: usize = 0;
        let ghost held = members(*subset);
        while node < n
            invariant
                self.wf(),
                n == self.nodes.len(),
                node <= n,
                held == members(*subset),
                max_node is None ==> max_weight == 0,
                max_node matches Some(best) ==> best < node && self.outside(best as int, held)
                    && max_weight == self.pull(best as int, held, n as int) && max_weight > 0,
                forall|other: int|
                    0 <= other < node && #[trigger] self.outside(other, held) ==> {
                        &&& self.pull(other, held, n as int) <= max_weight
                        &&& max_node is Some && other < max_node->0 ==> self.pull(
                            other,
                            held,
                            n as int,
                        ) < max_weight
                    },
            decreases n - node,
        {
            if self.nodes[node] != 0 && !ordered_contains(subset, node) {
                let weight = self.pull_of(node, subset);
                if weight > max_weight {
                    max_weight = weight;
                    max_node = Some(node);
                }
            }
            node = node + 1;
        }
        max_node
    }

    /// What the wires between `a` and `b` weigh once `second` has been merged
    /// into `first` as far as the components before `upto` go: the wires of
    /// `second` have gone over to `first`.
    pub closed spec fn merged(&self, first: int, second: int, upto: int, a: int, b: int) -> nat {
        if (a == second && b < upto) || (b == second && a < upto) {
            0
        } else if a == first && b < upto && b != first && b != second {
            self.link(first, b) + self.link(second, b)
        } else if b == first && a < upto && a != first && a != second {
            self.link(first, a) + self.link(second, a)
        } else {
            self.link(a, b)
        }
    }

    /// Merges the component `second` into `first`: the wires of `second` go
    /// over to `first`, its weight is added to that of `first`, and it leaves
    /// the diagram.
    fn merge(&mut self, first: usize, second: usize)
        requires
            old(self).wf(),
            first < old(self).weights().len(),
            second < old(self).weights().len(),
            first != second,
        ensures
            final(self).wf(),
            final(self).weights() == old(self).weights().update(
                first as int,
                (old(self).weights()[first as int] + old(self).weights()[second as int]) as usize,
            ).update(second as int, 0),
            forall|a: int, b: int|
                0 <= a < old(self).weights().len() && 0 <= b < old(self).weights().len()
                    ==> #[trigger] final(self).link(a, b) == old(self).merged(
                    first as int,
                    second as int,
                    old(self).weights().len() as int,
                    a,
                    b,
                ),
    {
        let n = self.nodes.len();
        let ghost before = *self;
        let ghost f = first as int;
        let ghost s = second as int;
        let mut k: usize = 0;
        proof {
            assert(n * n <= 0xFFFF * 0xFFFF) by (nonlinear_arith)
                requires
                    n <= 0xFFFF,
            ;
        }
        while k < n
            invariant
                before.wf(),
                before == *old(self),
                n == before.nodes@.len(),
                first < n,
                second < n,
                first != second,
                f == first,
                s == second,
                k <= n,
                n * n <= 0xFFFF * 0xFFFF,
                self.nodes@ == before.nodes@,
                self.edges@.len() == n * n,
                forall|a: int, b: int|
                    0 <= a < n && 0 <= b < n ==> #[trigger] self.link(a, b) == before.merged(
                        f,
                        s,
                        k as int,
                        a,
                        b,
                    ),
            decreases n - k,
        {
            let ghost edges = self.edges;
            let ghost then = *self;
            proof {
                lemma_cell(f, k as int, n as int);
                lemma_cell(s, k as int, n as int);
                lemma_cell(k as int, f, n as int);
                lemma_cell(k as int, s, n as int);
                assert(self.link(f, k as int) == before.merged(f, s, k as int, f, k as int));
                assert(self.link(s, k as int) == before.merged(f, s, k as int, s, k as int));
            }
            if k != first && k != second {
                proof {
                    assert(before.link(f, k as int) <= before.nodes@[f] * before.nodes@[k as int]);
                    assert(before.link(s, k as int) <= before.nodes@[s] * before.nodes@[k as int]);
                    lemma_mass_update(before.nodes@, f, 0);
                    lemma_mass_update(before.nodes@, s, 0);
                    lemma_mass_update(before.nodes@, k as int, 0);
                    lemma_product(before.nodes@[f] as int, before.nodes@[k as int] as int);
                    lemma_product(before.nodes@[s] as int, before.nodes@[k as int] as int);
                }
                let both = self.edges[first * n + k] + self.edges[second * n + k];
                self.edges.set(first * n + k, both);
                self.edges.set(k * n + first, both);
            }
            self.edges.set(k * n + second, 0);
            self.edges.set(second * n + k, 0);
            proof {
                assert forall|a: int, b: int| 0 <= a < n && 0 <= b < n implies #[trigger] self.link(
                    a,
                    b,
                ) == before.merged(f, s, k + 1, a, b) by {
                    lemma_cell(a, b, n as int);
                    lemma_cells_differ(a, b, f, k as int, n as int);
                    lemma_cells_differ(a, b, k as int, f, n as int);
                    lemma_cells_differ(a, b, k as int, s, n as int);
                    lemma_cells_differ(a, b, s, k as int, n as int);
                    assert(then.link(a, b) == before.merged(f, s, k as int, a, b));
                }
            }
            k = k + 1;
        }
        proof {
            lemma_mass_two(self.nodes@, f, s);
        }
        let ghost mid = *self;
        let weight = self.nodes[first] + self.nodes[second];
        self.nodes.set(first, weight);
        self.nodes.set(second, 0);
        proof {
            assert forall|a: int, b: int| 0 <= a < n && 0 <= b < n implies #[trigger] self.link(
                a,
                b,
            ) == before.merged(f, s, n as int, a, b) by {
                assert(self.link(a, b) == mid.link(a, b));
            }
            let w0 = before.nodes@;
            let w1 = w0.update(f, weight);
            lemma_mass_update(w0, f, weight);
            lemma_mass_update(w1, s, 0);
            assert forall|a: int, b: int| 0 <= a < n && 0 <= b < n implies #[trigger] self.link(
                a,
                b,
            ) <= self.nodes@[a] * self.nodes@[b] by {
                assert(self.link(a, b) == mid.link(a, b));
                assert(self.link(a, b) == before.merged(f, s, n as int, a, b));
                assert(before.link(a, b) <= w0[a] * w0[b]);
                assert(before.link(f, b) <= w0[f] * w0[b]);
                assert(before.link(s, b) <= w0[s] * w0[b]);
                assert(before.link(f, a) <= w0[f] * w0[a]);
                assert(before.link(s, a) <= w0[s] * w0[a]);
                lemma_merged_product(
                    w0[f] as int,
                    w0[s] as int,
                    w0[a] as int,
                    w0[b] as int,
                );
            }
        }
    }

    /// The component with the highest number, if the diagram has any.
    fn last_node(&self) -> (r: Option<usize>)
        requires
            self.wf(),
        ensures
            match r {
                Some(node) => self.is_last(node as int),
                None => count(self.weights()) == 0,
            },
    {
        let mut i: usize = self.nodes.len();
        proof {
            assert(self.nodes@.take(i as int) =~= self.nodes@);
        }
        while i > 0
            invariant
                i <= self.nodes.len(),
                count(self.nodes@) == count(self.nodes@.take(i as int)),
                forall|k: int| i <= k < self.nodes.len() ==> #[trigger] self.nodes@[k] == 0,
            decreases i,
        {
            i = i - 1;
            if self.nodes[i] != 0 {
                return Some(i);
            }
            proof {
                assert(self.nodes@.take(i + 1).drop_last() =~= self.nodes@.take(i as int));
            }
        }
        proof {
            assert(self.nodes@.take(0).len() == 0);
        }
        None
    }

    /// The weight of all the wires of `node`.
    fn wires_of(&self, node: usize) -> (weight: u64)
        requires
            self.wf(),
            node < self.weights().len(),
        ensures
            weight == self.wired(node as int, self.weights().len() as int),
            weight <= self.weights().len() * 0xFFFE_0001,
    {
        let n = self.nodes.len();
        let mut weight: u64 = 0;
        let mut other: usize = 0;
        while other < n
            invariant
                self.wf(),
                n == self.nodes.len(),
                n <= MAX_NODES,
                node < n,
                other <= n,
                weight == self.wired(node as int, other as int),
                weight <= other * 0xFFFE_0001,
            decreases n - other,
        {
            let wire = self.wire(node, other);
            weight = weight + wire;
            other = other + 1;
        }
        weight
    }

    /// The weight of the wires between `node` and the first `upto`
    /// components.
    pub closed spec fn wired(&self, node: int, upto: int) -> nat
        decreases upto,
    {
        if upto <= 0 {
            0
        } else {
            self.wired(node, upto - 1) + self.link(node, upto - 1)
        }
    }

    /// One phase of the search for the lightest cut. Starting from the last
    /// component, the component that is tied most heavily to those taken so
    /// far is taken next, until no wire leaves them. The last one taken is cut
    /// off: the result is the weight of its wires, the weight of all other
    /// components, its own weight, and `true`; it is then merged into the one
    /// taken before it. Where no wire leaves the first component, that one is
    /// cut off, nothing is merged, and `false` comes back in the last place.
    fn minimum_cut_phase(&mut self) -> (r: (u64, usize, usize, bool))
        requires
            old(self).wf(),
            count(old(self).weights()) >= 2,
        ensures
            final(self).wf(),
            final(self).weights().len() == old(self).weights().len(),
            mass(final(self).weights()) == mass(old(self).weights()),
            r.0 < u64::MAX,
            r.1 + r.2 == mass(old(self).weights()),
            r.1 >= 1,
            r.2 >= 1,
            r.3 ==> count(final(self).weights()) == count(old(self).weights()) - 1,
            !r.3 ==> *final(self) == *old(self),
            exists|order: Seq<usize>| #[trigger] old(self).phase(order, r, *final(self)),
    {
        let n = self.nodes.len();
        let start = match self.last_node() {
            Some(node) => node,
            None => 0,
        };
        let mut subset = ordered_new();
        ordered_insert(&mut subset, start);
        proof {
            assert(members(subset) =~= seq![start]);
        }
        loop
            invariant_except_break
                self.began(members(subset)),
            invariant
                self.wf(),
                *self == *old(self),
                n == self.nodes.len(),
                members(subset).len() >= 1,
                members(subset).no_duplicates(),
                forall|k: int|
                    0 <= k < members(subset).len() ==> (#[trigger] members(subset)[k]) < n
                        && self.nodes@[members(subset)[k] as int] != 0,
            ensures
                self.taken(members(subset)),
            decreases n - members(subset).len(),
        {
            proof {
                lemma_room(members(subset), n as nat);
            }
            match self.most_connected(&subset) {
                Some(next) => {
                    let ghost held = members(subset);
                    ordered_insert(&mut subset, next);
                    proof {
                        assert(self.outside(next as int, held));
                        lemma_room(members(subset), n as nat);
                        let longer = members(subset);
                        assert(longer.take(held.len() as int) =~= held);
                        assert forall|k: int| 1 <= k < longer.len() implies self.next_after(
                            longer.take(k),
                            #[trigger] longer[k] as int,
                        ) by {
                            if k < held.len() {
                                assert(longer.take(k) =~= held.take(k));
                                assert(longer[k] == held[k]);
                            }
                        }
                    }
                },
                None => {
                    break ;
                },
            }
        }
        let ghost held = members(subset);
        let total = self.total();
        let second = match ordered_pop(&mut subset) {
            Some(node) => node,
            None => 0,
        };
        proof {
            assert(second == held.last());
            assert(second == held[held.len() - 1]);
            lemma_mass_update(self.nodes@, second as int, 0);
        }
        let right = self.nodes[second];
        let cut_weight = self.wires_of(second);
        match ordered_pop(&mut subset) {
            Some(first) => {
                proof {
                    assert(first == held.drop_last().last());
                    assert(first == held[held.len() - 2]);
                    lemma_mass_two(self.nodes@, first as int, second as int);
                    let w0 = self.nodes@;
                    let joined = (w0[first as int] + w0[second as int]) as usize;
                    lemma_mass_update(w0, first as int, joined);
                    lemma_mass_update(w0.update(first as int, joined), second as int, 0);
                }
                self.merge(first, second);
                proof {
                    assert(old(self).phase(held, (cut_weight, (total - right) as usize, right, true), *self));
                }
                (cut_weight, total - right, right, true)
            },
            None => {
                proof {
                    assert(held.len() == 1);
                    lemma_two_nodes(self.nodes@, second as int);
                    assert(old(self).phase(held, (0u64, (total - right) as usize, right, false), *self));
                }
                (0, total - right, right, false)
            },
        }
    }

    /// Cuts the diagram in two. Phase by phase one component is cut off and
    /// then merged into another, until one is left or a phase finds one that
    /// no wire ties to the rest. The result is the weight of the two sides of
    /// the lightest cut that a phase made, the first of them where several
    /// are as light: the side that stayed, then the side that was cut off. A
    /// diagram of fewer than two components gives `(0, 0)`.
    pub fn split(&mut self) -> (r: (usize, usize))
        requires
            old(self).wf(),
        ensures
            final(self).wf(),
            mass(final(self).weights()) == mass(old(self).weights()),
            count(old(self).weights()) >= 2 ==> r.0 + r.1 == mass(old(self).weights()) && r.0 >= 1
                && r.1 >= 1,
            count(old(self).weights()) < 2 ==> r == (0usize, 0usize),
            old(self).split_from((u64::MAX, 0, 0), r),
    {
        let mut min_cut_weight = u64::MAX;
        let mut left_size: usize = 0;
        let mut right_size: usize = 0;
        let mut remaining = self.len();
        while remaining > 1
            invariant_except_break
                forall|r: (usize, usize)| #[trigger]
                    self.split_from((min_cut_weight, left_size, right_size), r) ==> old(
                        self,
                    ).split_from((u64::MAX, 0, 0), r),
                remaining <= 1 ==> old(self).split_from((u64::MAX, 0, 0), (left_size, right_size)),
            invariant
                self.wf(),
                remaining == count(self.weights()),
                mass(self.weights()) == mass(old(self).weights()),
                min_cut_weight == u64::MAX ==> remaining == count(old(self).weights()) && left_size
                    == 0 && right_size == 0,
                min_cut_weight < u64::MAX ==> count(old(self).weights()) >= 2 && left_size
                    + right_size == mass(old(self).weights()) && left_size >= 1 && right_size >= 1,
            ensures
                min_cut_weight == u64::MAX ==> count(old(self).weights()) < 2,
                old(self).split_from((u64::MAX, 0, 0), (left_size, right_size)),
            decreases remaining,
        {
            let ghost before = *self;
            let ghost best = (min_cut_weight, left_size, right_size);
            let (cut_weight, left, right, merged) = self.minimum_cut_phase();
            if cut_weight < min_cut_weight {
                min_cut_weight = cut_weight;
                left_size = left;
                right_size = right;
            }
            proof {
                let cut = (cut_weight, left, right, merged);
                let order = choose|order: Seq<usize>| #[trigger] before.phase(order, cut, *self);
                assert(before.phase(order, cut, *self));
                if merged {
                    assert forall|r: (usize, usize)| #[trigger]
                        self.split_from(
                            (min_cut_weight, left_size, right_size),
                            r,
                        ) implies old(self).split_from((u64::MAX, 0, 0), r) by {
                        assert(before.split_from(best, r));
                    }
                } else {
                    assert(before.split_from(best, (left_size, right_size)));
                }
            }
            if !merged {
                break ;
            }
            remaining = remaining - 1;
            proof {
                if remaining <= 1 {
                    assert(self.split_from(
                        (min_cut_weight, left_size, right_size),
                        (left_size, right_size),
                    ));
                }
            }
        }
        (left_size, right_size)
    }

    /// `node` is the component with the highest number.
    pub closed spec fn is_last(&self, node: int) -> bool {
        &&& 0 <= node < self.nodes@.len()
        &&& self.nodes@[node] != 0
        &&& forall|k: int| node < k < self.nodes@.len() ==> #[trigger] self.nodes@[k] == 0
    }

    /// `node` is the component that is taken after those in `held`: it is
    /// none of them, wires tie it to them, no other is tied to them more
    /// heavily, and none with a lower number as heavily.
    pub closed spec fn next_after(&self, held: Seq<usize>, node: int) -> bool {
        &&& self.outside(node, held)
        &&& self.pull(node, held, self.nodes@.len() as int) > 0
        &&& forall|other: int| #[trigger]
            self.outside(other, held) ==> {
                &&& self.pull(other, held, self.nodes@.len() as int) <= self.pull(
                    node,
                    held,
                    self.nodes@.len() as int,
                )
                &&& other < node ==> self.pull(other, held, self.nodes@.len() as int) < self.pull(
                    node,
                    held,
                    self.nodes@.len() as int,
                )
            }
    }

    /// No wire ties a component that `held` does not hold to those that it
    /// holds.
    pub closed spec fn shut(&self, held: Seq<usize>) -> bool {
        forall|other: int| #[trigger]
            self.outside(other, held) ==> self.pull(other, held, self.nodes@.len() as int) == 0
    }

    /// `order` begins as a phase takes the components: first the one with
    /// the highest number, then each time the one that comes `next_after`
    /// those taken so far.
    pub closed spec fn began(&self, order: Seq<usize>) -> bool {
        &&& order.len() >= 1
        &&& self.is_last(order[0] as int)
        &&& forall|k: int|
            1 <= k < order.len() ==> self.next_after(order.take(k), #[trigger] order[k] as int)
    }

    /// `order` is the order in which a phase takes the components, until no
    /// wire leaves those taken.
    pub closed spec fn taken(&self, order: Seq<usize>) -> bool {
        self.began(order) && self.shut(order)
    }

    /// `after` is the diagram when `second` has been merged into `first`.
    pub closed spec fn merged_into(&self, first: int, second: int, after: Contraption) -> bool {
        &&& after.nodes@ == self.nodes@.update(
            first,
            (self.nodes@[first] + self.nodes@[second]) as usize,
        ).update(second, 0)
        &&& forall|a: int, b: int|
            0 <= a < self.nodes@.len() && 0 <= b < self.nodes@.len() ==> #[trigger] after.link(a, b)
                == self.merged(first, second, self.nodes@.len() as int, a, b)
    }

    /// A phase that takes the components in `order` gives `cut` and leaves
    /// `after`. The last one taken is cut off: `cut` holds the weight of its
    /// wires, the weight of all other components, its own weight, and `true`,
    /// and in `after` it is merged into the one taken before it. Where only
    /// one was taken, the weight of the wires is 0, `false` stands in the last
    /// place, and `after` is the diagram as it was.
    pub closed spec fn phase(
        &self,
        order: Seq<usize>,
        cut: (u64, usize, usize, bool),
        after: Contraption,
    ) -> bool {
        &&& self.taken(order)
        &&& cut.2 == self.nodes@[order.last() as int]
        &&& cut.1 == mass(self.nodes@) - cut.2
        &&& if order.len() == 1 {
            cut.0 == 0 && !cut.3 && after == *self
        } else {
            cut.0 == self.wired(order.last() as int, self.nodes@.len() as int) && cut.3
                && self.merged_into(order[order.len() - 2] as int, order.last() as int, after)
                && count(after.nodes@) < count(self.nodes@)
        }
    }

    /// `r` is what `split` gives from this diagram on, `best` being the
    /// lightest cut of the phases before, with the weight of its wires and of
    /// its two sides: phase by phase, a cut that is lighter takes its place,
    /// until fewer than two components are left or a phase has merged
    /// nothing; then `r` holds the two sides of the lightest.
    pub closed spec fn split_from(&self, best: (u64, usize, usize), r: (usize, usize)) -> bool
        decreases count(self.weights()),
    {
        if count(self.nodes@) < 2 {
            r == (best.1, best.2)
        } else {
            exists|order: Seq<usize>, cut: (u64, usize, usize, bool), after: Contraption|
                #![trigger self.phase(order, cut, after)]
                self.phase(order, cut, after) && if cut.3 {
                    count(after.nodes@) < count(self.nodes@) && after.split_from(
                        if cut.0 < best.0 {
                            (cut.0, cut.1, cut.2)
                        } else {
                            best
                        },
                        r,
                    )
                } else {
                    r == if cut.0 < best.0 {
                        (cut.1, cut.2)
                    } else {
                        (best.1, best.2)
                    }
                }
        }
    }

    /// No component has been merged yet: each weighs 1, and between two of
    /// them runs one wire or none.
    pub closed spec fn fresh(&self) -> bool {
        &&& forall|a: int| 0 <= a < self.nodes@.len() ==> #[trigger] self.nodes@[a] == 1
        &&& forall|a: int, b: int|
            0 <= a < self.nodes@.len() && 0 <= b < self.nodes@.len() ==> #[trigger] self.link(a, b)
                <= 1
    }

    /// Reads a diagram. Each line names a component and, after a colon, the
    /// components that it is wired to, with blanks between them; a name is a
    /// run of bytes without blank, colon or line feed. The components are
    /// numbered in the order in which their names first come. A component is
    /// wired to another once, however often the text says so, and never to
    /// itself.
    pub fn from(value: &str) -> (r: Self)
        requires
            value.spec_bytes().len() <= MAX_NODES,
        ensures
            r.wf(),
            r.fresh(),
            r.weights().len() <= value.spec_bytes().len(),
            count(r.weights()) == r.weights().len(),
            mass(r.weights()) == r.weights().len(),
            r.weights().len() == sketch_of(value.spec_bytes()).names.len(),
            forall|a: int, b: int|
                0 <= a < r.weights().len() && 0 <= b < r.weights().len() ==> #[trigger] r.link(a, b)
                    == if tied(
                    sketch_of(value.spec_bytes()).wires,
                    sketch_of(value.spec_bytes()).wires.len() as int,
                    a,
                    b,
                ) {
                    1nat
                } else {
                    0nat
                },
    {
        let bytes = value.as_bytes();
        let mut names: Vec<Vec<u8>> = Vec::new();
        let mut wires: Vec<(usize, usize)> = Vec::new();
        let mut head: Option<usize> = None;
        let mut i: usize = 0;
        proof {
            assert(rows_of(names@) =~= Seq::<Seq<u8>>::empty());
        }
        while i < bytes.len()
            invariant
                i <= bytes.len(),
                names.len() <= i,
                head matches Some(node) ==> node < names.len(),
                forall|k: int|
                    0 <= k < wires.len() ==> (#[trigger] wires[k]).0 < names.len() && wires[k].1
                        < names.len(),
                sketched(bytes@, i as int, Sketch { names: rows_of(names@), head, wires: wires@ })
                    == sketch_of(bytes@),
            decreases bytes.len() - i,
        {
            let byte = bytes[i];
            if byte == 0x0a {
                head = None;
                i = i + 1;
            } else if byte == 0x20 || byte == 0x3a {
                i = i + 1;
            } else {
                let (name, end) = read_name(bytes, i);
                let ghost word = name@;
                let ghost known = rows_of(names@);
                let ghost before = Sketch { names: known, head, wires: wires@ };
                let node = intern(&mut names, name);
                proof {
                    let rest = bytes@.skip(i as int);
                    assert forall|k: int| 0 <= k < end - i implies !is_break(#[trigger] rest[k]) by {
                        assert(rest[k] == bytes@[i + k]);
                    }
                    if end - i < rest.len() {
                        assert(rest[end - i] == bytes@[end as int]);
                    }
                    lemma_name_len(rest, end - i);
                    let at: int = if node < known.len() {
                        node as int
                    } else {
                        known.len() as int
                    };
                    assert forall|k: int| 0 <= k < at implies #[trigger] known[k] != word by {
                        assert(names@[k]@ != word);
                    }
                    if at < known.len() {
                        assert(known[at] == names@[at]@);
                    }
                    lemma_seek(known, word, at);
                    if node < known.len() {
                        assert(rows_of(names@) =~= known);
                    } else {
                        assert(rows_of(names@) =~= known.push(word));
                    }
                    assert(word == bytes@.subrange(i as int, end as int));
                }
                match head {
                    None => {
                        head = Some(node);
                    },
                    Some(first) => {
                        wires.push((first, node));
                    },
                }
                proof {
                    assert((Sketch { names: rows_of(names@), head, wires: wires@ }) == named(
                        before,
                        word,
                    ));
                }
                i = end;
            }
        }
        let ghost sketch = sketch_of(bytes@);
        let n = names.len();
        let mut nodes: Vec<usize> = Vec::new();
        let mut edges: Vec<u64> = Vec::new();
        proof {
            assert(n * n <= 0xFFFF * 0xFFFF) by (nonlinear_arith)
                requires
                    n <= 0xFFFF,
            ;
        }
        while nodes.len() < n
            invariant
                nodes.len() <= n,
                forall|a: int| 0 <= a < nodes.len() ==> #[trigger] nodes[a] == 1,
                mass(nodes@) == nodes.len(),
                count(nodes@) == nodes.len(),
            decreases n - nodes.len(),
        {
            proof {
                assert(nodes@.push(1usize).drop_last() =~= nodes@);
            }
            nodes.push(1);
        }
        while edges.len() < n * n
            invariant
                n * n <= 0xFFFF * 0xFFFF,
                edges.len() <= n * n,
                forall|c: int| 0 <= c < edges.len() ==> #[trigger] edges[c] == 0,
            decreases n * n - edges.len(),
        {
            edges.push(0);
        }
        let mut k: usize = 0;
        proof {
            assert forall|a: int, b: int| 0 <= a < n && 0 <= b < n implies #[trigger] edges[a * n
                + b] == 0 by {
                lemma_cell(a, b, n as int);
            }
        }
        while k < wires.len()
            invariant
                k <= wires.len(),
                n <= MAX_NODES,
                edges.len() == n * n,
                forall|k: int|
                    0 <= k < wires.len() ==> (#[trigger] wires[k]).0 < n && wires[k].1 < n,
                forall|a: int, b: int|
                    0 <= a < n && 0 <= b < n ==> #[trigger] edges[a * n + b] == if tied(
                        wires@,
                        k as int,
                        a,
                        b,
                    ) {
                        1u64
                    } else {
                        0u64
                    },
            decreases wires.len() - k,
        {
            let (a, b) = wires[k];
            let ghost before = edges@;
            if a != b {
                proof {
                    lemma_cell(a as int, b as int, n as int);
                    lemma_cell(b as int, a as int, n as int);
                }
                edges.set(a * n + b, 1);
                edges.set(b * n + a, 1);
            }
            proof {
                assert forall|c: int, d: int| 0 <= c < n && 0 <= d < n implies #[trigger] edges[c * n
                    + d] == if tied(wires@, k + 1, c, d) {
                    1u64
                } else {
                    0u64
                } by {
                    lemma_cell(c, d, n as int);
                    lemma_cells_differ(c, d, a as int, b as int, n as int);
                    lemma_cells_differ(c, d, b as int, a as int, n as int);
                    assert(before[c * n + d] == if tied(wires@, k as int, c, d) {
                        1u64
                    } else {
                        0u64
                    });
                    lemma_tied(wires@, k as int, c, d);
                }
            }
            k = k + 1;
        }
        let r = Contraption { nodes, edges };
        proof {
            assert forall|a: int, b: int| 0 <= a < n && 0 <= b < n implies #[trigger] r.link(a, b)
                <= 1 && r.link(a, b) <= r.nodes@[a] * r.nodes@[b] && r.link(a, b) == if tied(
                sketch.wires,
                sketch.wires.len() as int,
                a,
                b,
            ) {
                1nat
            } else {
                0nat
            } by {
                lemma_cell(a, b, n as int);
                assert(r.nodes@[a] == 1);
                assert(r.nodes@[b] == 1);
                assert(r.edges@[a * n + b] == if tied(wires@, wires@.len() as int, a, b) {
                    1u64
                } else {
                    0u64
                });
            }
        }
        r
    }

    /// `node` is a component of the diagram that `held` does not hold.
    pub closed spec fn outside(&self, node: int, held: Seq<usize>) -> bool {
        &&& 0 <= node < self.nodes@.len()
        &&& self.nodes@[node] != 0
        &&& !held.contains(node as usize)
    }
}

/// How many bytes stand at the start of the text before the first that
/// ends a name.
pub open spec fn name_len(text: Seq<u8>) -> nat
    decreases text.len(),
{
    if text.len() == 0 || is_break(text[0]) {
        0
    } else {
        1 + name_len(text.skip(1))
    }
}

/// Where no byte up to a place ends a name and the byte at it does, a name
/// of that length stands at the start.
proof fn lemma_name_len(text: Seq<u8>, length: int)
    requires
        0 <= length <= text.len(),
        forall|k: int| 0 <= k < length ==> !is_break(#[trigger] text[k]),
        length < text.len() ==> is_break(text[length]),
    ensures
        name_len(text) == length,
    decreases length,
{
    if length > 0 {
        let rest = text.skip(1);
        assert(!is_break(text[0]));
        assert forall|k: int| 0 <= k < length - 1 implies !is_break(#[trigger] rest[k]) by {
            assert(rest[k] == text[k + 1]);
        }
        if length - 1 < rest.len() {
            assert(rest[length - 1] == text[length]);
        }
        lemma_name_len(rest, length - 1);
    }
}

/// What has been read of a diagram: the names of its components in the
/// order in which they first came, the component that the line at hand
/// began with, and the wires, each from the component that began a line to
/// one named later in that line.
pub ghost struct Sketch {
    pub names: Seq<Seq<u8>>,
    pub head: Option<usize>,
    pub wires: Seq<(usize, usize)>,
}

/// What has been read when a name has come: the name is kept where it is
/// new; the first name of a line begins the line, and each later one is
/// wired to the one that began it.
pub open spec fn named(sketch: Sketch, name: Seq<u8>) -> Sketch {
    let node = seek(sketch.names, name);
    let names = if node < sketch.names.len() {
        sketch.names
    } else {
        sketch.names.push(name)
    };
    match sketch.head {
        None => Sketch { names, head: Some(node as usize), wires: sketch.wires },
        Some(first) => Sketch {
            names,
            head: sketch.head,
            wires: sketch.wires.push((first, node as usize)),
        },
    }
}

/// What has been read when the text from `at` on has been read too. A line
/// feed ends the line, blanks and colons are passed over, and a name
/// reaches to the next of these.
pub open spec fn sketched(text: Seq<u8>, at: int, sketch: Sketch) -> Sketch
    decreases text.len() - at,
{
    if at < 0 || at >= text.len() {
        sketch
    } else if text[at] == 0x0a {
        sketched(text, at + 1, Sketch { head: None, ..sketch })
    } else if is_break(text[at]) {
        sketched(text, at + 1, sketch)
    } else {
        let end = at + name_len(text.skip(at));
        if at < end <= text.len() {
            sketched(text, end, named(sketch, text.subrange(at, end)))
        } else {
            sketch
        }
    }
}

/// What the text holds of a diagram.
pub open spec fn sketch_of(text: Seq<u8>) -> Sketch {
    sketched(text, 0, Sketch { names: Seq::empty(), head: None, wires: Seq::empty() })
}

/// One of the first `upto` wires runs between `a` and `b`, which are two
/// components.
pub open spec fn tied(wires: Seq<(usize, usize)>, upto: int, a: int, b: int) -> bool {
    a != b && exists|k: int|
        0 <= k < upto && ((#[trigger] wires[k]) == (a as usize, b as usize) || wires[k] == (
            b as usize,
            a as usize,
        ))
}

/// Two components are tied by one wire more where they were tied before or
/// the wire runs between them.
proof fn lemma_tied(wires: Seq<(usize, usize)>, upto: int, a: int, b: int)
    requires
        0 <= upto < wires.len(),
    ensures
        tied(wires, upto + 1, a, b) <==> tied(wires, upto, a, b) || (a != b && (wires[upto] == (
            a as usize,
            b as usize,
        ) || wires[upto] == (b as usize, a as usize))),
{
    if tied(wires, upto + 1, a, b) {
        let k = choose|k: int|
            0 <= k < upto + 1 && ((#[trigger] wires[k]) == (a as usize, b as usize) || wires[k] == (
                b as usize,
                a as usize,
            ));
        if k < upto {
            assert(tied(wires, upto, a, b));
        }
    }
    if tied(wires, upto, a, b) {
        let k = choose|k: int|
            0 <= k < upto && ((#[trigger] wires[k]) == (a as usize, b as usize) || wires[k] == (
                b as usize,
                a as usize,
            ));
        assert(0 <= k < upto + 1);
    }
    if a != b && (wires[upto] == (a as usize, b as usize) || wires[upto] == (
        b as usize,
        a as usize,
    )) {
        assert(0 <= upto < upto + 1);
    }
}

proof fn lemma_mass_prefix(weights: Seq<usize>, upto: int)
    requires
        0 <= upto <= weights.len(),
    ensures
        mass(weights.take(upto)) <= mass(weights),
    decreases weights.len(),
{
    if upto == weights.len() {
        assert(weights.take(upto) =~= weights);
    } else {
        lemma_mass_prefix(weights.drop_last(), upto);
        assert(weights.drop_last().take(upto) =~= weights.take(upto));
    }
}

proof fn lemma_product(a: int, b: int)
    requires
        0 <= a <= 0xFFFF,
        0 <= b <= 0xFFFF,
    ensures
        0 <= a * b <= 0xFFFE_0001,
{
    assert(0 <= a * b <= 0xFFFE_0001) by (nonlinear_arith)
        requires
            0 <= a <= 0xFFFF,
            0 <= b <= 0xFFFF,
    ;
}

proof fn lemma_merged_product(f: int, s: int, a: int, b: int)
    requires
        0 <= f,
        0 <= s,
        0 <= a,
        0 <= b,
    ensures
        f * b + s * b == (f + s) * b,
        f * a + s * a == (f + s) * a,
        f * a + s * a == a * (f + s),
        f * f <= (f + s) * (f + s),
        f * b <= (f + s) * b,
        a * f <= a * (f + s),
{
    assert(f * b + s * b == (f + s) * b) by (nonlinear_arith);
    assert(f * a + s * a == (f + s) * a) by (nonlinear_arith);
    assert(f * a + s * a == a * (f + s)) by (nonlinear_arith);
    assert(f * f <= (f + s) * (f + s)) by (nonlinear_arith)
        requires
            0 <= f,
            0 <= s,
    ;
    assert(f * b <= (f + s) * b) by (nonlinear_arith)
        requires
            0 <= s,
            0 <= b,
    ;
    assert(a * f <= a * (f + s)) by (nonlinear_arith)
        requires
            0 <= s,
            0 <= a,
    ;
}

/// Where two weights are not 0, each leaves weight to the other.
proof fn lemma_two_nodes(weights: Seq<usize>, at: int)
    requires
        0 <= at < weights.len(),
        count(weights) >= 2,
    ensures
        weights[at] < mass(weights),
    decreases weights.len(),
{
    let rest = weights.update(at, 0);
    lemma_mass_update(weights, at, 0);
    lemma_mass_positive(rest);
}

proof fn lemma_mass_positive(weights: Seq<usize>)
    requires
        count(weights) >= 1,
    ensures
        mass(weights) >= 1,
    decreases weights.len(),
{
    if weights.len() > 0 && weights.last() == 0 {
        lemma_mass_positive(weights.drop_last());
    }
}

/// The name that starts at `from`: the bytes up to the next blank, colon or
/// line feed, or to the end, and where it ends.
fn read_name(bytes: &[u8], from: usize) -> (r: (Vec<u8>, usize))
    requires
        from < bytes@.len(),
        !is_break(bytes@[from as int]),
    ensures
        from < r.1 <= bytes@.len(),
        r.0@ == bytes@.subrange(from as int, r.1 as int),
        forall|k: int| from <= k < r.1 ==> !is_break(#[trigger] bytes@[k]),
        r.1 < bytes@.len() ==> is_break(bytes@[r.1 as int]),
{
    let mut name: Vec<u8> = Vec::new();
    let mut end: usize = from;
    while end < bytes.len() && !(bytes[end] == 0x20 || bytes[end] == 0x3a || bytes[end] == 0x0a)
        invariant
            from <= end <= bytes@.len(),
            name@ == bytes@.subrange(from as int, end as int),
            forall|k: int| from <= k < end ==> !is_break(#[trigger] bytes@[k]),
        decreases bytes@.len() - end,
    {
        proof {
            assert(bytes@.subrange(from as int, end + 1) =~= bytes@.subrange(
                from as int,
                end as int,
            ).push(bytes@[end as int]));
        }
        name.push(bytes[end]);
        end = end + 1;
    }
    (name, end)
}

/// The product of the sizes of the two groups that `Contraption::split`
/// parts the diagram of the text into; 0 where it has fewer than two
/// components. `None` where the text is longer than `MAX_NODES` bytes.
pub fn solve_part1(input: &str) -> (r: Option<usize>)
    ensures
        match r {
            Some(product) => input.spec_bytes().len() <= MAX_NODES && exists|
                diagram: Contraption,
                left: usize,
                right: usize,
            |
                #![trigger diagram.split_from((u64::MAX, 0, 0), (left, right))]
                diagram.drawn(input.spec_bytes()) && diagram.split_from(
                    (u64::MAX, 0, 0),
                    (left, right),
                ) && product == left * right,
            None => input.spec_bytes().len() > MAX_NODES,
        },
{
    if input.as_bytes().len() > MAX_NODES {
        return None;
    }
    let mut contraption = Contraption::from(input);
    let ghost diagram = contraption;
    let (left, right) = contraption.split();
    proof {
        assert(left * right <= MAX_NODES * MAX_NODES) by (nonlinear_arith)
            requires
                0 <= left,
                0 <= right,
                left + right <= MAX_NODES,
        ;
        assert(diagram.drawn(input.spec_bytes()) && diagram.split_from(
            (u64::MAX, 0, 0),
            (left, right),
        ));
    }
    Some(left * right)
}

impl Contraption {
    /// The diagram is the one that the text holds: a component of weight 1
    /// for each name of the text, numbered as the names first come, and one
    /// wire between two components that a line of the text ties.
    pub closed spec fn drawn(&self, text: Seq<u8>) -> bool {
        &&& self.wf()
        &&& self.fresh()
        &&& self.nodes@.len() == sketch_of(text).names.len()
        &&& forall|a: int, b: int|
            0 <= a < self.nodes@.len() && 0 <= b < self.nodes@.len() ==> #[trigger] self.link(a, b)
                == if tied(sketch_of(text).wires, sketch_of(text).wires.len() as int, a, b) {
                1nat
            } else {
                0nat
            }
    }
}

} // verus!
