//! The ordered set of the `indexmap` crate, with what this library takes for
//! granted of it.

use indexmap::IndexSet;
use vstd::prelude::*;
use vstd::seq_lib::seq_to_set_is_finite;
use vstd::set_lib::{lemma_len_subset, FiniteRange};

verus! {

/// The ordered set of the `indexmap` crate.
#[verifier::external_type_specification]
#[verifier::external_body]
#[verifier::reject_recursive_types(T)]
#[verifier::reject_recursive_types(S)]
pub struct ExIndexSet<T, S>(IndexSet<T, S>);

/// What an ordered set holds, in the order in which it was put in.
pub uninterp spec fn members(set: IndexSet<usize>) -> Seq<usize>;

/// `IndexSet::new`: a set that holds nothing.
#[verifier::external_body]
pub(crate) fn ordered_new() -> (set: IndexSet<usize>)
    ensures
        members(set) == Seq::<usize>::empty(),
{
    IndexSet::new()
}

/// `IndexSet::insert`: a value that the set holds already leaves the set as it
/// is, and `false` comes back; any other value goes to the end of the order,
/// and `true` comes back.
#[verifier::external_body]
pub(crate) fn ordered_insert(set: &mut IndexSet<usize>, value: usize) -> (added: bool)
    ensures
        added == !members(*old(set)).contains(value),
        added ==> members(*final(set)) == members(*old(set)).push(value),
        !added ==> members(*final(set)) == members(*old(set)),
{
    set.insert(value)
}

/// `IndexSet::contains`: whether the set holds the value.
#[verifier::external_body]
pub(crate) fn ordered_contains(set: &IndexSet<usize>, value: usize) -> (found: bool)
    ensures
        found == members(*set).contains(value),
{
    set.contains(&value)
}

/// `IndexSet::pop`: the value that was put in last leaves the set and comes
/// back, the order of the others stays; nothing comes back from an empty set.
#[verifier::external_body]
pub(crate) fn ordered_pop(set: &mut IndexSet<usize>) -> (last: Option<usize>)
    ensures
        members(*old(set)).len() == 0 ==> last is None && members(*final(set)) == members(
            *old(set),
        ),
        members(*old(set)).len() > 0 ==> last == Some(members(*old(set)).last()) && members(
            *final(set),
        ) == members(*old(set)).drop_last(),
{
    set.pop()
}

/// `IndexSet::len`: how many values the set holds.
#[verifier::external_body]
pub(crate) fn ordered_len(set: &IndexSet<usize>) -> (len: usize)
    ensures
        len == members(*set).len(),
{
    set.len()
}

/// `IndexSet::first`: the value that was put in first; nothing from an empty
/// set.
#[verifier::external_body]
pub(crate) fn ordered_first(set: &IndexSet<usize>) -> (first: Option<usize>)
    ensures
        members(*set).len() == 0 ==> first is None,
        members(*set).len() > 0 ==> first == Some(members(*set)[0]),
{
    set.first().copied()
}

/// `IndexSet::last`: the value that was put in last; nothing from an empty
/// set.
#[verifier::external_body]
pub(crate) fn ordered_last(set: &IndexSet<usize>) -> (last: Option<usize>)
    ensures
        members(*set).len() == 0 ==> last is None,
        members(*set).len() > 0 ==> last == Some(members(*set).last()),
{
    set.last().copied()
}

/// `IndexSet::clone`: a set that holds the same values in the same order.
#[verifier::external_body]
pub(crate) fn ordered_clone(set: &IndexSet<usize>) -> (copy: IndexSet<usize>)
    ensures
        members(copy) == members(*set),
{
    set.clone()
}

/// A sequence of different numbers below `n` holds no more than `n` of them.
pub proof fn lemma_room(held: Seq<usize>, n: nat)
    requires
        held.no_duplicates(),
        forall|k: int| 0 <= k < held.len() ==> (#[trigger] held[k]) < n,
        n <= usize::MAX,
    ensures
        held.len() <= n,
{
    let all = Set::<usize>::range(0usize, n as usize);
    <usize as FiniteRange>::range_properties(0usize, n as usize);
    held.unique_seq_to_set();
    seq_to_set_is_finite(held);
    assert(held.to_set().subset_of(all)) by {
        assert forall|x: usize| held.to_set().contains(x) implies all.contains(x) by {
            let k = choose|k: int| 0 <= k < held.len() && held[k] == x;
            assert(held[k] < n);
        }
    }
    lemma_len_subset(held.to_set(), all);
}

} // verus!
