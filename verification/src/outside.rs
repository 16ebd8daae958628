//! The parts of the crates `indexmap` and `rayon`, and of the standard library,
//! that the verified code calls, with the contracts that it relies on.

use indexmap::{IndexMap, IndexSet};
use rustc_hash::FxBuildHasher;
use vstd::prelude::*;

verus! {

/// The hasher of the insertion-ordered collections.
#[verifier::external_type_specification]
#[verifier::external_body]
pub struct ExFxBuildHasher(FxBuildHasher);

/// `indexmap::IndexMap`: a hash map that keeps its entries in insertion order.
#[verifier::external_type_specification]
#[verifier::external_body]
#[verifier::reject_recursive_types(K)]
#[verifier::reject_recursive_types(V)]
#[verifier::reject_recursive_types(S)]
pub struct ExIndexMap<K, V, S>(IndexMap<K, V, S>);

/// `indexmap::IndexSet`: a hash set that keeps its items in insertion order.
#[verifier::external_type_specification]
#[verifier::external_body]
#[verifier::reject_recursive_types(T)]
#[verifier::reject_recursive_types(S)]
pub struct ExIndexSet<T, S>(IndexSet<T, S>);

/// Maps numbers of tasks to positions.
pub type PositionMap = IndexMap<u16, usize, FxBuildHasher>;

/// A set of numbers of tasks.
pub type NumberSet = IndexSet<u16, FxBuildHasher>;

/// The entries of a map, in the order in which the map walks them.
pub uninterp spec fn map_entries(map: IndexMap<u16, usize, FxBuildHasher>) -> Seq<(u16, usize)>;

/// The items of a set, in the order in which the set walks them.
pub uninterp spec fn set_items(set: IndexSet<u16, FxBuildHasher>) -> Seq<u16>;

/// `IndexMap::with_capacity_and_hasher` makes a map without entries. The
/// capacity is only a hint; it is bounded because a capacity beyond the address
/// space panics.
#[verifier::external_body]
pub(crate) fn map_with_capacity(capacity: usize) -> (map: PositionMap)
    requires
        capacity <= 0x1_0000,
    ensures
        map_entries(map) == Seq::<(u16, usize)>::empty(),
{
    IndexMap::with_capacity_and_hasher(capacity, FxBuildHasher)
}

/// `IndexMap::get` finds the value of the entry with the given key, and nothing
/// where no entry has that key.
#[verifier::external_body]
pub(crate) fn map_get(map: &PositionMap, key: u16) -> (found: Option<usize>)
    ensures
        match found {
            Some(value) => exists|i: int|
                0 <= i < map_entries(*map).len() && #[trigger] map_entries(*map)[i] == (key, value),
            None => forall|i: int|
                0 <= i < map_entries(*map).len() ==> (#[trigger] map_entries(*map)[i]).0 != key,
        },
{
    map.get(&key).copied()
}

/// `IndexMap::insert` appends an entry for a key that has none yet. For a key
/// that has an entry it replaces the value, leaves the entry in its place, and
/// hands back the value that was there.
#[verifier::external_body]
pub(crate) fn map_insert(map: &mut PositionMap, key: u16, value: usize) -> (previous: Option<usize>)
    ensures
        (forall|i: int|
            0 <= i < map_entries(*old(map)).len() ==> (#[trigger] map_entries(*old(map))[i]).0
                != key) ==> previous is None && map_entries(*final(map)) == map_entries(
            *old(map),
        ).push((key, value)),
        forall|i: int|
            0 <= i < map_entries(*old(map)).len() && (#[trigger] map_entries(*old(map))[i]).0 == key
                ==> previous == Some(map_entries(*old(map))[i].1) && map_entries(*final(map))
                == map_entries(*old(map)).update(i, (key, value)),
{
    map.insert(key, value)
}

/// `IndexMap::get_index` reads the entry at a place in the order, and nothing
/// where the index is not below the number of entries.
#[verifier::external_body]
pub(crate) fn map_get_index(map: &PositionMap, index: usize) -> (entry: Option<(u16, usize)>)
    ensures
        entry == (if index < map_entries(*map).len() {
            Some(map_entries(*map)[index as int])
        } else {
            None
        }),
{
    map.get_index(index).map(|entry| (*entry.0, *entry.1))
}

/// `IndexSet::default` makes a set without items.
#[verifier::external_body]
pub(crate) fn set_new() -> (set: NumberSet)
    ensures
        set_items(set) == Seq::<u16>::empty(),
{
    IndexSet::default()
}

/// `IndexSet::insert` appends an item that is not in the set and reports `true`;
/// an item that is in the set already leaves the set as it is, and the report is
/// `false`.
#[verifier::external_body]
pub(crate) fn set_insert(set: &mut NumberSet, item: u16) -> (inserted: bool)
    ensures
        inserted == !set_items(*old(set)).contains(item),
        set_items(*final(set)) == (if set_items(*old(set)).contains(item) {
            set_items(*old(set))
        } else {
            set_items(*old(set)).push(item)
        }),
{
    set.insert(item)
}

/// `IndexSet::len` counts the items.
#[verifier::external_body]
pub(crate) fn set_len(set: &NumberSet) -> (len: usize)
    ensures
        len == set_items(*set).len(),
{
    set.len()
}

/// `IndexSet::get_index` reads the item at a place in the order, and nothing
/// where the index is not below the number of items.
#[verifier::external_body]
pub(crate) fn set_get_index(set: &NumberSet, index: usize) -> (item: Option<u16>)
    ensures
        item == (if index < set_items(*set).len() {
            Some(set_items(*set)[index as int])
        } else {
            None
        }),
{
    set.get_index(index).copied()
}

/// `rayon::join` calls both closures, each of them once and possibly on
/// different threads, and returns when both have returned, with their results.
pub assume_specification<A, B, RA, RB>[ rayon::join::<A, B, RA, RB> ](
    oper_a: A,
    oper_b: B,
) -> (results: (RA, RB)) where
    A: FnOnce() -> RA + Send,
    B: FnOnce() -> RB + Send,
    RA: Send,
    RB: Send,
    requires
        oper_a.requires(()),
        oper_b.requires(()),
    ensures
        oper_a.ensures((), results.0),
        oper_b.ensures((), results.1),
;

/// `sort_unstable` of the standard library orders the elements from the smallest
/// to the largest and neither adds nor drops any.
#[verifier::external_body]
pub(crate) fn sort_indexes(indexes: &mut Vec<u16>)
    ensures
        final(indexes)@.to_multiset() == old(indexes)@.to_multiset(),
        forall|i: int, j: int|
            0 <= i <= j < final(indexes)@.len() ==> final(indexes)@[i] <= final(indexes)@[j],
{
    indexes.sort_unstable();
}

} // verus!
