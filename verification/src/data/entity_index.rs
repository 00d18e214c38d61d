//! The index from entity slot to archetype, kept in a `vec_map::VecMap`.
//!
//! What this file states of `VecMap` is read off that crate's source and is
//! taken on trust: nothing here proves it.

use vec_map::VecMap;
use vstd::prelude::*;

verus! {

/// `vec_map::VecMap`, a map from small integers to values that is stored as
/// a vector indexed by key.
#[verifier::external_type_specification]
#[verifier::external_body]
#[verifier::reject_recursive_types(V)]
pub struct ExVecMap<V>(vec_map::VecMap<V>);

/// The entries of an entity index: for each slot that holds a live entity,
/// the number of the archetype that stores it.
pub uninterp spec fn index_entries(index: VecMap<usize>) -> Map<usize, usize>;

/// An index without entries.
pub open spec fn no_entries() -> Map<usize, usize> {
    Map::empty()
}

/// The largest number of slots an index is asked to hold. An insertion at
/// key `k` makes the vector behind the map at least `k + 1` entries long;
/// below this bound that length, doubled and counted in bytes, stays within
/// the largest allocation that a vector may ask for.
pub const MAX_ENTITY_SLOTS: usize = usize::MAX / 64;

/// `VecMap::new`: a map without entries.
#[verifier::external_body]
pub(crate) fn index_new() -> (r: VecMap<usize>)
    ensures
        index_entries(r) == no_entries(),
{
    VecMap::new()
}

/// `VecMap::get`: the value stored for `key`, if there is one.
#[verifier::external_body]
pub(crate) fn index_get(index: &VecMap<usize>, key: usize) -> (r: Option<usize>)
    ensures
        r == if index_entries(*index).dom().contains(key) {
            Some(index_entries(*index)[key])
        } else {
            None
        },
{
    index.get(key).copied()
}

/// `VecMap::insert`: stores `value` for `key` and returns the value that was
/// stored for it before, if any. The vector behind the map grows to hold
/// position `key`, so `key` is kept below `MAX_ENTITY_SLOTS`.
#[verifier::external_body]
pub(crate) fn index_insert(index: &mut VecMap<usize>, key: usize, value: usize) -> (r: Option<
    usize,
>)
    requires
        key < MAX_ENTITY_SLOTS,
    ensures
        index_entries(*final(index)) == index_entries(*old(index)).insert(key, value),
        r == if index_entries(*old(index)).dom().contains(key) {
            Some(index_entries(*old(index))[key])
        } else {
            None
        },
{
    index.insert(key, value)
}

/// `VecMap::remove`: takes out the entry of `key` and returns its value, if
/// there was one.
#[verifier::external_body]
pub(crate) fn index_remove(index: &mut VecMap<usize>, key: usize) -> (r: Option<usize>)
    ensures
        index_entries(*final(index)) == index_entries(*old(index)).remove(key),
        r == if index_entries(*old(index)).dom().contains(key) {
            Some(index_entries(*old(index))[key])
        } else {
            None
        },
{
    index.remove(key)
}

} // verus!
