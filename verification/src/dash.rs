//! The concurrent maps of `dashmap`, as far as this library uses them: maps
//! from a key to the place of its value in a vector.
//!
//! Every function here takes the map for itself while it changes it, and
//! leaves no reference into the map behind.

use dashmap::DashMap;
use vstd::prelude::*;

verus! {

/// `dashmap::DashMap`, opaque.
#[verifier::external_type_specification]
#[verifier::external_body]
#[verifier::reject_recursive_types(K)]
#[verifier::reject_recursive_types(V)]
#[verifier::reject_recursive_types(S)]
pub struct ExDashMap<K, V, S>(DashMap<K, V, S>);

/// What a map keyed by numbers holds.
pub uninterp spec fn id_slots(map: DashMap<u64, usize>) -> Map<u64, usize>;

/// What a map keyed by names holds.
pub uninterp spec fn name_slots(map: DashMap<String, usize>) -> Map<Seq<char>, usize>;

/// `DashMap::new`: the map is empty.
#[verifier::external_body]
pub(crate) fn new_id_slots() -> (r: DashMap<u64, usize>)
    ensures
        (id_slots(r) == Map::<u64, usize>::empty()),
{
    DashMap::new()
}

/// `DashMap::get`: a copy of the value under the key, if there is one.
#[verifier::external_body]
pub(crate) fn id_slot(map: &DashMap<u64, usize>, id: u64) -> (r: Option<usize>)
    ensures
        match r {
            Some(slot) => id_slots(*map).dom().contains(id) && slot == id_slots(*map)[id],
            None => !id_slots(*map).dom().contains(id),
        },
{
    map.get(&id).map(|entry| *entry.value())
}

/// `DashMap::insert`: the value stands under the key, in place of an earlier
/// one; the other keys are as they were.
#[verifier::external_body]
pub(crate) fn insert_id_slot(map: &mut DashMap<u64, usize>, id: u64, slot: usize)
    ensures
        id_slots(*final(map)) == id_slots(*old(map)).insert(id, slot),
{
    map.insert(id, slot);
}

/// `DashMap::new`: the map is empty.
#[verifier::external_body]
pub(crate) fn new_name_slots() -> (r: DashMap<String, usize>)
    ensures
        (name_slots(r) == Map::<Seq<char>, usize>::empty()),
{
    DashMap::new()
}

/// `DashMap::get`: a copy of the value under the key, if there is one.
#[verifier::external_body]
pub(crate) fn name_slot(map: &DashMap<String, usize>, name: &str) -> (r: Option<usize>)
    ensures
        match r {
            Some(slot) => name_slots(*map).dom().contains(name@) && slot == name_slots(
                *map,
            )[name@],
            None => !name_slots(*map).dom().contains(name@),
        },
{
    map.get(name).map(|entry| *entry.value())
}

/// `DashMap::insert`: the value stands under the key, in place of an earlier
/// one; the other keys are as they were.
#[verifier::external_body]
pub(crate) fn insert_name_slot(map: &mut DashMap<String, usize>, name: String, slot: usize)
    ensures
        name_slots(*final(map)) == name_slots(*old(map)).insert(name@, slot),
{
    map.insert(name, slot);
}

/// `DashMap::contains_key`: whether there is a value under the key.
#[verifier::external_body]
pub(crate) fn has_name_slot(map: &DashMap<String, usize>, name: &str) -> (r: bool)
    ensures
        r == name_slots(*map).dom().contains(name@),
{
    map.contains_key(name)
}

/// `DashMap::iter`, keys only: each key once, in an order of which nothing is
/// claimed.
#[verifier::external_body]
pub(crate) fn slot_names(map: &DashMap<String, usize>) -> (r: Vec<String>)
    ensures
        r@.map_values(|name: String| name@).no_duplicates(),
        r@.map_values(|name: String| name@).to_set() == name_slots(*map).dom(),
{
    map.iter().map(|entry| entry.key().clone()).collect()
}

} // verus!
