//! A map from names to values.

use crate::dash::{
    has_name_slot,
    insert_name_slot,
    name_slot,
    name_slots,
    new_name_slots,
    slot_names,
};
use dashmap::DashMap;
use vstd::prelude::*;

verus! {

/// A map from names to values. A name, once there, stays.
pub struct NameMap<V> {
    /// The place of each name's value in `values`.
    slots: DashMap<String, usize>,
    values: Vec<V>,
}

impl<V> View for NameMap<V> {
    type V = Map<Seq<char>, V>;

    closed spec fn view(&self) -> Map<Seq<char>, V> {
        Map::new(
            |name: Seq<char>| name_slots(self.slots).dom().contains(name),
            |name: Seq<char>| self.values@[name_slots(self.slots)[name] as int],
        )
    }
}

impl<V> NameMap<V> {
    /// Each name has a place of its own.
    pub closed spec fn wf(self) -> bool {
        let slots = name_slots(self.slots);
        &&& forall|name: Seq<char>| #[trigger]
            slots.dom().contains(name) ==> slots[name] < self.values@.len()
        &&& forall|a: Seq<char>, b: Seq<char>| #[trigger]
            slots.dom().contains(a) && #[trigger] slots.dom().contains(b) && slots[a] == slots[b]
                ==> a == b
    }

    /// A map without names.
    pub fn new() -> (r: NameMap<V>)
        ensures
            r.wf(),
            r@ == Map::<Seq<char>, V>::empty(),
    {
        NameMap { slots: new_name_slots(), values: Vec::new() }
    }

    /// The value of a name.
    pub fn get(&self, name: &str) -> (r: Option<&V>)
        requires
            self.wf(),
        ensures
            match r {
                Some(value) => self@.dom().contains(name@) && *value == self@[name@],
                None => !self@.dom().contains(name@),
            },
    {
        match name_slot(&self.slots, name) {
            Some(slot) => Some(&self.values[slot]),
            None => None,
        }
    }

    /// Whether a name has a value.
    pub fn has(&self, name: &str) -> (r: bool)
        ensures
            r == self@.dom().contains(name@),
    {
        has_name_slot(&self.slots, name)
    }

    /// All names, each once, in no particular order.
    pub fn names(&self) -> (r: Vec<String>)
        ensures
            r@.map_values(|name: String| name@).no_duplicates(),
            r@.map_values(|name: String| name@).to_set() == self@.dom(),
    {
        assert(self@.dom() == name_slots(self.slots).dom());
        slot_names(&self.slots)
    }

    /// The place of a name's value. A name that has none gets `default`.
    pub fn entry_or(&mut self, name: String, default: V) -> (r: &mut V)
        requires
            old(self).wf(),
        ensures
            *r == if old(self)@.dom().contains(name@) {
                old(self)@[name@]
            } else {
                default
            },
            final(self).wf(),
            final(self)@ == old(self)@.insert(name@, *final(r)),
    {
        let slot = match name_slot(&self.slots, name.as_str()) {
            Some(slot) => slot,
            None => {
                let slot = self.values.len();
                insert_name_slot(&mut self.slots, name, slot);
                self.values.push(default);
                slot
            },
        };
        &mut self.values[slot]
    }

    /// Give a name a value, in place of an earlier one.
    pub fn insert(&mut self, name: String, value: V)
        requires
            old(self).wf(),
        ensures
            final(self).wf(),
            final(self)@ == old(self)@.insert(name@, value),
    {
        match name_slot(&self.slots, name.as_str()) {
            Some(slot) => {
                self.values[slot] = value;
            },
            None => {
                let slot = self.values.len();
                insert_name_slot(&mut self.slots, name, slot);
                self.values.push(value);
            },
        }
        assert(self@ == old(self)@.insert(name@, value));
    }
}

} // verus!
