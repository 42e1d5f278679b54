//! The hash table behind the interner, and what is taken on trust about it.
//!
//! The table is a [`DashMap`] from the bytes of a string to the 32 bits of an interned string. No
//! entry is ever removed from it.

use dashmap::mapref::entry::Entry;
use dashmap::DashMap;
use std::hash::BuildHasher;
use vstd::prelude::*;
use vstd::std_specs::hash::builds_valid_hashers;

verus! {

/// The sharded hash map of the `dashmap` crate.
#[verifier::external_type_specification]
#[verifier::external_body]
#[verifier::reject_recursive_types(K)]
#[verifier::reject_recursive_types(V)]
#[verifier::reject_recursive_types(S)]
pub struct ExDashMap<K, V, S>(DashMap<K, V, S>);

/// A hash table, with the entries that were put into it as its model.
///
/// Only the methods here touch the map, and their contracts keep the model in step with it. Where a
/// contract rests on the hash builder giving equal keys equal hashes, it says so.
#[verifier::reject_recursive_types(RS)]
pub struct Table<RS> {
    map: DashMap<Vec<u8>, u32, RS>,
    entries: Ghost<Set<(Seq<u8>, u32)>>,
}

impl<RS> Table<RS> {
    /// The entries that were put into the table: a key, taken as the bytes it holds, and a number.
    pub closed spec fn entries(self) -> Set<(Seq<u8>, u32)> {
        self.entries@
    }

    /// Some entry has the key.
    pub open spec fn has_key(self, key: Seq<u8>) -> bool {
        exists|value: u32| self.entries().contains((key, value))
    }
}

impl<RS: Clone + BuildHasher> Table<RS> {
    /// `DashMap::with_capacity_and_hasher`: a table without entries. The capacity is kept small, as
    /// the arithmetic on it in `dashmap` is not checked.
    #[verifier::external_body]
    pub(crate) fn new(capacity: usize, hash_builder: RS) -> (table: Table<RS>)
        requires
            capacity <= 0xffff,
        ensures
            table.entries() == Set::<(Seq<u8>, u32)>::empty(),
    {
        Table {
            map: DashMap::with_capacity_and_hasher(capacity, hash_builder),
            entries: Ghost(Set::empty()),
        }
    }

    /// `DashMap::get`: the number of an entry with the key. If the hash builder keeps to its
    /// contract, an entry with the key is found whenever there is one.
    #[verifier::external_body]
    pub(crate) fn get(&self, key: &[u8]) -> (value: Option<u32>)
        ensures
            value matches Some(value) ==> self.entries().contains((key@, value)),
            builds_valid_hashers::<RS>() && self.has_key(key@) ==> value is Some,
    {
        self.map.get(key).map(|entry| *entry.value())
    }

    /// `DashMap::entry`, with `OccupiedEntry::get`, `VacantEntry::into_key` and `DashMap::insert`:
    /// where an entry with the key is found, the table stays as it is and the number of that entry
    /// comes back; where none is, an entry with `value` is put in. If the hash builder keeps to its
    /// contract, an entry with the key is found whenever there is one. (`VacantEntry::insert` looks
    /// for the key again and panics where it is not found, so it is not for every hash builder.)
    #[verifier::external_body]
    pub(crate) fn bind(&mut self, key: Vec<u8>, value: u32) -> (present: Option<u32>)
        ensures
            match present {
                Some(present) => {
                    &&& old(self).entries().contains((key@, present))
                    &&& final(self).entries() == old(self).entries()
                },
                None => final(self).entries() == old(self).entries().insert((key@, value)),
            },
            builds_valid_hashers::<RS>() && old(self).has_key(key@) ==> present is Some,
    {
        match self.map.entry(key) {
            Entry::Occupied(occupied) => Some(*occupied.get()),
            Entry::Vacant(vacant) => {
                let key = vacant.into_key();
                self.map.insert(key, value);
                None
            },
        }
    }

    /// `DashMap::iter`: nothing but entries that were put in, in an order of which nothing is said.
    /// If the hash builder keeps to its contract, every entry is there, and no key twice.
    #[verifier::external_body]
    pub(crate) fn list(&self) -> (list: Vec<(Vec<u8>, u32)>)
        ensures
            forall|i: int|
                0 <= i < list@.len() ==> self.entries().contains(
                    ((#[trigger] list@[i]).0@, list@[i].1),
                ),
            builds_valid_hashers::<RS>() ==> lists_entries(list@, self.entries()),
    {
        self.map.iter().map(|entry| (entry.key().clone(), *entry.value())).collect()
    }
}

/// Every entry is in the list, and no key is there twice.
pub open spec fn lists_entries(list: Seq<(Vec<u8>, u32)>, entries: Set<(Seq<u8>, u32)>) -> bool {
    &&& forall|i: int, j: int|
        0 <= i < j < list.len() ==> (#[trigger] list[i]).0@ != (#[trigger] list[j]).0@
    &&& forall|key: Seq<u8>, value: u32| #[trigger]
        entries.contains((key, value)) ==> exists|i: int|
            0 <= i < list.len() && (#[trigger] list[i]).0@ == key && list[i].1 == value
}

} // verus!
