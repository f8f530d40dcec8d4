//! The persistent, ordered key-to-bytes map, backed by a stable-memory
//! B-tree. The map itself comes from an outside crate; this module gives it
//! a mathematical name, [`contents`], and a small set of operations whose
//! contracts are stated over that name. Everything above this module is
//! verified against those contracts.
//!
//! `contents` is the sequence of entries in ascending key order, as the
//! map's iterator yields them.
//!
//! On the canister target the backing memory is the process's one stable
//! memory, so every `Store` value aliases the same durable region: the
//! per-value `contents` model is sound only under the discipline that one
//! process holds one `Store` at a time, which is how the handlers and the
//! surrounding program use it. Off that target each constructor gets a
//! fresh in-process region, and values are independent.

use vstd::prelude::*;
use ic_stable_structures::{DefaultMemoryImpl, StableBTreeMap};
use ic_stable_structures::memory_manager::{MemoryId, MemoryManager, VirtualMemory};
use crate::ordered::{entries_sorted, find_entry, has_key, seq_insert, seq_remove};

verus! {

/// A durable ordered map from 64-bit keys to encoded records.
#[verifier::external_body]
pub struct Store {
    map: StableBTreeMap<u64, Vec<u8>, VirtualMemory<DefaultMemoryImpl>>,
}

/// The entries of the store in ascending key order.
pub uninterp spec fn contents(s: Store) -> Seq<(u64, Seq<u8>)>;

impl Store {
    /// Relies on `StableBTreeMap::new`: a freshly created map holds no
    /// entries, whatever the region held before.
    #[verifier::external_body]
    pub fn new() -> (s: Store)
        ensures
            contents(s) == Seq::<(u64, Seq<u8>)>::empty(),
    {
        let memory = MemoryManager::init(DefaultMemoryImpl::default()).get(MemoryId::new(0));
        Store { map: StableBTreeMap::new(memory) }
    }

    /// Relies on `StableBTreeMap::init` over the managed region: it loads
    /// the map persisted there, or creates an empty one where none is, and
    /// either way the entries come back with strictly ascending keys. What
    /// the entries are depends on the region, so nothing more is promised
    /// of them; a region corrupted by something other than this structure
    /// traps, as it did in the program this store serves.
    #[verifier::external_body]
    pub fn init() -> (s: Store)
        ensures
            entries_sorted(contents(s)),
    {
        let memory = MemoryManager::init(DefaultMemoryImpl::default()).get(MemoryId::new(0));
        Store { map: StableBTreeMap::init(memory) }
    }

    /// Relies on `StableBTreeMap::contains_key`: it reports whether the key
    /// holds a value.
    #[verifier::external_body]
    pub fn contains_key(&self, key: u64) -> (r: bool)
        ensures
            r == has_key(contents(*self), key),
    {
        self.map.contains_key(&key)
    }

    /// Relies on `StableBTreeMap::get`: it returns the value at the key, if
    /// one is there.
    #[verifier::external_body]
    pub fn get(&self, key: u64) -> (r: Option<Vec<u8>>)
        ensures
            match r {
                Some(v) => find_entry(contents(*self), key) == Some(v@),
                None => find_entry(contents(*self), key) is None,
            },
    {
        self.map.get(&key)
    }

    /// Relies on `StableBTreeMap::insert`: it puts the value at the key,
    /// replacing what was there, and keeps the other entries and their
    /// order.
    #[verifier::external_body]
    pub fn insert(&mut self, key: u64, value: Vec<u8>)
        ensures
            contents(*final(self)) == seq_insert(contents(*old(self)), key, value@),
    {
        self.map.insert(key, value);
    }

    /// Relies on `StableBTreeMap::remove`: it takes out the entry at the
    /// key, if one is there, and keeps the other entries and their order.
    #[verifier::external_body]
    pub fn remove(&mut self, key: u64) -> (r: Option<Vec<u8>>)
        ensures
            contents(*final(self)) == seq_remove(contents(*old(self)), key),
            match r {
                Some(v) => find_entry(contents(*old(self)), key) == Some(v@),
                None => find_entry(contents(*old(self)), key) is None,
            },
    {
        self.map.remove(&key)
    }

    /// Relies on `StableBTreeMap::iter`: it yields every entry once, in
    /// ascending key order.
    #[verifier::external_body]
    pub fn entries(&self) -> (r: Vec<(u64, Vec<u8>)>)
        ensures
            r@.len() == contents(*self).len(),
            forall|i: int|
                0 <= i < r@.len() ==> (#[trigger] r@[i]).0 == contents(*self)[i].0 && r@[i].1@
                    == contents(*self)[i].1,
    {
        let mut out = Vec::new();
        for entry in self.map.iter() {
            out.push(entry.into_pair());
        }
        out
    }
}

} // verus!
