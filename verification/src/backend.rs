//! The persistent backing state: an id counter in a stable cell and an
//! ordered map from id to record bytes in a stable B-tree map, each in its
//! own segment of one memory-managed address space, so that neither ever
//! touches the other's bytes.
//!
//! The backing structures come from ic-stable-structures and are opaque to
//! verification; what they hold is named by [`backend_counter`] and
//! [`backend_records`], and each wrapper states what its call does to those.

use ic_stable_structures::memory_manager::{MemoryId, MemoryManager, VirtualMemory};
use ic_stable_structures::{Cell, DefaultMemoryImpl, StableBTreeMap};
use vstd::prelude::*;

verus! {

/// The persisted state. Opaque to verification: its observable content is
/// given by [`backend_counter`] and [`backend_records`].
#[verifier::external_body]
pub struct StableBackend {
    counter: Cell<u64, VirtualMemory<DefaultMemoryImpl>>,
    map: StableBTreeMap<u64, Vec<u8>, VirtualMemory<DefaultMemoryImpl>>,
}

/// An empty record map.
pub open spec fn no_records() -> Map<u64, Seq<u8>> {
    Map::empty()
}

/// The persisted counter value.
pub uninterp spec fn backend_counter(b: StableBackend) -> u64;

/// The persisted map: each live id and the bytes stored under it.
pub uninterp spec fn backend_records(b: StableBackend) -> Map<u64, Seq<u8>>;

impl StableBackend {
    /// Relies on MemoryManager::init and get, Cell::init and BTreeMap::init
    /// of ic-stable-structures: over a fresh memory the counter starts at its
    /// default of 0 and the map starts empty, each in its own segment.
    #[verifier::external_body]
    pub fn new() -> (backend: StableBackend)
        ensures
            backend_counter(backend) == 0,
            backend_records(backend) == no_records(),
    {
        let mm = MemoryManager::init(DefaultMemoryImpl::default());
        StableBackend {
            counter: Cell::init(mm.get(MemoryId::new(0)), 0),
            map: StableBTreeMap::init(mm.get(MemoryId::new(1))),
        }
    }

    /// Relies on Cell::get of ic-stable-structures: returns the stored value.
    #[verifier::external_body]
    pub fn counter_get(&self) -> (r: u64)
        ensures
            r == backend_counter(*self),
    {
        *self.counter.get()
    }

    /// Relies on Cell::set of ic-stable-structures: persists the new counter
    /// value. The counter and the map live in segments the memory manager
    /// keeps disjoint, so the map is untouched.
    #[verifier::external_body]
    pub fn counter_set(&mut self, v: u64)
        ensures
            backend_counter(*final(self)) == v,
            backend_records(*final(self)) == backend_records(*old(self)),
    {
        self.counter.set(v);
    }

    /// Relies on BTreeMap::get of ic-stable-structures: returns the bytes
    /// stored under the id, or nothing when the id is not present.
    #[verifier::external_body]
    pub fn record_get(&self, id: u64) -> (r: Option<Vec<u8>>)
        ensures
            match r {
                Some(v) => backend_records(*self).dom().contains(id) && v@ == backend_records(
                    *self,
                )[id],
                None => !backend_records(*self).dom().contains(id),
            },
    {
        self.map.get(&id)
    }

    /// Relies on BTreeMap::insert of ic-stable-structures: stores the bytes
    /// under the id, replacing any previous entry; other entries and the
    /// counter segment are untouched.
    #[verifier::external_body]
    pub fn record_insert(&mut self, id: u64, bytes: Vec<u8>)
        ensures
            backend_records(*final(self)) == backend_records(*old(self)).insert(id, bytes@),
            backend_counter(*final(self)) == backend_counter(*old(self)),
    {
        self.map.insert(id, bytes);
    }

    /// Relies on BTreeMap::remove of ic-stable-structures: removes and
    /// returns the entry under the id; other entries and the counter segment
    /// are untouched.
    #[verifier::external_body]
    pub fn record_remove(&mut self, id: u64) -> (r: Option<Vec<u8>>)
        ensures
            backend_records(*final(self)) == backend_records(*old(self)).remove(id),
            backend_counter(*final(self)) == backend_counter(*old(self)),
            match r {
                Some(v) => backend_records(*old(self)).dom().contains(id) && v@ == backend_records(
                    *old(self),
                )[id],
                None => !backend_records(*old(self)).dom().contains(id),
            },
    {
        self.map.remove(&id)
    }

    /// Relies on BTreeMap::len of ic-stable-structures: the number of live
    /// entries.
    #[verifier::external_body]
    pub fn record_count(&self) -> (r: u64)
        ensures
            backend_records(*self).dom().finite() ==> r as nat == backend_records(
                *self,
            ).dom().len(),
    {
        self.map.len()
    }

    /// Relies on BTreeMap::iter of ic-stable-structures: visits every entry
    /// exactly once, in ascending key order.
    #[verifier::external_body]
    pub fn record_entries(&self) -> (r: Vec<(u64, Vec<u8>)>)
        ensures
            forall|i: int, j: int|
                #![trigger r@[i], r@[j]]
                0 <= i < j < r@.len() ==> r@[i].0 < r@[j].0,
            forall|i: int|
                #![trigger r@[i]]
                0 <= i < r@.len() ==> backend_records(*self).dom().contains(r@[i].0) && r@[i].1@
                    == backend_records(*self)[r@[i].0],
            forall|k: u64|
                backend_records(*self).dom().contains(k) ==> exists|i: int|
                    0 <= i < r@.len() && #[trigger] r@[i].0 == k,
    {
        let mut out = Vec::new();
        for e in self.map.iter() {
            out.push(e.into_pair());
        }
        out
    }
}

} // verus!
