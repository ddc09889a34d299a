//! The persistent storage layer: a stable counter and a stable ordered map
//! of serialized records, both backed by `ic_stable_structures`.
//!
//! The two structures live behind `StableStore`, which the verifier treats
//! as opaque; `store_entries` and `store_counter` name its contents, and the
//! trusted methods below state over those names what the crate's source
//! shows of each call.

use vstd::prelude::*;
use ic_stable_structures::memory_manager::{MemoryId, MemoryManager, VirtualMemory};
use ic_stable_structures::{Cell, DefaultMemoryImpl, StableBTreeMap};

verus! {

/// The persisted identifier counter and record map. Opaque to the verifier:
/// the whole structure is visible only through the trusted methods below.
#[verifier::external_body]
pub struct StableStore {
    counter: Cell<u64, VirtualMemory<DefaultMemoryImpl>>,
    map: StableBTreeMap<u64, Vec<u8>, VirtualMemory<DefaultMemoryImpl>>,
}

/// The entries held by the stable map: identifier to stored bytes.
pub uninterp spec fn store_entries(s: StableStore) -> Map<u64, Seq<u8>>;

/// The value held by the stable counter cell.
pub uninterp spec fn store_counter(s: StableStore) -> u64;

impl StableStore {
    /// Relies on `MemoryManager::init`, `Cell::new` and `StableBTreeMap::new`
    /// of `ic_stable_structures`: `new` writes its initial value and lays out
    /// a fresh empty map, overwriting whatever the backing memory held, so
    /// the store starts empty with the counter at zero on every target.
    ///
    /// The process's default memory is a single resource: the host must hold
    /// at most one `StableStore` at a time, whichever constructor made it,
    /// or the two would alias the same memory.
    #[verifier::external_body]
    pub(crate) fn fresh() -> (s: StableStore)
        ensures
            store_entries(s) =~= Map::empty(),
            store_counter(s) == 0,
    {
        let manager = MemoryManager::init(DefaultMemoryImpl::default());
        StableStore {
            counter: Cell::new(manager.get(MemoryId::new(0)), 0),
            map: StableBTreeMap::new(manager.get(MemoryId::new(1))),
        }
    }

    /// Relies on `MemoryManager::init`, `Cell::init` and `StableBTreeMap::init`
    /// of `ic_stable_structures`: both re-attach to whatever the backing
    /// memory already holds (decoding the persisted cell value and loading
    /// the persisted map), falling back to a zero counter and an empty map on
    /// zero-length memory. Nothing is promised of the recovered content
    /// beyond its finiteness; callers must validate it. The singleton caveat
    /// on `fresh` applies here too.
    #[verifier::external_body]
    pub(crate) fn reopen() -> (s: StableStore)
        ensures
            store_entries(s).dom().finite(),
    {
        let manager = MemoryManager::init(DefaultMemoryImpl::default());
        StableStore {
            counter: Cell::init(manager.get(MemoryId::new(0)), 0),
            map: StableBTreeMap::init(manager.get(MemoryId::new(1))),
        }
    }

    /// Relies on `StableBTreeMap::keys`: the in-order walk of the tree
    /// yields every key in the map, each exactly once.
    #[verifier::external_body]
    pub(crate) fn keys(&self) -> (r: Vec<u64>)
        ensures
            forall|i: int|
                0 <= i < r@.len() ==> store_entries(*self).dom().contains(#[trigger] r@[i]),
            forall|k: u64| store_entries(*self).dom().contains(k) ==> r@.contains(k),
            r@.no_duplicates(),
    {
        self.map.keys().collect()
    }

    /// Relies on `StableBTreeMap::get`: returns the value stored under the
    /// key, if any (`Vec<u8>` is stored byte-for-byte).
    #[verifier::external_body]
    pub(crate) fn get(&self, id: u64) -> (r: Option<Vec<u8>>)
        ensures
            r is Some <==> store_entries(*self).dom().contains(id),
            r matches Some(v) ==> v@ == store_entries(*self)[id],
    {
        self.map.get(&id)
    }

    /// Relies on `StableBTreeMap::len`: the number of entries in the map.
    #[verifier::external_body]
    pub(crate) fn len(&self) -> (r: u64)
        ensures
            r as nat == store_entries(*self).dom().len(),
    {
        self.map.len()
    }

    /// Relies on `StableBTreeMap::insert`: stores the value under the key,
    /// returning the prior value if the key was present. The counter cell
    /// lives in a separate virtual memory and is untouched.
    #[verifier::external_body]
    pub(crate) fn insert(&mut self, id: u64, value: Vec<u8>) -> (prior: Option<Vec<u8>>)
        ensures
            store_entries(*final(self)) == store_entries(*old(self)).insert(id, value@),
            store_counter(*final(self)) == store_counter(*old(self)),
            prior is Some <==> store_entries(*old(self)).dom().contains(id),
            prior matches Some(v) ==> v@ == store_entries(*old(self))[id],
    {
        self.map.insert(id, value)
    }

    /// Relies on `Cell::get`: the value the cell holds.
    #[verifier::external_body]
    pub(crate) fn counter_get(&self) -> (r: u64)
        ensures
            r == store_counter(*self),
    {
        *self.counter.get()
    }

    /// Relies on `Cell::set`: writes the value durably before returning, and
    /// traps the process if the backing memory cannot be written — the
    /// allocator's fatal, non-recoverable failure. The record map lives in a
    /// separate virtual memory and is untouched.
    #[verifier::external_body]
    pub(crate) fn counter_set(&mut self, value: u64)
        ensures
            store_counter(*final(self)) == value,
            store_entries(*final(self)) == store_entries(*old(self)),
    {
        self.counter.set(value);
    }
}

} // verus!
