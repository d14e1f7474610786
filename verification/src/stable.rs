//! Ordered maps of byte strings in stable memory.

use ic_stable_structures::memory_manager::{MemoryId, MemoryManager, VirtualMemory};
use ic_stable_structures::{DefaultMemoryImpl, StableBTreeMap};
use vstd::prelude::*;

use crate::order::{before, lists};

verus! {

/// A `StableBTreeMap` from byte strings to byte strings.
#[verifier::external_body]
pub struct StableMap {
    inner: StableBTreeMap<Vec<u8>, Vec<u8>, VirtualMemory<DefaultMemoryImpl>>,
}

/// What a stable map holds.
pub uninterp spec fn contents(m: StableMap) -> Map<Seq<u8>, Seq<u8>>;

/// The id of the virtual memory that a stable map lives in.
pub uninterp spec fn memory_of(m: StableMap) -> u8;

impl View for StableMap {
    type V = Map<Seq<u8>, Seq<u8>>;

    open spec fn view(&self) -> Map<Seq<u8>, Seq<u8>> {
        contents(*self)
    }
}

/// `MemoryManager::init` on the default memory, and `StableBTreeMap::init`
/// on the virtual memory of it that `MemoryManager::get` gives for each id:
/// one map for each id, in their order, living in the memory of that id. An
/// id of 255 would panic, and one that comes twice would give two maps one
/// memory. What the maps hold is whatever that memory holds, so nothing is
/// claimed of it.
#[verifier::external_body]
pub(crate) fn open_maps(ids: &Vec<u8>) -> (r: Vec<StableMap>)
    requires
        ids@.no_duplicates(),
        !ids@.contains(255),
    ensures
        r@.len() == ids@.len(),
        forall|i: int| 0 <= i < ids@.len() ==> memory_of(#[trigger] r@[i]) == ids@[i],
{
    let manager = MemoryManager::init(DefaultMemoryImpl::default());
    let open = |id: &u8| StableMap { inner: StableBTreeMap::init(manager.get(MemoryId::new(*id))) };
    ids.iter().map(open).collect()
}

impl StableMap {
    /// `StableBTreeMap::get`: the value stored under `key`, if there is one.
    #[verifier::external_body]
    pub(crate) fn get(&self, key: &Vec<u8>) -> (r: Option<Vec<u8>>)
        ensures
            r is Some <==> contents(*self).contains_key(key@),
            r matches Some(v) ==> v@ == contents(*self)[key@],
    {
        self.inner.get(key)
    }

    /// `StableBTreeMap::insert`: `key` now maps to `value`, every other key
    /// as before. A memory that cannot grow ends the call and its effects,
    /// so no half-done insert is ever seen.
    #[verifier::external_body]
    pub(crate) fn insert(&mut self, key: Vec<u8>, value: Vec<u8>)
        ensures
            contents(*final(self)) == contents(*old(self)).insert(key@, value@),
        no_unwind
    {
        self.inner.insert(key, value);
    }

    /// `StableBTreeMap::remove`: `key` is gone, every other key as before.
    #[verifier::external_body]
    pub(crate) fn remove(&mut self, key: &Vec<u8>)
        ensures
            contents(*final(self)) == contents(*old(self)).remove(key@),
        no_unwind
    {
        self.inner.remove(key);
    }

    /// `StableBTreeMap::range` from `start` on: every entry whose key is not
    /// before `start`, in the order of the keys.
    #[verifier::external_body]
    pub(crate) fn entries_from(&self, start: Vec<u8>) -> (r: Vec<(Vec<u8>, Vec<u8>)>)
        ensures
            forall|i: int, j: int|
                0 <= i < j < r@.len() ==> before((#[trigger] r@[i]).0@, (#[trigger] r@[j]).0@),
            forall|i: int|
                0 <= i < r@.len() ==> !before((#[trigger] r@[i]).0@, start@)
                    && contents(*self).contains_key(r@[i].0@) && contents(*self)[r@[i].0@] == r@[i].1@,
            forall|k: Seq<u8>| #[trigger]
                contents(*self).contains_key(k) && !before(k, start@) ==> exists|i: int|
                    0 <= i < r@.len() && (#[trigger] r@[i]).0@ == k,
    {
        self.inner.range(start..).map(|e| (e.key().clone(), e.value())).collect()
    }
}

/// The keys of a list of entries.
pub open spec fn keys_of(s: Seq<(Vec<u8>, Vec<u8>)>) -> Seq<Seq<u8>> {
    s.map_values(|e: (Vec<u8>, Vec<u8>)| e.0@)
}

impl StableMap {
    /// Every entry, in the order of the keys.
    pub(crate) fn entries(&self) -> (r: Vec<(Vec<u8>, Vec<u8>)>)
        ensures
            lists(keys_of(r@), self@.dom()),
            forall|i: int| 0 <= i < r@.len() ==> self@[(#[trigger] r@[i]).0@] == r@[i].1@,
            self@.dom().finite(),
    {
        let start: Vec<u8> = Vec::new();
        let r = self.entries_from(start);
        proof {
            let ks = keys_of(r@);
            assert(start@ =~= Seq::<u8>::empty());
            assert forall|k: Seq<u8>| #[trigger] self@.dom().contains(k) implies ks.contains(k) by {
                assert(self@.contains_key(k));
                assert(!before(k, start@));
                let i = choose|i: int| 0 <= i < r@.len() && (#[trigger] r@[i]).0@ == k;
                assert(ks[i] == k);
            }
            assert(self@.dom() =~= ks.to_set());
            vstd::seq_lib::seq_to_set_is_finite(ks);
        }
        r
    }
}

} // verus!
