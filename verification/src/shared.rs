//! A shared, clonable handle to one log-structured store.
//!
//! The store sits behind a verified readers-writer lock whose invariant
//! admits only well-formed stores: `get` takes shared access, `set`,
//! `remove` and `compact` take exclusive access, and every handle —
//! however the operations of many threads interleave — only ever observes
//! a store that satisfies the engine's invariant.

use vstd::prelude::*;
use vstd::rwlock::{RwLock, RwLockPredicate};
use std::sync::Arc;
use crate::engine::KvsEngine;
use crate::error::Error;
use crate::store::{DiskFile, KvStore, LogEffect};

verus! {

/// The lock invariant: only well-formed stores may be stored in the lock.
pub struct StorePred {}

impl RwLockPredicate<KvStore> for StorePred {
    open spec fn inv(self, v: KvStore) -> bool {
        v.wf()
    }
}

/// A shared handle to one store; clones share the same underlying state.
pub struct SharedKvStore {
    lock: Arc<RwLock<KvStore, StorePred>>,
}

/// Relies on `Arc::clone`: the clone is a second reference to the same
/// allocation, so its (spec) value equals the original's.
#[verifier::external_body]
fn arc_clone(v: &Arc<RwLock<KvStore, StorePred>>) -> (r: Arc<RwLock<KvStore, StorePred>>)
    ensures
        r == *v,
{
    Arc::clone(v)
}

impl SharedKvStore {
    /// Validity of the handle: the lock carries the store invariant.
    pub closed spec fn wf(self) -> bool {
        (*self.lock).pred() == (StorePred { })
    }

    /// Wrap a well-formed store into a shared handle.
    pub fn from_store(store: KvStore) -> (r: SharedKvStore)
        requires
            store.wf(),
        ensures
            r.wf(),
    {
        SharedKvStore { lock: Arc::new(RwLock::new(store, Ghost(StorePred { }))) }
    }

    /// Open a store from its directory's log files and share it.
    pub fn open(files: Vec<DiskFile>) -> (r: SharedKvStore)
        requires
            forall|i: int, j: int|
                0 <= i < j < files@.len() ==> (#[trigger] files@[i].file_num)
                    < (#[trigger] files@[j].file_num),
        ensures
            r.wf(),
    {
        SharedKvStore::from_store(KvStore::open(files))
    }

    /// Hand over the store's queued effects, to be applied to the real
    /// directory in order.
    pub fn drain_effects(&self) -> (effs: Vec<LogEffect>)
        requires
            self.wf(),
    {
        let (mut store, handle) = (*self.lock).acquire_write();
        let effs = store.take_effects();
        handle.release_write(store);
        effs
    }

    /// Compact the log now, regardless of the stale counter.
    pub fn compact(&self)
        requires
            self.wf(),
    {
        let (mut store, handle) = (*self.lock).acquire_write();
        if store.active_file_num() < u64::MAX {
            store.compact();
        }
        handle.release_write(store);
    }
}

impl Clone for SharedKvStore {
    /// A second handle to the same store: both handles share one lock and
    /// one underlying state.
    fn clone(&self) -> (r: Self)
        ensures
            r == *self,
    {
        SharedKvStore { lock: arc_clone(&self.lock) }
    }
}

impl KvsEngine for SharedKvStore {
    open spec fn inv(&self) -> bool {
        self.wf()
    }

    /// Read under shared access: the observed store is well-formed, the
    /// result is that store's answer for `key`, and the read never fails.
    fn get(&self, key: String) -> (r: Result<Option<String>, Error>)
        ensures
            r is Ok,
    {
        let read_handle = (*self.lock).acquire_read();
        let r = read_handle.borrow().get(key);
        read_handle.release_read();
        r
    }

    /// Write under exclusive access: the locked store moves from one
    /// well-formed state to the next with `key` bound to `value`; the
    /// write never fails.
    fn set(&self, key: String, value: String) -> (r: Result<(), Error>)
        ensures
            r is Ok,
    {
        let (mut store, handle) = (*self.lock).acquire_write();
        let r = store.set(key, value);
        handle.release_write(store);
        r
    }

    /// Remove under exclusive access: the only possible failure is
    /// `KeyNotFound`, naming the key, when the locked store does not hold
    /// it.
    fn remove(&self, key: String) -> (r: Result<(), Error>)
        ensures
            r matches Err(e) ==> (e matches Error::KeyNotFound { key: k } && k@ == key@),
    {
        let (mut store, handle) = (*self.lock).acquire_write();
        let r = store.remove(key);
        handle.release_write(store);
        r
    }
}

} // verus!
