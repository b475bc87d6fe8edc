//! The engine abstraction: a small capability contract — get, set,
//! remove — satisfied by both the log-structured engine and the
//! tree-backed one.
//!
//! An engine value is a shareable handle: operations take `&self`, and all
//! synchronization is internal to the engine. Nothing here promises what an
//! individual operation returns — that depends on what other handles did in
//! between — only that every operation keeps the handle valid.

use vstd::prelude::*;
use crate::error::Error;

verus! {

/// The capability every storage engine offers.
pub trait KvsEngine: Sized {
    /// Validity of the handle; every operation preserves it.
    spec fn inv(&self) -> bool;

    /// Get the value associated with `key`, or `None` if absent.
    fn get(&self, key: String) -> (r: Result<Option<String>, Error>)
        requires
            self.inv(),
    ;

    /// Set the value of `key` to `value`, overwriting any existing entry.
    fn set(&self, key: String, value: String) -> (r: Result<(), Error>)
        requires
            self.inv(),
    ;

    /// Remove the entry for `key`; `KeyNotFound` if there is none. A
    /// `KeyNotFound` failure always names the key that was asked for.
    fn remove(&self, key: String) -> (r: Result<(), Error>)
        requires
            self.inv(),
        ensures
            r matches Err(e) ==> (e matches Error::KeyNotFound { key: k } ==> k@ == key@),
    ;
}

} // verus!
