//! The tree-backed engine: an adapter over the embedded ordered key-value
//! library `sled`.
//!
//! The tree's own algorithms are external; what is verified here is the
//! adapter contract around them: the guard that refuses a directory owned
//! by the log engine, the UTF-8 check on values read back, and the mapping
//! of a missing key to `KeyNotFound`.

use vstd::prelude::*;
use vstd::string::StringExecFns;
use vstd::utf8::{decode_utf8, valid_utf8};
use crate::codec::string_from_utf8;
use crate::dir::{check_tree_dir, spec_entry_log_num, DirEntry};
use crate::engine::KvsEngine;
use crate::error::Error;

verus! {

#[verifier::external_type_specification]
#[verifier::external_body]
pub struct ExSledDb(sled::Db);

/// A handle to a tree-backed store; clones share the same underlying tree.
pub struct SledEngine {
    db: sled::Db,
}

/// Relies on `sled::open`: opens or creates the tree database rooted at
/// `path`. Failures surface as `Io` for I/O errors, `Backend` otherwise.
#[verifier::external_body]
fn sled_open(path: &str) -> (r: Result<sled::Db, Error>)
    ensures
        r matches Err(e) ==> (e is Io || e is Backend),
{
    match sled::open(path) {
        Ok(db) => Ok(db),
        Err(sled::Error::Io(e)) => Err(Error::Io { msg: format!("{}", e) }),
        Err(e) => Err(Error::Backend { msg: format!("{}", e) }),
    }
}

/// Relies on `sled::Tree::insert` (through `Db`'s deref): stores the
/// value under the key's bytes.
#[verifier::external_body]
fn sled_insert(db: &sled::Db, key: &String, value: &String) -> (r: Result<(), Error>)
    ensures
        r matches Err(e) ==> (e is Io || e is Backend),
{
    match db.insert(key.as_bytes(), value.as_bytes().to_vec()) {
        Ok(_) => Ok(()),
        Err(sled::Error::Io(e)) => Err(Error::Io { msg: format!("{}", e) }),
        Err(e) => Err(Error::Backend { msg: format!("{}", e) }),
    }
}

/// Relies on `sled::Tree::get`: returns the bytes stored under the key,
/// if any.
#[verifier::external_body]
fn sled_get(db: &sled::Db, key: &String) -> (r: Result<Option<Vec<u8>>, Error>)
    ensures
        r matches Err(e) ==> (e is Io || e is Backend),
{
    match db.get(key.as_bytes()) {
        Ok(Some(iv)) => Ok(Some(iv.to_vec())),
        Ok(None) => Ok(None),
        Err(sled::Error::Io(e)) => Err(Error::Io { msg: format!("{}", e) }),
        Err(e) => Err(Error::Backend { msg: format!("{}", e) }),
    }
}

/// Relies on `sled::Tree::remove`: deletes the key, returning the bytes
/// that were stored under it, if any.
#[verifier::external_body]
fn sled_remove(db: &sled::Db, key: &String) -> (r: Result<Option<Vec<u8>>, Error>)
    ensures
        r matches Err(e) ==> (e is Io || e is Backend),
{
    match db.remove(key.as_bytes()) {
        Ok(prev) => Ok(prev.map(|iv| iv.to_vec())),
        Err(sled::Error::Io(e)) => Err(Error::Io { msg: format!("{}", e) }),
        Err(e) => Err(Error::Backend { msg: format!("{}", e) }),
    }
}

/// Relies on `sled::Db`'s `Clone`: the clone is a second handle to the
/// same tree.
#[verifier::external_body]
fn sled_db_clone(db: &sled::Db) -> (r: sled::Db)
{
    db.clone()
}

/// Decode bytes the backend handed back as a UTF-8 value. A payload that
/// is not UTF-8 is a backend failure, never a panic.
pub fn decode_stored_value(bytes: Vec<u8>) -> (r: Result<String, Error>)
    ensures
        valid_utf8(bytes@) ==> (r matches Ok(s) && s@ == decode_utf8(bytes@)),
        !valid_utf8(bytes@) ==> (r matches Err(e) && e is Backend),
{
    match string_from_utf8(bytes) {
        Some(s) => Ok(s),
        None => Err(Error::Backend { msg: String::from_str("value is not UTF-8") }),
    }
}

/// Map the backend's answer to a delete: a key that was never there is
/// `KeyNotFound`; otherwise the delete succeeded.
pub fn remove_outcome(prev: Option<Vec<u8>>, key: String) -> (r: Result<(), Error>)
    ensures
        prev is Some ==> r is Ok,
        prev is None ==> (r matches Err(e) && e matches Error::KeyNotFound { key: k } && k@
            == key@),
{
    match prev {
        Some(_) => Ok(()),
        None => Err(Error::KeyNotFound { key }),
    }
}

impl SledEngine {
    /// Open the tree-backed engine on a directory. A directory holding any
    /// of the log engine's `<digits>.log` files is refused with
    /// `EngineMismatch` — and only such a directory: on a clean directory
    /// the result is an engine, or whatever I/O or backend failure the
    /// tree library reported.
    pub fn open(path: &str, entries: &Vec<DirEntry>) -> (r: Result<SledEngine, Error>)
        ensures
            (exists|k: int|
                0 <= k < entries@.len() && spec_entry_log_num(
                    #[trigger] entries@[k].name@,
                    entries@[k].is_dir,
                ) is Some) <==> (r matches Err(e) && e is EngineMismatch),
            r matches Err(e) ==> (e is EngineMismatch || e is Io || e is Backend),
            r matches Ok(en) ==> en.inv(),
    {
        match check_tree_dir(entries) {
            Err(e) => Err(e),
            Ok(()) => match sled_open(path) {
                Ok(db) => Ok(SledEngine { db }),
                Err(e) => Err(e),
            },
        }
    }
}

impl Clone for SledEngine {
    /// A second handle to the same tree.
    fn clone(&self) -> (r: Self) {
        SledEngine { db: sled_db_clone(&self.db) }
    }
}

impl KvsEngine for SledEngine {
    open spec fn inv(&self) -> bool {
        true
    }

    /// Look the key up; a stored payload that is not UTF-8 surfaces as a
    /// backend error, so any failure here is `Io` or `Backend`.
    fn get(&self, key: String) -> (r: Result<Option<String>, Error>)
        ensures
            r matches Err(e) ==> (e is Io || e is Backend),
    {
        match sled_get(&self.db, &key) {
            Ok(Some(bytes)) => match decode_stored_value(bytes) {
                Ok(s) => Ok(Some(s)),
                Err(e) => Err(e),
            },
            Ok(None) => Ok(None),
            Err(e) => Err(e),
        }
    }

    /// Forward the pair to the backend; any failure is `Io` or `Backend`.
    fn set(&self, key: String, value: String) -> (r: Result<(), Error>)
        ensures
            r matches Err(e) ==> (e is Io || e is Backend),
    {
        sled_insert(&self.db, &key, &value)
    }

    /// Delete through the backend; a missing key surfaces as
    /// `KeyNotFound` naming the key, never as a generic backend error,
    /// and every other failure is `Io` or `Backend`.
    fn remove(&self, key: String) -> (r: Result<(), Error>)
        ensures
            r matches Err(e) ==> ((e matches Error::KeyNotFound { key: k } && k@ == key@)
                || e is Io || e is Backend),
    {
        match sled_remove(&self.db, &key) {
            Ok(prev) => remove_outcome(prev, key),
            Err(e) => Err(e),
        }
    }
}

} // verus!
