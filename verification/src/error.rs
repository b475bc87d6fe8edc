//! The closed set of failure kinds used by every layer of the store.

use vstd::prelude::*;
use vstd::string::StringExecFns;

verus! {

/// Everything that can go wrong when interacting with a key-value store,
/// its log, or the server in front of it.
#[derive(Debug)]
pub enum Error {
    /// Tried to remove or read back an entry for a key that does not exist.
    KeyNotFound { key: String },
    /// A file or socket operation failed.
    Io { msg: String },
    /// Encoding or decoding of a log record or wire message failed.
    Serialization { msg: String },
    /// The server reported a failure to a client.
    Server { msg: String },
    /// A lock guarding the shared store was poisoned.
    Synchronization { msg: String },
    /// The tree-backed engine reported a failure that is not an I/O error.
    Backend { msg: String },
    /// The directory already holds data written by a different engine.
    EngineMismatch,
    /// A log record contradicts the store's invariants.
    Corruption,
}

/// The one-line description of an error, as a sequence of characters.
pub open spec fn spec_message(e: Error) -> Seq<char> {
    match e {
        Error::KeyNotFound { key } => "Key not found: "@ + key@,
        Error::Io { msg } => "Io: "@ + msg@,
        Error::Serialization { msg } => "Serialization: "@ + msg@,
        Error::Server { msg } => "Server: "@ + msg@,
        Error::Synchronization { msg } => "Synchronization: "@ + msg@,
        Error::Backend { msg } => "Backend: "@ + msg@,
        Error::EngineMismatch => "Engine mismatch"@,
        Error::Corruption => "Corruption"@,
    }
}

impl Error {
    /// Render the error as the one-line message that servers send to
    /// clients and that binaries print.
    pub fn to_message(&self) -> (r: String)
        ensures
            r@ == spec_message(*self),
    {
        match self {
            Error::KeyNotFound { key } => {
                let mut s = String::from_str("Key not found: ");
                s.append(key.as_str());
                s
            },
            Error::Io { msg } => {
                let mut s = String::from_str("Io: ");
                s.append(msg.as_str());
                s
            },
            Error::Serialization { msg } => {
                let mut s = String::from_str("Serialization: ");
                s.append(msg.as_str());
                s
            },
            Error::Server { msg } => {
                let mut s = String::from_str("Server: ");
                s.append(msg.as_str());
                s
            },
            Error::Synchronization { msg } => {
                let mut s = String::from_str("Synchronization: ");
                s.append(msg.as_str());
                s
            },
            Error::Backend { msg } => {
                let mut s = String::from_str("Backend: ");
                s.append(msg.as_str());
                s
            },
            Error::EngineMismatch => String::from_str("Engine mismatch"),
            Error::Corruption => String::from_str("Corruption"),
        }
    }
}

} // verus!
