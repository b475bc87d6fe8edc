//! A persistent, networked key-value store.
//!
//! Keys and values are UTF-8 strings. The log-structured engine keeps every
//! mutation as a record in an append-only log, holds an in-memory index from
//! key to log position, and periodically compacts the log down to one record
//! per live key. The engine's state, the binary record format, the wire
//! protocol, and the compaction and recovery logic are verified; the
//! surrounding process (sockets, worker threads, the real file system) hands
//! the library plain values and applies the effects it returns.

pub mod codec;
pub mod dir;
pub mod engine;
pub mod error;
pub mod protocol;
pub mod server;
pub mod shared;
pub mod sled_engine;
pub mod store;

pub use engine::KvsEngine;
pub use error::Error;
pub use server::{EngineImpl, KvsServer};
pub use shared::SharedKvStore;
pub use sled_engine::SledEngine;
pub use store::KvStore;
