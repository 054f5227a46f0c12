//! A log-structured key-value store: an append-only log of checksummed
//! records and an index from each key to the offset of its latest record.
//!
//! The log is held as bytes. Reading a file into those bytes and writing the
//! appended bytes back is left to the caller.
//!
//! - `record`: how one record is laid out, written and read.
//! - `log`: the bytes of the log, which only grow at the end.
//! - `index`: the map from keys to offsets.
//! - `scan`: what a forward scan of a log finds.
//! - `store`: the store itself, `ActionKV`.
//! - `snapshot`: the index written to the log and read back from it.
//! - `laws`: what holds of the store across calls.
//! - `checksum`, `endian`: the checksum and the byte order of the header.

pub mod checksum;
pub mod endian;
pub mod error;
pub mod index;
pub mod laws;
pub mod log;
pub mod record;
pub mod scan;
pub mod snapshot;
pub mod store;

pub use error::StoreError;
pub use index::Index;
pub use log::Log;
pub use record::{ByteStr, ByteString, KeyValuePair};
pub use snapshot::{load_index_from_disk, store_index_on_disk};
pub use store::ActionKV;
