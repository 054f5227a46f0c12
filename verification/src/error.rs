//! What can go wrong when the log is read.

use vstd::prelude::*;

verus! {

/// The ways in which reading from the log can fail.
#[derive(Debug, Clone, Copy, PartialEq, Eq, Structural)]
pub enum StoreError {
    /// No complete record starts at the offset: the log ends before it, at
    /// it, or part of the way through the record.
    EndOfLog,
    /// The record at `offset` holds the checksum `stored`, and its key and
    /// value have the checksum `computed`.
    DataCorruption { offset: u64, computed: u32, stored: u32 },
    /// No record is indexed under the key that should hold the index.
    SnapshotMissing,
    /// The index is too long for the value of one record, or the bytes that
    /// should hold an index do not read as one.
    SnapshotInvalid,
}

} // verus!
