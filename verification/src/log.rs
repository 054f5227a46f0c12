//! The log: bytes that are only ever added to at the end.

use crate::record::{append_bytes, ByteStr};
use vstd::prelude::*;

verus! {

/// The bytes of an append-only log.
#[derive(Debug)]
pub struct Log {
    bytes: Vec<u8>,
}

impl View for Log {
    type V = Seq<u8>;

    closed spec fn view(&self) -> Seq<u8> {
        self.bytes@
    }
}

impl Log {
    /// A log that holds `bytes`.
    pub fn new(bytes: Vec<u8>) -> (log: Log)
        ensures
            log@ == bytes@,
    {
        Log { bytes }
    }

    /// The log is held in memory, so its length is that of a vector.
    pub proof fn lemma_len_fits(&self)
        ensures
            self@.len() <= usize::MAX,
    {
        assert(self.bytes.len() == self.bytes@.len());
    }

    /// The bytes of the log.
    pub fn bytes(&self) -> (bytes: &ByteStr)
        ensures
            bytes@ == self@,
    {
        self.bytes.as_slice()
    }

    /// The offset at which the next record will start.
    pub fn end(&self) -> (end: u64)
        ensures
            end == self@.len(),
    {
        self.bytes.len() as u64
    }

    /// Adds `more` at the end of the log and returns the offset at which it
    /// starts. The bytes before it stay as they are.
    pub fn append(&mut self, more: &ByteStr) -> (position: u64)
        ensures
            final(self)@ == old(self)@ + more@,
            position == old(self)@.len(),
    {
        let position = self.bytes.len() as u64;
        append_bytes(&mut self.bytes, more);
        position
    }
}

} // verus!
