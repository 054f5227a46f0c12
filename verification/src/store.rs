//! The store: an append-only log of records and the index into it.

use crate::checksum::checksum;
use crate::endian::read_u32_le;
use crate::error::StoreError;
use crate::index::{same_bytes, Index};
use crate::laws::{lemma_insert_keeps_sound, lemma_insert_then_get, lemma_load_is_sound};
use crate::log::Log;
use crate::record::{
    decode_at, encode, frame, ByteStr, ByteString, Decoded, KeyValuePair, HEADER_LEN,
};
use crate::scan::{index_of, last_match, records_from, scan_result, Scan};
use vstd::prelude::*;
use vstd::slice::slice_to_vec;

verus! {

/// What a read at `position` of `log` reports: the key, the value and the
/// offset after the record that starts there, or why there is none.
pub open spec fn record_at(log: Seq<u8>, position: u64) -> Result<
    (Seq<u8>, Seq<u8>, int),
    StoreError,
> {
    match decode_at(log, position as int) {
        Decoded::Record { key, value, next } => Ok((key, value, next)),
        Decoded::EndOfLog => Err(StoreError::EndOfLog),
        Decoded::DataCorruption { computed, stored } => Err(
            StoreError::DataCorruption { offset: position, computed, stored },
        ),
    }
}

/// What a lookup of `key` reports: nothing where the index does not hold
/// the key, else the value of the record at the offset that the index holds.
pub open spec fn value_under(log: Seq<u8>, index: Map<Seq<u8>, u64>, key: Seq<u8>) -> Result<
    Option<Seq<u8>>,
    StoreError,
> {
    if !index.contains_key(key) {
        Ok(None)
    } else {
        match record_at(log, index[key]) {
            Ok(found) => Ok(Some(found.1)),
            Err(e) => Err(e),
        }
    }
}

/// The record that starts at offset `at` of `log` is sound and has the key
/// `key`.
pub open spec fn holds_key(log: Seq<u8>, at: int, key: Seq<u8>) -> bool {
    decode_at(log, at) matches Decoded::Record { key: k, .. } && k == key
}

/// Every offset in the index is the start of a sound record of its key.
pub open spec fn index_is_sound(log: Seq<u8>, index: Map<Seq<u8>, u64>) -> bool {
    forall|key: Seq<u8>| #[trigger]
        index.contains_key(key) ==> holds_key(log, index[key] as int, key)
}

/// A log with the index into it.
#[derive(Debug)]
pub struct ActionKV {
    pub log: Log,
    pub index: Index,
}

impl ActionKV {
    /// Opens a store on the bytes of a log. Its index is empty until
    /// `load` fills it.
    pub fn open(log: Vec<u8>) -> (store: ActionKV)
        ensures
            store.log@ == log@,
            store.index@ == Map::<Seq<u8>, u64>::empty(),
    {
        ActionKV { log: Log::new(log), index: Index::new() }
    }

    /// Reads the record that starts at `position` of `log`, and says where
    /// the next one starts.
    ///
    /// A record that the log ends inside of is reported as the end of the
    /// log, as is a position at or past the end.
    pub fn process_record(log: &ByteStr, position: u64) -> (read: Result<
        (KeyValuePair, u64),
        StoreError,
    >)
        ensures
            match read {
                Ok((kv, next)) => record_at(log@, position) == Ok::<_, StoreError>(
                    (kv.key@, kv.value@, next as int),
                ),
                Err(e) => record_at(log@, position) == Err::<(Seq<u8>, Seq<u8>, int), _>(e),
            },
    {
        if position > log.len() as u64 {
            return Err(StoreError::EndOfLog);
        }
        let at = position as usize;
        let stored = match read_u32_le(log, at) {
            Some(n) => n,
            None => {
                return Err(StoreError::EndOfLog);
            },
        };
        let key_len = match read_u32_le(log, at + 4) {
            Some(n) => n,
            None => {
                return Err(StoreError::EndOfLog);
            },
        };
        let value_len = match read_u32_le(log, at + 8) {
            Some(n) => n,
            None => {
                return Err(StoreError::EndOfLog);
            },
        };
        let room = log.len() - at - HEADER_LEN;
        if key_len as u64 + value_len as u64 > room as u64 {
            return Err(StoreError::EndOfLog);
        }
        let start = at + HEADER_LEN;
        let key_end = start + key_len as usize;
        let end = key_end + value_len as usize;
        let computed = checksum(&log[start..end]);
        if computed != stored {
            return Err(StoreError::DataCorruption { offset: position, computed, stored });
        }
        let key = slice_to_vec(&log[start..key_end]);
        let value = slice_to_vec(&log[key_end..end]);
        Ok((KeyValuePair { key, value }, end as u64))
    }

    /// Rebuilds the index by a scan of the whole log.
    ///
    /// The index is emptied first. Each record then replaces what was known
    /// of its key, so a key ends with the offset of its last record. A
    /// corrupt record stops the scan: the error names it, and the index
    /// holds the records before it.
    pub fn load(&mut self) -> (loaded: Result<(), StoreError>)
        ensures
            final(self).log@ == old(self).log@,
            final(self).index@ == index_of(records_from(old(self).log@, 0)),
            loaded == scan_result(old(self).log@, 0),
            index_is_sound(final(self).log@, final(self).index@),
    {
        proof {
            self.log.lemma_len_fits();
            lemma_load_is_sound(self.log@);
        }
        self.index = Index::new();
        let mut scan = Scan::new(self.log.bytes(), 0);
        loop
            invariant
                self.log == old(self).log,
                scan.log() == self.log@,
                scan.from() == 0,
                self.index@ == index_of(scan.read()),
                index_is_sound(self.log@, index_of(records_from(self.log@, 0))),
            decreases scan.left(),
        {
            let ghost read = scan.read();
            match scan.next_record() {
                Some(Ok((at, kv))) => {
                    assert(scan.read().drop_last() == read);
                    self.index.insert(kv.key, at);
                },
                Some(Err(e)) => {
                    return Err(e);
                },
                None => {
                    return Ok(());
                },
            }
        }
    }

    /// Appends a record of `key` and `value` to the log and points the index
    /// at it.
    pub fn insert(&mut self, key: &ByteStr, value: &ByteStr)
        requires
            key@.len() <= u32::MAX,
            value@.len() <= u32::MAX,
        ensures
            final(self).log@ == old(self).log@ + frame(key@, value@),
            final(self).index@ == old(self).index@.insert(key@, old(self).log@.len() as u64),
            value_under(final(self).log@, final(self).index@, key@) == Ok::<_, StoreError>(
                Some(value@),
            ),
            index_is_sound(old(self).log@, old(self).index@) ==> index_is_sound(
                final(self).log@,
                final(self).index@,
            ),
    {
        proof {
            self.log.lemma_len_fits();
            lemma_insert_then_get(self.log@, self.index@, key@, value@);
            if index_is_sound(self.log@, self.index@) {
                lemma_insert_keeps_sound(self.log@, self.index@, key@, value@);
            }
        }
        let position = self.insert_but_ignore_index(key, value);
        self.index.insert(slice_to_vec(key), position);
    }

    /// Appends a record of `key` and `value` to the log and returns the
    /// offset at which it starts. The index stays as it is.
    pub fn insert_but_ignore_index(&mut self, key: &ByteStr, value: &ByteStr) -> (position: u64)
        requires
            key@.len() <= u32::MAX,
            value@.len() <= u32::MAX,
        ensures
            final(self).log@ == old(self).log@ + frame(key@, value@),
            final(self).index == old(self).index,
            position == old(self).log@.len(),
    {
        let bytes = encode(key, value);
        self.log.append(bytes.as_slice())
    }

    /// The value of the record that the index holds for `key`, if it holds
    /// the key.
    pub fn get(&self, key: &ByteStr) -> (found: Result<Option<ByteString>, StoreError>)
        ensures
            match found {
                Ok(Some(value)) => value_under(self.log@, self.index@, key@) == Ok::<
                    _,
                    StoreError,
                >(Some(value@)),
                Ok(None) => value_under(self.log@, self.index@, key@) == Ok::<
                    Option<Seq<u8>>,
                    StoreError,
                >(None),
                Err(e) => value_under(self.log@, self.index@, key@) == Err::<Option<Seq<u8>>, _>(
                    e,
                ),
            },
    {
        let position = match self.index.get(key) {
            None => {
                return Ok(None);
            },
            Some(position) => position,
        };
        match self.get_at(position) {
            Ok(kv) => Ok(Some(kv.value)),
            Err(e) => Err(e),
        }
    }

    /// The record that starts at `position`.
    pub fn get_at(&self, position: u64) -> (found: Result<KeyValuePair, StoreError>)
        ensures
            match found {
                Ok(kv) => record_at(self.log@, position) matches Ok(at) && at.0 == kv.key@ && at.1
                    == kv.value@,
                Err(e) => record_at(self.log@, position) == Err::<(Seq<u8>, Seq<u8>, int), _>(e),
            },
    {
        match ActionKV::process_record(self.log.bytes(), position) {
            Ok((kv, _)) => Ok(kv),
            Err(e) => Err(e),
        }
    }

    /// The last record of `target` that a scan of the whole log reads: its
    /// offset and its value. The index is not asked.
    pub fn find(&self, target: &ByteStr) -> (found: Result<Option<(u64, ByteString)>, StoreError>)
        ensures
            match found {
                Ok(Some((position, value))) => scan_result(self.log@, 0) is Ok && last_match(
                    records_from(self.log@, 0),
                    target@,
                ) == Some((position, value@)),
                Ok(None) => scan_result(self.log@, 0) is Ok && last_match(
                    records_from(self.log@, 0),
                    target@,
                ) is None,
                Err(e) => scan_result(self.log@, 0) == Err::<(), _>(e),
            },
    {
        let mut found: Option<(u64, ByteString)> = None;
        let mut scan = Scan::new(self.log.bytes(), 0);
        loop
            invariant
                scan.log() == self.log@,
                scan.from() == 0,
                match found {
                    Some((at, value)) => last_match(scan.read(), target@) == Some((at, value@)),
                    None => last_match(scan.read(), target@) is None,
                },
            decreases scan.left(),
        {
            let ghost read = scan.read();
            match scan.next_record() {
                Some(Ok((at, kv))) => {
                    assert(scan.read().drop_last() == read);
                    if same_bytes(kv.key.as_slice(), target) {
                        found = Some((at, kv.value));
                    }
                },
                Some(Err(e)) => {
                    return Err(e);
                },
                None => {
                    return Ok(found);
                },
            }
        }
    }

    /// Stores `value` under `key`, as `insert` does.
    #[inline]
    pub fn update(&mut self, key: &ByteStr, value: &ByteStr)
        requires
            key@.len() <= u32::MAX,
            value@.len() <= u32::MAX,
        ensures
            final(self).log@ == old(self).log@ + frame(key@, value@),
            final(self).index@ == old(self).index@.insert(key@, old(self).log@.len() as u64),
            value_under(final(self).log@, final(self).index@, key@) == Ok::<_, StoreError>(
                Some(value@),
            ),
            index_is_sound(old(self).log@, old(self).index@) ==> index_is_sound(
                final(self).log@,
                final(self).index@,
            ),
    {
        self.insert(key, value)
    }

    /// Deletes `key` by storing the empty value under it. The key stays in
    /// the index, which points at that record.
    #[inline]
    pub fn delete(&mut self, key: &ByteStr)
        requires
            key@.len() <= u32::MAX,
        ensures
            final(self).log@ == old(self).log@ + frame(key@, Seq::<u8>::empty()),
            final(self).index@ == old(self).index@.insert(key@, old(self).log@.len() as u64),
            final(self).index@.contains_key(key@),
            value_under(final(self).log@, final(self).index@, key@) == Ok::<_, StoreError>(
                Some(Seq::<u8>::empty()),
            ),
            index_is_sound(old(self).log@, old(self).index@) ==> index_is_sound(
                final(self).log@,
                final(self).index@,
            ),
    {
        let nothing: Vec<u8> = Vec::new();
        self.insert(key, nothing.as_slice())
    }
}

} // verus!
