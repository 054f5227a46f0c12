//! The layout of one record in the log.
//!
//! A record is framed as a checksum, the length of the key and the length of
//! the value, each a little-endian `u32`, followed by the key and the value.
//! The checksum covers the key and the value, not the lengths.
//!
//! A log may end inside a record, where a write was cut short. Such a record
//! is not reported as corrupt: reading treats the log as ending before it.

use crate::checksum::{checksum, crc32_cksum};
use crate::endian::{le_bytes, le_value, lemma_le_round_trip, write_u32_le};
use vstd::prelude::*;

verus! {

/// Bytes that are borrowed: a key or a value as it is handed in.
pub type ByteStr = [u8];

/// Bytes that are owned: a key or a value as it is handed out.
pub type ByteString = Vec<u8>;

/// A key and the value stored under it.
#[derive(Debug, Clone, PartialEq, Eq)]
pub struct KeyValuePair {
    pub key: ByteString,
    pub value: ByteString,
}

/// The number of bytes before a record's key.
pub const HEADER_LEN: usize = 12;

/// The bytes that store `key` with `value`.
pub open spec fn frame(key: Seq<u8>, value: Seq<u8>) -> Seq<u8> {
    le_bytes(crc32_cksum(key + value)) + le_bytes(key.len() as u32) + le_bytes(
        value.len() as u32,
    ) + key + value
}

/// What stands at an offset of a log.
pub enum Decoded {
    /// No complete record starts there.
    EndOfLog,
    /// A record whose stored checksum differs from that of its key and value.
    DataCorruption { computed: u32, stored: u32 },
    /// A sound record, which ends where `next` begins.
    Record { key: Seq<u8>, value: Seq<u8>, next: int },
}

/// Reads the record that starts at offset `at` of `log`.
///
/// A record whose header or whose key and value reach past the end of the
/// log is not there: a log cut off inside its last record ends before it.
pub open spec fn decode_at(log: Seq<u8>, at: int) -> Decoded {
    if at < 0 || at + HEADER_LEN > log.len() {
        Decoded::EndOfLog
    } else {
        let stored = le_value(log.subrange(at, at + 4));
        let key_len = le_value(log.subrange(at + 4, at + 8));
        let value_len = le_value(log.subrange(at + 8, at + 12));
        let key_end = at + HEADER_LEN + key_len;
        let end = key_end + value_len;
        if end > log.len() {
            Decoded::EndOfLog
        } else {
            let computed = crc32_cksum(log.subrange(at + HEADER_LEN, end));
            if computed != stored {
                Decoded::DataCorruption { computed, stored }
            } else {
                Decoded::Record {
                    key: log.subrange(at + HEADER_LEN, key_end),
                    value: log.subrange(key_end, end),
                    next: end,
                }
            }
        }
    }
}

/// Appends the bytes of `src` to `out`.
pub(crate) fn append_bytes(out: &mut Vec<u8>, src: &[u8])
    ensures
        final(out)@ == old(out)@ + src@,
{
    out.extend_from_slice(src);
    assert(out@ =~= old(out)@ + src@);
}

/// Frames `key` and `value` as one record.
pub fn encode(key: &ByteStr, value: &ByteStr) -> (bytes: Vec<u8>)
    requires
        key@.len() <= u32::MAX,
        value@.len() <= u32::MAX,
    ensures
        bytes@ == frame(key@, value@),
{
    let mut payload: Vec<u8> = Vec::new();
    append_bytes(&mut payload, key);
    append_bytes(&mut payload, value);
    let sum = checksum(payload.as_slice());
    let mut bytes: Vec<u8> = Vec::new();
    write_u32_le(&mut bytes, sum);
    write_u32_le(&mut bytes, key.len() as u32);
    write_u32_le(&mut bytes, value.len() as u32);
    append_bytes(&mut bytes, payload.as_slice());
    bytes
}

/// A frame that stands at the end of a log reads back as the key and the
/// value that it was made of, and ends where the log ends.
pub proof fn lemma_decode_frame(log: Seq<u8>, key: Seq<u8>, value: Seq<u8>)
    requires
        key.len() <= u32::MAX,
        value.len() <= u32::MAX,
    ensures
        frame(key, value).len() == HEADER_LEN + key.len() + value.len(),
        decode_at(log + frame(key, value), log.len() as int) == (Decoded::Record {
            key,
            value,
            next: log.len() + HEADER_LEN + key.len() + value.len(),
        }),
{
    let f = frame(key, value);
    let all = log + f;
    let at = log.len() as int;
    lemma_le_round_trip(crc32_cksum(key + value));
    lemma_le_round_trip(key.len() as u32);
    lemma_le_round_trip(value.len() as u32);
    assert(all.subrange(at, at + 4) == le_bytes(crc32_cksum(key + value)));
    assert(all.subrange(at + 4, at + 8) == le_bytes(key.len() as u32));
    assert(all.subrange(at + 8, at + 12) == le_bytes(value.len() as u32));
    let key_end = at + HEADER_LEN + key.len();
    let end = key_end + value.len();
    assert(all.subrange(at + HEADER_LEN, end) == key + value);
    assert(all.subrange(at + HEADER_LEN, key_end) == key);
    assert(all.subrange(key_end, end) == value);
}

} // verus!
