//! What a forward scan of the log finds.
//!
//! A scan starts at an offset and reads record after record until no sound
//! record starts where the last one ended. The index is what such a scan
//! leaves when each record replaces what was known of its key.

use crate::endian::le_value;
use crate::error::StoreError;
use crate::record::{
    decode_at, frame, lemma_decode_frame, ByteStr, Decoded, KeyValuePair, HEADER_LEN,
};
use crate::store::ActionKV;
use vstd::prelude::*;

verus! {

/// A record and the offset at which it starts.
pub struct Located {
    pub offset: int,
    pub key: Seq<u8>,
    pub value: Seq<u8>,
}

/// The records that a scan of `log` from offset `at` reads, in log order.
pub open spec fn records_from(log: Seq<u8>, at: int) -> Seq<Located>
    decreases log.len() - at,
{
    match decode_at(log, at) {
        Decoded::Record { key, value, next } => seq![Located { offset: at, key, value }]
            + records_from(log, next),
        _ => Seq::empty(),
    }
}

/// The offset at which a scan of `log` from offset `at` stops: the first
/// offset it reaches at which no sound record starts.
pub open spec fn scan_stop(log: Seq<u8>, at: int) -> int
    decreases log.len() - at,
{
    match decode_at(log, at) {
        Decoded::Record { key, value, next } => scan_stop(log, next),
        _ => at,
    }
}

/// How a scan of `log` from offset `from` ends: well where it runs out of
/// records, and with the corrupt record where it meets one.
pub open spec fn scan_result(log: Seq<u8>, from: int) -> Result<(), StoreError> {
    let stop = scan_stop(log, from);
    match decode_at(log, stop) {
        Decoded::DataCorruption { computed, stored } => Err(
            StoreError::DataCorruption { offset: stop as u64, computed, stored },
        ),
        _ => Ok(()),
    }
}

/// A scan of the whole log reads every byte of it: the log is a run of sound
/// records and nothing else.
pub open spec fn fully_readable(log: Seq<u8>) -> bool {
    scan_stop(log, 0) == log.len()
}

/// The index that a run of records leaves: each key with the offset of its
/// last record.
pub open spec fn index_of(records: Seq<Located>) -> Map<Seq<u8>, u64>
    decreases records.len(),
{
    if records.len() == 0 {
        Map::empty()
    } else {
        let last = records.last();
        index_of(records.drop_last()).insert(last.key, last.offset as u64)
    }
}

/// The last record of the run whose key is `key`: its offset and its value.
pub open spec fn last_match(records: Seq<Located>, key: Seq<u8>) -> Option<(u64, Seq<u8>)>
    decreases records.len(),
{
    if records.len() == 0 {
        None
    } else {
        let last = records.last();
        if last.key == key {
            Some((last.offset as u64, last.value))
        } else {
            last_match(records.drop_last(), key)
        }
    }
}

/// A scan stops where no sound record starts, at or after the offset it
/// started from.
pub proof fn lemma_scan_stop(log: Seq<u8>, at: int)
    ensures
        !(decode_at(log, scan_stop(log, at)) is Record),
        at <= scan_stop(log, at),
        0 <= at <= log.len() ==> scan_stop(log, at) <= log.len(),
    decreases log.len() - at,
{
    match decode_at(log, at) {
        Decoded::Record { key, value, next } => {
            lemma_scan_stop(log, next);
        },
        _ => {},
    }
}

/// Each record that a scan reads stands in the log at its offset.
pub proof fn lemma_records_stand(log: Seq<u8>, at: int, i: int)
    requires
        0 <= i < records_from(log, at).len(),
    ensures
        at <= records_from(log, at)[i].offset < scan_stop(log, at),
        decode_at(log, records_from(log, at)[i].offset) matches Decoded::Record { key, value, next }
            && key == records_from(log, at)[i].key && value == records_from(log, at)[i].value,
    decreases log.len() - at,
{
    match decode_at(log, at) {
        Decoded::Record { key, value, next } => {
            if i > 0 {
                lemma_records_stand(log, next, i - 1);
            } else {
                lemma_scan_stop(log, next);
            }
        },
        _ => {},
    }
}

/// A sound or corrupt record reads the same after bytes are appended to the
/// log.
pub proof fn lemma_decode_stable(log: Seq<u8>, more: Seq<u8>, at: int)
    requires
        !(decode_at(log, at) is EndOfLog),
    ensures
        decode_at(log + more, at) == decode_at(log, at),
{
    let all = log + more;
    assert(all.subrange(at, at + 4) == log.subrange(at, at + 4));
    assert(all.subrange(at + 4, at + 8) == log.subrange(at + 4, at + 8));
    assert(all.subrange(at + 8, at + 12) == log.subrange(at + 8, at + 12));
    let key_len = le_value(log.subrange(at + 4, at + 8));
    let value_len = le_value(log.subrange(at + 8, at + 12));
    let key_end = at + HEADER_LEN + key_len;
    let end = key_end + value_len;
    assert(all.subrange(at + HEADER_LEN, end) == log.subrange(at + HEADER_LEN, end));
    assert(all.subrange(at + HEADER_LEN, key_end) == log.subrange(at + HEADER_LEN, key_end));
    assert(all.subrange(key_end, end) == log.subrange(key_end, end));
}

/// What a scan from `at` reads once a record is appended to a log that the
/// scan read to its end: the same records, then the new one, and again all
/// of the log.
pub proof fn lemma_scan_appended(log: Seq<u8>, at: int, key: Seq<u8>, value: Seq<u8>)
    requires
        0 <= at,
        scan_stop(log, at) == log.len(),
        key.len() <= u32::MAX,
        value.len() <= u32::MAX,
    ensures
        records_from(log + frame(key, value), at) == records_from(log, at).push(
            Located { offset: log.len() as int, key, value },
        ),
        scan_stop(log + frame(key, value), at) == (log + frame(key, value)).len(),
    decreases log.len() - at,
{
    let all = log + frame(key, value);
    match decode_at(log, at) {
        Decoded::Record { key: k, value: v, next } => {
            lemma_decode_stable(log, frame(key, value), at);
            lemma_scan_appended(log, next, key, value);
            let first = seq![Located { offset: at, key: k, value: v }];
            let added = Located { offset: log.len() as int, key, value };
            assert(first + records_from(log, next).push(added) == (first + records_from(
                log,
                next,
            )).push(added));
        },
        _ => {
            assert(at == log.len());
            lemma_decode_frame(log, key, value);
            assert(decode_at(all, all.len() as int) is EndOfLog);
            assert(records_from(all, all.len() as int) == Seq::<Located>::empty());
            assert(scan_stop(all, all.len() as int) == all.len());
            let added = Located { offset: log.len() as int, key, value };
            assert(seq![added] + Seq::<Located>::empty() == Seq::<Located>::empty().push(added));
        },
    }
}

/// A scan under way. It hands out the records of a log one by one, in log
/// order, from the offset it was started at.
pub struct Scan<'a> {
    log: &'a ByteStr,
    position: u64,
    from: Ghost<int>,
    read: Ghost<Seq<Located>>,
}

impl<'a> Scan<'a> {
    /// The log that is scanned.
    pub closed spec fn log(&self) -> Seq<u8> {
        self.log@
    }

    /// The offset at which the scan started.
    pub closed spec fn from(&self) -> int {
        self.from@
    }

    /// The records handed out so far.
    pub closed spec fn read(&self) -> Seq<Located> {
        self.read@
    }

    /// The bytes that the scan has not passed yet.
    pub closed spec fn left(&self) -> nat {
        if self.position <= self.log@.len() {
            (self.log@.len() - self.position) as nat
        } else {
            0
        }
    }

    #[verifier::type_invariant]
    spec fn in_step(&self) -> bool {
        &&& records_from(self.log@, self.from@) == self.read@ + records_from(
            self.log@,
            self.position as int,
        )
        &&& scan_stop(self.log@, self.from@) == scan_stop(self.log@, self.position as int)
    }

    /// A scan of `log` that starts at offset `from`.
    pub fn new(log: &'a ByteStr, from: u64) -> (scan: Scan<'a>)
        ensures
            scan.log() == log@,
            scan.from() == from,
            scan.read() == Seq::<Located>::empty(),
    {
        assert(Seq::<Located>::empty() + records_from(log@, from as int) == records_from(
            log@,
            from as int,
        ));
        Scan { log, position: from, from: Ghost(from as int), read: Ghost(Seq::empty()) }
    }

    /// Hands out the next record with its offset, or says how the scan
    /// ended: with `None` where no record is left, with the error where the
    /// next record is corrupt. Once it has ended it ends the same way again.
    pub fn next_record(&mut self) -> (step: Option<Result<(u64, KeyValuePair), StoreError>>)
        ensures
            final(self).log() == old(self).log(),
            final(self).from() == old(self).from(),
            match step {
                Some(Ok((at, kv))) => {
                    let located = Located { offset: at as int, key: kv.key@, value: kv.value@ };
                    &&& final(self).read() == old(self).read().push(located)
                    &&& old(self).read().len() < records_from(
                        old(self).log(),
                        old(self).from(),
                    ).len()
                    &&& records_from(old(self).log(), old(self).from())[old(
                        self,
                    ).read().len() as int] == located
                    &&& final(self).left() < old(self).left()
                },
                Some(Err(e)) => {
                    &&& final(self).read() == old(self).read()
                    &&& old(self).read() == records_from(old(self).log(), old(self).from())
                    &&& scan_result(old(self).log(), old(self).from()) == Err::<(), _>(e)
                },
                None => {
                    &&& final(self).read() == old(self).read()
                    &&& old(self).read() == records_from(old(self).log(), old(self).from())
                    &&& scan_result(old(self).log(), old(self).from()) == Ok::<_, StoreError>(())
                },
            },
    {
        proof {
            use_type_invariant(&*self);
        }
        let ghost read = self.read@;
        match ActionKV::process_record(self.log, self.position) {
            Ok((kv, next)) => {
                let at = self.position;
                let ghost located = Located { offset: at as int, key: kv.key@, value: kv.value@ };
                proof {
                    let rest = records_from(self.log@, next as int);
                    assert(read + (seq![located] + rest) == read.push(located) + rest);
                    assert((read + (seq![located] + rest))[read.len() as int] == located);
                }
                *self = Scan {
                    log: self.log,
                    position: next,
                    from: self.from,
                    read: Ghost(read.push(located)),
                };
                Some(Ok((at, kv)))
            },
            Err(StoreError::EndOfLog) => {
                assert(read + Seq::<Located>::empty() == read);
                None
            },
            Err(e) => {
                assert(read + Seq::<Located>::empty() == read);
                Some(Err(e))
            },
        }
    }
}

} // verus!
