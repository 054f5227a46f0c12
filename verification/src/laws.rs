//! What holds of the store across calls.
//!
//! Each statement is over the bytes of a log and the map of an index, as the
//! contracts of the store's functions speak of them.

use crate::checksum::crc32_cksum;
use crate::endian::{le_bytes, lemma_le_round_trip};
use crate::error::StoreError;
use crate::record::{decode_at, frame, lemma_decode_frame, Decoded, HEADER_LEN};
use crate::scan::{
    fully_readable, index_of, last_match, lemma_decode_stable, lemma_records_stand,
    lemma_scan_appended, lemma_scan_stop, records_from, scan_result, Located,
};
use crate::store::{holds_key, index_is_sound, value_under};
use vstd::prelude::*;

verus! {

/// A value that was inserted under a key is the value that a lookup of the
/// key then returns.
pub proof fn lemma_insert_then_get(
    log: Seq<u8>,
    index: Map<Seq<u8>, u64>,
    key: Seq<u8>,
    value: Seq<u8>,
)
    requires
        key.len() <= u32::MAX,
        value.len() <= u32::MAX,
        log.len() <= u64::MAX,
    ensures
        value_under(log + frame(key, value), index.insert(key, log.len() as u64), key) == Ok::<
            _,
            StoreError,
        >(Some(value)),
{
    lemma_decode_frame(log, key, value);
}

/// After a key was deleted, a lookup of the key returns the empty value; it
/// does not report the key as missing.
pub proof fn lemma_delete_then_get(log: Seq<u8>, index: Map<Seq<u8>, u64>, key: Seq<u8>)
    requires
        key.len() <= u32::MAX,
        log.len() <= u64::MAX,
    ensures
        index.insert(key, log.len() as u64).contains_key(key),
        value_under(
            log + frame(key, Seq::<u8>::empty()),
            index.insert(key, log.len() as u64),
            key,
        ) == Ok::<_, StoreError>(Some(Seq::<u8>::empty())),
{
    lemma_insert_then_get(log, index, key, Seq::<u8>::empty());
}

/// An insertion leaves what a lookup of any other key returns, where the
/// index held the start of a record for that key or did not hold the key.
pub proof fn lemma_insert_keeps_others(
    log: Seq<u8>,
    index: Map<Seq<u8>, u64>,
    key: Seq<u8>,
    value: Seq<u8>,
    other: Seq<u8>,
)
    requires
        other != key,
        value_under(log, index, other) != Err::<Option<Seq<u8>>, _>(StoreError::EndOfLog),
    ensures
        value_under(log + frame(key, value), index.insert(key, log.len() as u64), other)
            == value_under(log, index, other),
{
    if index.contains_key(other) {
        lemma_decode_stable(log, frame(key, value), index[other] as int);
    }
}

/// An insertion keeps the index sound: where every offset in it was the
/// start of a sound record of its key, every offset still is.
pub proof fn lemma_insert_keeps_sound(
    log: Seq<u8>,
    index: Map<Seq<u8>, u64>,
    key: Seq<u8>,
    value: Seq<u8>,
)
    requires
        index_is_sound(log, index),
        key.len() <= u32::MAX,
        value.len() <= u32::MAX,
        log.len() <= u64::MAX,
    ensures
        index_is_sound(log + frame(key, value), index.insert(key, log.len() as u64)),
{
    let after = index.insert(key, log.len() as u64);
    assert forall|k: Seq<u8>| #[trigger] after.contains_key(k) implies holds_key(
        log + frame(key, value),
        after[k] as int,
        k,
    ) by {
        if k == key {
            lemma_decode_frame(log, key, value);
        } else {
            assert(index.contains_key(k));
            lemma_decode_stable(log, frame(key, value), index[k] as int);
        }
    }
}

/// A lookup through a sound index finds a value for every key of the index.
pub proof fn lemma_sound_index_finds(log: Seq<u8>, index: Map<Seq<u8>, u64>, key: Seq<u8>)
    requires
        index_is_sound(log, index),
        index.contains_key(key),
    ensures
        value_under(log, index, key) matches Ok(Some(_)),
{
}

/// The record of a run that `last_match` reports.
proof fn lemma_last_match_witness(records: Seq<Located>, key: Seq<u8>) -> (i: int)
    requires
        last_match(records, key) is Some,
    ensures
        0 <= i < records.len(),
        records[i].key == key,
        last_match(records, key) == Some((records[i].offset as u64, records[i].value)),
        index_of(records).contains_key(key),
        index_of(records)[key] == records[i].offset as u64,
    decreases records.len(),
{
    if records.last().key == key {
        records.len() - 1
    } else {
        lemma_last_match_witness(records.drop_last(), key)
    }
}

/// A key without a record in the run is not in the index of the run.
proof fn lemma_no_match_no_key(records: Seq<Located>, key: Seq<u8>)
    requires
        last_match(records, key) is None,
    ensures
        !index_of(records).contains_key(key),
    decreases records.len(),
{
    if records.len() > 0 {
        lemma_no_match_no_key(records.drop_last(), key);
    }
}

/// The index that a scan builds and a search of the log agree: for every
/// key, the index holds the offset of the last record of the key, and a
/// lookup through it returns the value of that record.
pub proof fn lemma_index_agrees_with_search(log: Seq<u8>, key: Seq<u8>)
    requires
        log.len() <= u64::MAX,
    ensures
        match last_match(records_from(log, 0), key) {
            Some((position, value)) => {
                &&& index_of(records_from(log, 0)).contains_key(key)
                &&& index_of(records_from(log, 0))[key] == position
                &&& value_under(log, index_of(records_from(log, 0)), key) == Ok::<_, StoreError>(
                    Some(value),
                )
            },
            None => value_under(log, index_of(records_from(log, 0)), key) == Ok::<
                Option<Seq<u8>>,
                StoreError,
            >(None),
        },
{
    let records = records_from(log, 0);
    if last_match(records, key) is Some {
        let i = lemma_last_match_witness(records, key);
        lemma_records_stand(log, 0, i);
        lemma_scan_stop(log, 0);
    } else {
        lemma_no_match_no_key(records, key);
    }
}

/// The index that a scan builds is sound.
pub proof fn lemma_load_is_sound(log: Seq<u8>)
    requires
        log.len() <= u64::MAX,
    ensures
        index_is_sound(log, index_of(records_from(log, 0))),
{
    let records = records_from(log, 0);
    let index = index_of(records);
    assert forall|key: Seq<u8>| #[trigger] index.contains_key(key) implies holds_key(
        log,
        index[key] as int,
        key,
    ) by {
        if last_match(records, key) is Some {
            let i = lemma_last_match_witness(records, key);
            lemma_records_stand(log, 0, i);
            lemma_scan_stop(log, 0);
        } else {
            lemma_no_match_no_key(records, key);
        }
    }
}

/// A scan of a log that was fully readable before a record was appended
/// reads the records it read before and then the new one. The index it
/// builds is the old one with the new record's offset under its key.
pub proof fn lemma_load_after_insert(log: Seq<u8>, key: Seq<u8>, value: Seq<u8>)
    requires
        fully_readable(log),
        key.len() <= u32::MAX,
        value.len() <= u32::MAX,
    ensures
        fully_readable(log + frame(key, value)),
        scan_result(log + frame(key, value), 0) is Ok,
        records_from(log + frame(key, value), 0) == records_from(log, 0).push(
            Located { offset: log.len() as int, key, value },
        ),
        index_of(records_from(log + frame(key, value), 0)) == index_of(
            records_from(log, 0),
        ).insert(key, log.len() as u64),
{
    lemma_scan_appended(log, 0, key, value);
    let added = Located { offset: log.len() as int, key, value };
    assert(records_from(log, 0).push(added).drop_last() == records_from(log, 0));
}

/// The log after the writes of `writes`, each a key and a value, in order.
pub open spec fn log_after(log: Seq<u8>, writes: Seq<(Seq<u8>, Seq<u8>)>) -> Seq<u8>
    decreases writes.len(),
{
    if writes.len() == 0 {
        log
    } else {
        log_after(log, writes.drop_last()) + frame(writes.last().0, writes.last().1)
    }
}

/// The index after the writes of `writes`, in order.
pub open spec fn index_after(
    log: Seq<u8>,
    index: Map<Seq<u8>, u64>,
    writes: Seq<(Seq<u8>, Seq<u8>)>,
) -> Map<Seq<u8>, u64>
    decreases writes.len(),
{
    if writes.len() == 0 {
        index
    } else {
        index_after(log, index, writes.drop_last()).insert(
            writes.last().0,
            log_after(log, writes.drop_last()).len() as u64,
        )
    }
}

/// Every key and value of `writes` is short enough for a record.
pub open spec fn writable(writes: Seq<(Seq<u8>, Seq<u8>)>) -> bool {
    forall|j: int|
        0 <= j < writes.len() ==> (#[trigger] writes[j]).0.len() <= u32::MAX && writes[j].1.len()
            <= u32::MAX
}

/// Writes keep a fully readable log fully readable.
pub proof fn lemma_writes_keep_readable(log: Seq<u8>, writes: Seq<(Seq<u8>, Seq<u8>)>)
    requires
        fully_readable(log),
        writable(writes),
    ensures
        fully_readable(log_after(log, writes)),
        log.len() <= log_after(log, writes).len(),
    decreases writes.len(),
{
    lemma_log_grows(log, writes);
    if writes.len() > 0 {
        let before = writes.drop_last();
        assert(writable(before)) by {
            assert forall|j: int| 0 <= j < before.len() implies (#[trigger] before[j]).0.len()
                <= u32::MAX && before[j].1.len() <= u32::MAX by {
                assert(before[j] == writes[j]);
            }
        }
        lemma_writes_keep_readable(log, before);
        assert(writes[writes.len() - 1] == writes.last());
        lemma_load_after_insert(log_after(log, before), writes.last().0, writes.last().1);
    }
}

/// Writes only add to the log.
pub proof fn lemma_log_grows(log: Seq<u8>, writes: Seq<(Seq<u8>, Seq<u8>)>)
    ensures
        log.len() <= log_after(log, writes).len(),
        writes.len() > 0 ==> log_after(log, writes.drop_last()).len() <= log_after(
            log,
            writes,
        ).len(),
    decreases writes.len(),
{
    if writes.len() > 0 {
        lemma_log_grows(log, writes.drop_last());
    }
}

/// The last write wins. After a run of writes, a lookup of a key returns the
/// value of the last write to that key, and the index holds the offset at
/// which that write's record starts. Where the log was fully readable before
/// the writes, a scan of the log after them builds an index that holds the
/// same offset for the key.
pub proof fn lemma_last_write_wins(
    log: Seq<u8>,
    index: Map<Seq<u8>, u64>,
    writes: Seq<(Seq<u8>, Seq<u8>)>,
    i: int,
)
    requires
        writable(writes),
        log_after(log, writes).len() <= u64::MAX,
        0 <= i < writes.len(),
        forall|j: int| i < j < writes.len() ==> (#[trigger] writes[j]).0 != writes[i].0,
    ensures
        value_under(log_after(log, writes), index_after(log, index, writes), writes[i].0) == Ok::<
            _,
            StoreError,
        >(Some(writes[i].1)),
        index_after(log, index, writes).contains_key(writes[i].0),
        index_after(log, index, writes)[writes[i].0] == log_after(log, writes.take(i)).len(),
        fully_readable(log) ==> {
            &&& scan_result(log_after(log, writes), 0) is Ok
            &&& index_of(records_from(log_after(log, writes), 0)).contains_key(writes[i].0)
            &&& index_of(records_from(log_after(log, writes), 0))[writes[i].0] == log_after(
                log,
                writes.take(i),
            ).len()
        },
    decreases writes.len(),
{
    let before = writes.drop_last();
    let last = writes.last();
    let key = writes[i].0;
    let log_before = log_after(log, before);
    let index_before = index_after(log, index, before);
    lemma_log_grows(log, writes);
    assert(writable(before)) by {
        assert forall|j: int| 0 <= j < before.len() implies (#[trigger] before[j]).0.len()
            <= u32::MAX && before[j].1.len() <= u32::MAX by {
            assert(before[j] == writes[j]);
        }
    }
    assert(writes[writes.len() - 1] == last);
    if i == writes.len() - 1 {
        assert(writes.take(i) == before);
        lemma_insert_then_get(log_before, index_before, last.0, last.1);
        if fully_readable(log) {
            lemma_writes_keep_readable(log, before);
            lemma_load_after_insert(log_before, last.0, last.1);
        }
    } else {
        assert(before[i] == writes[i]);
        assert forall|j: int| i < j < before.len() implies (#[trigger] before[j]).0
            != before[i].0 by {
            assert(before[j] == writes[j]);
        }
        assert(before.take(i) == writes.take(i));
        lemma_last_write_wins(log, index, before, i);
        assert(last.0 != key);
        lemma_insert_keeps_others(log_before, index_before, last.0, last.1, key);
        if fully_readable(log) {
            lemma_writes_keep_readable(log, before);
            lemma_load_after_insert(log_before, last.0, last.1);
        }
    }
}

/// What a read finds where the key and value of a record were replaced by
/// other bytes of the same length. Where the checksum of the new bytes is
/// not the one that the record stores, the read reports corruption, with
/// both checksums. Where it is, the read cannot tell, and returns the new
/// bytes as key and value.
pub proof fn lemma_altered_record(log: Seq<u8>, key: Seq<u8>, value: Seq<u8>, altered: Seq<u8>)
    requires
        key.len() <= u32::MAX,
        value.len() <= u32::MAX,
        altered.len() == key.len() + value.len(),
    ensures
        decode_at(
            log + frame(key, value).subrange(0, HEADER_LEN as int) + altered,
            log.len() as int,
        ) == if crc32_cksum(altered) != crc32_cksum(key + value) {
            Decoded::DataCorruption {
                computed: crc32_cksum(altered),
                stored: crc32_cksum(key + value),
            }
        } else {
            Decoded::Record {
                key: altered.subrange(0, key.len() as int),
                value: altered.subrange(key.len() as int, altered.len() as int),
                next: log.len() + HEADER_LEN + altered.len(),
            }
        },
{
    let head = frame(key, value).subrange(0, HEADER_LEN as int);
    let all = log + head + altered;
    let at = log.len() as int;
    let key_end = at + HEADER_LEN + key.len();
    let end = key_end + value.len();
    lemma_le_round_trip(crc32_cksum(key + value));
    lemma_le_round_trip(key.len() as u32);
    lemma_le_round_trip(value.len() as u32);
    assert(all.subrange(at, at + 4) == le_bytes(crc32_cksum(key + value)));
    assert(all.subrange(at + 4, at + 8) == le_bytes(key.len() as u32));
    assert(all.subrange(at + 8, at + 12) == le_bytes(value.len() as u32));
    assert(all.subrange(at + HEADER_LEN, end) == altered);
    assert(all.subrange(at + HEADER_LEN, key_end) == altered.subrange(0, key.len() as int));
    assert(all.subrange(key_end, end) == altered.subrange(
        key.len() as int,
        altered.len() as int,
    ));
}

} // verus!
