//! The index kept in the log itself.
//!
//! The index can be written to the log as the value of a record under a key
//! that is set aside for it. A later run reads that one record in place of
//! every record of the log.
//!
//! The value is laid out as a count of entries and then, for each entry, the
//! length of its key, the key and its offset. The count, the lengths and the
//! offsets are 64-bit numbers, least significant byte first.

use crate::endian::le_bytes_u64;
use crate::error::StoreError;
use crate::index::{distinct_keys, entries_map, entries_view, Index};
use crate::record::{frame, ByteStr, ByteString};
use crate::store::{index_is_sound, value_under, ActionKV};
use vstd::prelude::*;
use vstd::slice::slice_to_vec;

verus! {

/// The bytes of one entry: the length of its key, the key and its offset.
pub open spec fn entry_image(entry: (Seq<u8>, u64)) -> Seq<u8> {
    le_bytes_u64(entry.0.len() as u64) + entry.0 + le_bytes_u64(entry.1)
}

/// The bytes of the entries, one after the other.
pub open spec fn entries_image(entries: Seq<(Seq<u8>, u64)>) -> Seq<u8>
    decreases entries.len(),
{
    if entries.len() == 0 {
        Seq::empty()
    } else {
        entries_image(entries.drop_last()) + entry_image(entries.last())
    }
}

/// The bytes that hold a list of entries: their count, then the entries.
pub open spec fn snapshot_image(entries: Seq<(Seq<u8>, u64)>) -> Seq<u8> {
    le_bytes_u64(entries.len() as u64) + entries_image(entries)
}

/// The list of entries that `bincode::deserialize` reads from `bytes`, if it
/// reads one.
pub uninterp spec fn bincode_entries(bytes: Seq<u8>) -> Option<Seq<(Seq<u8>, u64)>>;

/// Calls `bincode::serialize` on the entries.
///
/// Not proved: that the call does not fail on a list of entries; that it
/// lays them out as `snapshot_image` says, with every number in eight bytes,
/// least significant first; and that `bincode::deserialize` reads the same
/// entries back from those bytes.
#[verifier::external_body]
pub(crate) fn entries_to_bytes(entries: &Vec<(ByteString, u64)>) -> (bytes: Vec<u8>)
    ensures
        bytes@ == snapshot_image(entries_view(entries@)),
        bincode_entries(bytes@) == Some(entries_view(entries@)),
{
    bincode::serialize(entries).unwrap()
}

/// Calls `bincode::deserialize` on the bytes, for a list of entries.
///
/// Not proved: that what it reads, or that it reads nothing, depends on the
/// bytes alone.
#[verifier::external_body]
pub(crate) fn entries_from_bytes(bytes: &ByteStr) -> (entries: Option<Vec<(ByteString, u64)>>)
    ensures
        match entries {
            Some(e) => bincode_entries(bytes@) == Some(entries_view(e@)),
            None => bincode_entries(bytes@) is None,
        },
{
    bincode::deserialize(bytes).ok()
}

/// The index that is read from the record that `index` holds for `key`.
pub open spec fn snapshot_under(log: Seq<u8>, index: Map<Seq<u8>, u64>, key: Seq<u8>) -> Result<
    Map<Seq<u8>, u64>,
    StoreError,
> {
    match value_under(log, index, key) {
        Err(e) => Err(e),
        Ok(None) => Err(StoreError::SnapshotMissing),
        Ok(Some(bytes)) => match bincode_entries(bytes) {
            None => Err(StoreError::SnapshotInvalid),
            Some(entries) => Ok(entries_map(entries)),
        },
    }
}

/// What storing the index does where `entries` is the list that is written:
/// the log gains one record, of `index_key` and the bytes of the list, if
/// those bytes fit into the value of a record, and stays as it is if not.
pub open spec fn snapshot_stored(
    before: Seq<u8>,
    after: Seq<u8>,
    index_key: Seq<u8>,
    entries: Seq<(Seq<u8>, u64)>,
    stored: Result<(), StoreError>,
) -> bool {
    match stored {
        Ok(()) => snapshot_image(entries).len() <= u32::MAX && after == before + frame(
            index_key,
            snapshot_image(entries),
        ),
        Err(e) => snapshot_image(entries).len() > u32::MAX && e == StoreError::SnapshotInvalid
            && after == before,
    }
}

/// The bytes of a list of entries are no longer than eight bytes and, for
/// each entry, sixteen bytes and the longest key.
pub proof fn lemma_snapshot_image_len(entries: Seq<(Seq<u8>, u64)>, longest: nat)
    requires
        forall|i: int| 0 <= i < entries.len() ==> (#[trigger] entries[i]).0.len() <= longest,
    ensures
        entries_image(entries).len() <= entries.len() * (16 + longest),
        snapshot_image(entries).len() <= 8 + entries.len() * (16 + longest),
    decreases entries.len(),
{
    if entries.len() > 0 {
        let init = entries.drop_last();
        assert forall|i: int| 0 <= i < init.len() implies (#[trigger] init[i]).0.len()
            <= longest by {
            assert(init[i] == entries[i]);
        }
        lemma_snapshot_image_len(init, longest);
        assert(entries[entries.len() - 1].0.len() <= longest);
        assert(init.len() * (16 + longest) + (16 + longest) == entries.len() * (16 + longest))
            by (nonlinear_arith)
            requires
                init.len() + 1 == entries.len(),
        ;
    } else {
        assert(entries.len() * (16 + longest) == 0) by (nonlinear_arith)
            requires
                entries.len() == 0,
        ;
    }
}

/// Writes the index to the log, as the value of a record under `index_key`.
///
/// The entry of `index_key` itself is left out of what is written. The log
/// gains that one record, and the index points `index_key` at it; every
/// other key keeps its offset. Reading the index back from the record gives
/// the index as it was, without `index_key`.
///
/// Where what is to be written is too long for the value of a record,
/// nothing changes.
pub fn store_index_on_disk(a: &mut ActionKV, index_key: &ByteStr) -> (stored: Result<
    (),
    StoreError,
>)
    requires
        index_key@.len() <= u32::MAX,
    ensures
        exists|entries: Seq<(Seq<u8>, u64)>|
            {
                &&& distinct_keys(entries)
                &&& entries_map(entries) == old(a).index@.remove(index_key@)
                &&& #[trigger] snapshot_stored(
                    old(a).log@,
                    final(a).log@,
                    index_key@,
                    entries,
                    stored,
                )
            },
        match stored {
            Ok(()) => {
                &&& final(a).index@ == old(a).index@.insert(
                    index_key@,
                    old(a).log@.len() as u64,
                )
                &&& snapshot_under(final(a).log@, final(a).index@, index_key@) == Ok::<
                    _,
                    StoreError,
                >(old(a).index@.remove(index_key@))
            },
            Err(_) => final(a).index@ == old(a).index@,
        },
        index_is_sound(old(a).log@, old(a).index@) ==> index_is_sound(
            final(a).log@,
            final(a).index@,
        ),
{
    proof {
        a.log.lemma_len_fits();
    }
    let before = a.index.remove(index_key);
    let list = a.index.entries();
    let ghost entries = entries_view(list@);
    let snapshot = entries_to_bytes(list);
    if snapshot.len() > u32::MAX as usize {
        if let Some(offset) = before {
            a.index.insert(slice_to_vec(index_key), offset);
        }
        assert(a.index@ =~= old(a).index@);
        assert(snapshot_stored(
            old(a).log@,
            a.log@,
            index_key@,
            entries,
            Err(StoreError::SnapshotInvalid),
        ));
        return Err(StoreError::SnapshotInvalid);
    }
    a.insert(index_key, snapshot.as_slice());
    assert(a.index@ =~= old(a).index@.insert(index_key@, old(a).log@.len() as u64));
    assert(snapshot_stored(old(a).log@, a.log@, index_key@, entries, Ok(())));
    Ok(())
}

/// Reads the index from the record that the index of `a` holds for
/// `index_key`.
pub fn load_index_from_disk(a: &ActionKV, index_key: &ByteStr) -> (loaded: Result<
    Index,
    StoreError,
>)
    ensures
        match loaded {
            Ok(index) => snapshot_under(a.log@, a.index@, index_key@) == Ok::<_, StoreError>(
                index@,
            ),
            Err(e) => snapshot_under(a.log@, a.index@, index_key@) == Err::<Map<Seq<u8>, u64>, _>(
                e,
            ),
        },
{
    let snapshot = match a.get(index_key) {
        Err(e) => {
            return Err(e);
        },
        Ok(None) => {
            return Err(StoreError::SnapshotMissing);
        },
        Ok(Some(bytes)) => bytes,
    };
    match entries_from_bytes(snapshot.as_slice()) {
        None => Err(StoreError::SnapshotInvalid),
        Some(entries) => Ok(Index::from_entries(&entries)),
    }
}

} // verus!
