//! The index: for each key, the offset of the record that holds its latest
//! value.

use crate::record::{ByteStr, ByteString};
use std::collections::HashMap;
use vstd::prelude::*;
use vstd::slice::slice_to_vec;
use vstd::std_specs::hash::group_hash_axioms;

verus! {

/// The map that a sequence of entries stands for. Where a key occurs more
/// than once, its last entry counts.
pub open spec fn entries_map(entries: Seq<(Seq<u8>, u64)>) -> Map<Seq<u8>, u64>
    decreases entries.len(),
{
    if entries.len() == 0 {
        Map::empty()
    } else {
        let last = entries.last();
        entries_map(entries.drop_last()).insert(last.0, last.1)
    }
}

/// No key occurs in two entries.
pub open spec fn distinct_keys(entries: Seq<(Seq<u8>, u64)>) -> bool {
    forall|i: int, j: int| 0 <= i < j < entries.len() ==> entries[i].0 != entries[j].0
}

/// The entries of a vector, each key taken as the sequence of its bytes.
pub open spec fn entries_view(entries: Seq<(ByteString, u64)>) -> Seq<(Seq<u8>, u64)> {
    Seq::new(entries.len(), |i: int| (entries[i].0@, entries[i].1))
}

/// The keys of the map are the keys of the entries.
pub proof fn lemma_entries_map_dom(entries: Seq<(Seq<u8>, u64)>, key: Seq<u8>)
    ensures
        entries_map(entries).contains_key(key) <==> exists|i: int|
            0 <= i < entries.len() && #[trigger] entries[i].0 == key,
        entries_map(entries).dom().finite(),
    decreases entries.len(),
{
    if entries.len() > 0 {
        let init = entries.drop_last();
        lemma_entries_map_dom(init, key);
        if entries_map(entries).contains_key(key) {
            if entries.last().0 == key {
                assert(entries[entries.len() - 1].0 == key);
            } else {
                let i = choose|i: int| 0 <= i < init.len() && #[trigger] init[i].0 == key;
                assert(entries[i].0 == key);
            }
        }
        if exists|i: int| 0 <= i < entries.len() && #[trigger] entries[i].0 == key {
            let i = choose|i: int| 0 <= i < entries.len() && #[trigger] entries[i].0 == key;
            if i < entries.len() - 1 {
                assert(init[i].0 == key);
            }
        }
    }
}

/// Where no key occurs twice, the map sends the key of each entry to the
/// offset of that entry.
pub proof fn lemma_entries_map_value(entries: Seq<(Seq<u8>, u64)>, i: int)
    requires
        distinct_keys(entries),
        0 <= i < entries.len(),
    ensures
        entries_map(entries).contains_key(entries[i].0),
        entries_map(entries)[entries[i].0] == entries[i].1,
    decreases entries.len(),
{
    let init = entries.drop_last();
    if i < entries.len() - 1 {
        assert(distinct_keys(init)) by {
            assert forall|a: int, b: int| 0 <= a < b < init.len() implies init[a].0
                != init[b].0 by {
                assert(entries[a].0 != entries[b].0);
            }
        }
        lemma_entries_map_value(init, i);
        assert(init[i] == entries[i]);
        assert(entries[i].0 != entries[entries.len() - 1].0);
    }
}

/// Where no key occurs twice, the map has as many keys as there are entries.
pub proof fn lemma_entries_map_len(entries: Seq<(Seq<u8>, u64)>)
    requires
        distinct_keys(entries),
    ensures
        entries_map(entries).dom().finite(),
        entries_map(entries).dom().len() == entries.len(),
    decreases entries.len(),
{
    if entries.len() > 0 {
        let init = entries.drop_last();
        let last = entries.last();
        assert(distinct_keys(init)) by {
            assert forall|a: int, b: int| 0 <= a < b < init.len() implies init[a].0
                != init[b].0 by {
                assert(entries[a].0 != entries[b].0);
            }
        }
        lemma_entries_map_len(init);
        lemma_entries_map_dom(init, last.0);
        if entries_map(init).contains_key(last.0) {
            let i = choose|i: int| 0 <= i < init.len() && #[trigger] init[i].0 == last.0;
            assert(entries[i].0 == entries[entries.len() - 1].0);
        }
        assert(entries_map(entries).dom() == entries_map(init).dom().insert(last.0));
    } else {
        assert(entries_map(entries).dom() == Set::<Seq<u8>>::empty());
    }
}

/// Replacing the offset of an entry is an insertion under its key.
pub proof fn lemma_entries_map_update(entries: Seq<(Seq<u8>, u64)>, i: int, offset: u64)
    requires
        distinct_keys(entries),
        0 <= i < entries.len(),
    ensures
        distinct_keys(entries.update(i, (entries[i].0, offset))),
        entries_map(entries.update(i, (entries[i].0, offset))) == entries_map(entries).insert(
            entries[i].0,
            offset,
        ),
{
    let key = entries[i].0;
    let after = entries.update(i, (key, offset));
    assert(distinct_keys(after)) by {
        assert forall|a: int, b: int| 0 <= a < b < after.len() implies after[a].0 != after[b].0 by {
            assert(entries[a].0 != entries[b].0);
        }
    }
    let left = entries_map(after);
    let right = entries_map(entries).insert(key, offset);
    assert forall|k: Seq<u8>| left.contains_key(k) <==> right.contains_key(k) by {
        lemma_entries_map_dom(after, k);
        lemma_entries_map_dom(entries, k);
        if left.contains_key(k) {
            let j = choose|j: int| 0 <= j < after.len() && #[trigger] after[j].0 == k;
            assert(entries[j].0 == k);
        }
        if entries_map(entries).contains_key(k) {
            let j = choose|j: int| 0 <= j < entries.len() && #[trigger] entries[j].0 == k;
            assert(after[j].0 == k);
        }
        if k == key {
            assert(after[i].0 == k);
        }
    }
    assert forall|k: Seq<u8>| left.contains_key(k) implies left[k] == right[k] by {
        lemma_entries_map_dom(after, k);
        let j = choose|j: int| 0 <= j < after.len() && #[trigger] after[j].0 == k;
        lemma_entries_map_value(after, j);
        if j != i {
            lemma_entries_map_value(entries, j);
            assert(entries[j].0 != entries[i].0);
        }
    }
    assert(left =~= right);
}

/// Taking an entry out removes its key from the map.
pub proof fn lemma_entries_map_remove(entries: Seq<(Seq<u8>, u64)>, i: int)
    requires
        distinct_keys(entries),
        0 <= i < entries.len(),
    ensures
        distinct_keys(entries.remove(i)),
        entries_map(entries.remove(i)) == entries_map(entries).remove(entries[i].0),
{
    let key = entries[i].0;
    let after = entries.remove(i);
    assert(distinct_keys(after)) by {
        assert forall|a: int, b: int| 0 <= a < b < after.len() implies after[a].0 != after[b].0 by {
            let a0 = if a < i { a } else { a + 1 };
            let b0 = if b < i { b } else { b + 1 };
            assert(entries[a0].0 != entries[b0].0);
        }
    }
    let left = entries_map(after);
    let right = entries_map(entries).remove(key);
    assert forall|k: Seq<u8>| left.contains_key(k) <==> right.contains_key(k) by {
        lemma_entries_map_dom(after, k);
        lemma_entries_map_dom(entries, k);
        if left.contains_key(k) {
            let j = choose|j: int| 0 <= j < after.len() && #[trigger] after[j].0 == k;
            let j0 = if j < i { j } else { j + 1 };
            assert(entries[j0].0 == k);
            assert(entries[j0].0 != entries[i].0);
        }
        if right.contains_key(k) {
            let j = choose|j: int| 0 <= j < entries.len() && #[trigger] entries[j].0 == k;
            let j1 = if j < i { j } else { j - 1 };
            assert(after[j1].0 == k);
        }
    }
    assert forall|k: Seq<u8>| left.contains_key(k) implies left[k] == right[k] by {
        lemma_entries_map_dom(after, k);
        let j = choose|j: int| 0 <= j < after.len() && #[trigger] after[j].0 == k;
        let j0 = if j < i { j } else { j + 1 };
        lemma_entries_map_value(after, j);
        lemma_entries_map_value(entries, j0);
    }
    assert(left =~= right);
}

/// A byte is mixed into the hash of the bytes before it.
spec fn mixed(hash: u64, byte: u8) -> u64 {
    (((hash ^ (byte as u64)) as int * 0x100_0000_01b3) % 0x1_0000_0000_0000_0000) as u64
}

/// The hash under which the index files a key: FNV-1a, in 64 bits.
spec fn hash_of(key: Seq<u8>) -> u64
    decreases key.len(),
{
    if key.len() == 0 {
        0xcbf2_9ce4_8422_2325
    } else {
        mixed(hash_of(key.drop_last()), key.last())
    }
}

/// Computes the hash of `key`.
fn hash_key(key: &ByteStr) -> (hash: u64)
    ensures
        hash == hash_of(key@),
{
    let mut hash: u64 = 0xcbf2_9ce4_8422_2325;
    let mut i: usize = 0;
    while i < key.len()
        invariant
            i <= key@.len(),
            hash == hash_of(key@.subrange(0, i as int)),
        decreases key@.len() - i,
    {
        proof {
            assert(key@.subrange(0, i + 1).drop_last() == key@.subrange(0, i as int));
        }
        let wide: u128 = (hash ^ (key[i] as u64)) as u128;
        hash = ((wide * 0x100_0000_01b3) % 0x1_0000_0000_0000_0000) as u64;
        i += 1;
    }
    assert(key@.subrange(0, key@.len() as int) == key@);
    hash
}

/// The places that are filed under `hash`.
spec fn places_under(places: Map<u64, Vec<usize>>, hash: u64) -> Seq<usize> {
    if places.contains_key(hash) {
        places[hash]@
    } else {
        Seq::empty()
    }
}

/// The place `at` is filed under `hash`.
spec fn listed(places: Map<u64, Vec<usize>>, hash: u64, at: int) -> bool {
    places.contains_key(hash) && exists|j: int|
        0 <= j < places[hash]@.len() && #[trigger] places[hash]@[j] == at
}

/// The places of the first `n` entries are filed, each under the hash of its
/// key, and no other place is.
spec fn filed(entries: Seq<(Seq<u8>, u64)>, n: int, places: Map<u64, Vec<usize>>) -> bool {
    &&& forall|i: int| 0 <= i < n ==> #[trigger] listed(places, hash_of(entries[i].0), i)
    &&& forall|hash: u64, j: int|
        places.contains_key(hash) && 0 <= j < places[hash]@.len() ==> {
            let at = #[trigger] places[hash]@[j];
            at < n && hash_of(entries[at as int].0) == hash
        }
}

/// Under every hash but `hash`, `after` files what `before` files.
spec fn same_elsewhere(
    before: Map<u64, Vec<usize>>,
    after: Map<u64, Vec<usize>>,
    hash: u64,
) -> bool {
    forall|other: u64|
        #![trigger after.contains_key(other)]
        #![trigger before.contains_key(other)]
        other != hash ==> (after.contains_key(other) <==> before.contains_key(other)) && (
        before.contains_key(other) ==> after[other] == before[other])
}

/// What is filed does not depend on the offsets, nor on entries past the
/// first `n`.
proof fn lemma_filed_same_keys(
    before: Seq<(Seq<u8>, u64)>,
    after: Seq<(Seq<u8>, u64)>,
    n: int,
    places: Map<u64, Vec<usize>>,
)
    requires
        filed(before, n, places),
        forall|i: int| 0 <= i < n ==> (#[trigger] before[i]).0 == after[i].0,
    ensures
        filed(after, n, places),
{
    assert forall|i: int| 0 <= i < n implies #[trigger] listed(
        places,
        hash_of(after[i].0),
        i,
    ) by {
        assert(listed(places, hash_of(before[i].0), i));
    }
    assert forall|hash: u64, j: int|
        places.contains_key(hash) && 0 <= j < places[hash]@.len() implies {
        let at = #[trigger] places[hash]@[j];
        at < n && hash_of(after[at as int].0) == hash
    } by {
        let at = places[hash]@[j];
        assert(before[at as int].0 == after[at as int].0);
    }
}

/// Filing the place of entry `n` under the hash of its key files the first
/// `n + 1` entries.
proof fn lemma_filed_one_more(
    entries: Seq<(Seq<u8>, u64)>,
    n: usize,
    places: Map<u64, Vec<usize>>,
    after: Map<u64, Vec<usize>>,
)
    requires
        filed(entries, n as int, places),
        n < entries.len(),
        after.contains_key(hash_of(entries[n as int].0)),
        after[hash_of(entries[n as int].0)]@ == places_under(
            places,
            hash_of(entries[n as int].0),
        ).push(n),
        same_elsewhere(places, after, hash_of(entries[n as int].0)),
    ensures
        filed(entries, n + 1, after),
{
    let new = hash_of(entries[n as int].0);
    let list = places_under(places, new);
    assert forall|i: int| 0 <= i < n + 1 implies #[trigger] listed(
        after,
        hash_of(entries[i].0),
        i,
    ) by {
        let hash = hash_of(entries[i].0);
        if i == n {
            assert(after[hash]@[list.len() as int] == i);
        } else {
            assert(listed(places, hash, i));
            let j = choose|j: int| 0 <= j < places[hash]@.len() && #[trigger] places[hash]@[j] == i;
            assert(after[hash]@[j] == i);
        }
    }
    assert forall|hash: u64, j: int|
        after.contains_key(hash) && 0 <= j < after[hash]@.len() implies {
        let at = #[trigger] after[hash]@[j];
        at < n + 1 && hash_of(entries[at as int].0) == hash
    } by {
        if hash == new {
            if j < list.len() {
                assert(places[hash]@[j] == after[hash]@[j]);
            }
        } else {
            assert(places[hash]@[j] == after[hash]@[j]);
        }
    }
}

/// Files the place `at` under `hash`.
fn file_place(places: &mut HashMap<u64, Vec<usize>>, hash: u64, at: usize)
    ensures
        final(places)@.contains_key(hash),
        final(places)@[hash]@ == places_under(old(places)@, hash).push(at),
        same_elsewhere(old(places)@, final(places)@, hash),
{
    broadcast use group_hash_axioms;

    let mut list: Vec<usize> = match places.remove(&hash) {
        Some(list) => list,
        None => Vec::new(),
    };
    list.push(at);
    places.insert(hash, list);
}

/// Files the place of every entry.
fn places_of(entries: &Vec<(ByteString, u64)>) -> (places: HashMap<u64, Vec<usize>>)
    ensures
        filed(entries_view(entries@), entries@.len() as int, places@),
{
    let mut places: HashMap<u64, Vec<usize>> = HashMap::new();
    let mut n: usize = 0;
    while n < entries.len()
        invariant
            n <= entries@.len(),
            filed(entries_view(entries@), n as int, places@),
        decreases entries@.len() - n,
    {
        let ghost before = places@;
        let hash = hash_key(entries[n].0.as_slice());
        file_place(&mut places, hash, n);
        proof {
            lemma_filed_one_more(entries_view(entries@), n, before, places@);
        }
        n += 1;
    }
    places
}

/// A map from keys to offsets in the log.
///
/// It is kept as a list of entries in which no key occurs twice. To find a
/// key without a walk through the list, the place of each entry is filed
/// under the hash of its key, in a hash map from numbers. (Of a hash map
/// from byte strings nothing could be proved here: what is known of the
/// standard map holds for keys whose hashing and equality are known to
/// agree, which is given for numbers and not for vectors of bytes.)
///
/// Where the index changes, the list and the places are taken out, changed
/// and put back together, so that the two agree whenever the index is
/// looked at.
#[derive(Debug)]
pub struct Index {
    entries: Vec<(ByteString, u64)>,
    places: HashMap<u64, Vec<usize>>,
}

impl View for Index {
    type V = Map<Seq<u8>, u64>;

    closed spec fn view(&self) -> Map<Seq<u8>, u64> {
        entries_map(entries_view(self.entries@))
    }
}

impl Index {
    #[verifier::type_invariant]
    spec fn well_formed(&self) -> bool {
        &&& distinct_keys(entries_view(self.entries@))
        &&& filed(entries_view(self.entries@), self.entries@.len() as int, self.places@)
    }

    /// An index without keys.
    pub fn new() -> (index: Index)
        ensures
            index@ == Map::<Seq<u8>, u64>::empty(),
    {
        Index { entries: Vec::new(), places: HashMap::new() }
    }

    /// Where the entry of `key` stands, if it has one.
    fn position(&self, key: &ByteStr) -> (at: Option<usize>)
        ensures
            match at {
                Some(i) => i < self.entries@.len() && self.entries@[i as int].0@ == key@,
                None => forall|j: int|
                    0 <= j < self.entries@.len() ==> (#[trigger] self.entries@[j]).0@ != key@,
            },
    {
        broadcast use group_hash_axioms;

        let ghost entries = entries_view(self.entries@);
        proof {
            use_type_invariant(self);
        }
        let hash = hash_key(key);
        match self.places.get(&hash) {
            None => {
                assert forall|j: int| 0 <= j < entries.len() implies #[trigger] entries[j].0
                    != key@ by {
                    if entries[j].0 == key@ {
                        assert(listed(self.places@, hash_of(entries[j].0), j));
                    }
                }
                assert forall|j: int| 0 <= j < self.entries@.len() implies (
                    #[trigger] self.entries@[j]
                ).0@ != key@ by {
                    assert(entries[j].0 != key@);
                }
                None
            },
            Some(list) => {
                let mut k: usize = 0;
                while k < list.len()
                    invariant
                        k <= list@.len(),
                        self.places@.contains_key(hash),
                        self.places@[hash] == *list,
                        filed(
                            entries_view(self.entries@),
                            self.entries@.len() as int,
                            self.places@,
                        ),
                        forall|m: int|
                            0 <= m < k ==> self.entries@[(#[trigger] list@[m]) as int].0@ != key@,
                    decreases list@.len() - k,
                {
                    let at = list[k];
                    assert(at == self.places@[hash]@[k as int]);
                    if same_bytes(self.entries[at].0.as_slice(), key) {
                        return Some(at);
                    }
                    k += 1;
                }
                assert forall|j: int| 0 <= j < entries.len() implies #[trigger] entries[j].0
                    != key@ by {
                    if entries[j].0 == key@ {
                        assert(listed(self.places@, hash_of(entries[j].0), j));
                        let m = choose|m: int|
                            0 <= m < list@.len() && #[trigger] self.places@[hash]@[m] == j;
                        assert(self.entries@[list@[m] as int].0@ != key@);
                    }
                }
                assert forall|j: int| 0 <= j < self.entries@.len() implies (
                    #[trigger] self.entries@[j]
                ).0@ != key@ by {
                    assert(entries[j].0 != key@);
                }
                None
            },
        }
    }

    /// The offset stored under `key`.
    pub fn get(&self, key: &ByteStr) -> (offset: Option<u64>)
        ensures
            offset == if self@.contains_key(key@) {
                Some(self@[key@])
            } else {
                None
            },
    {
        let ghost entries = entries_view(self.entries@);
        proof {
            use_type_invariant(self);
            lemma_entries_map_dom(entries, key@);
        }
        match self.position(key) {
            Some(i) => {
                proof {
                    assert(entries[i as int].0 == key@);
                    lemma_entries_map_value(entries, i as int);
                }
                Some(self.entries[i].1)
            },
            None => {
                proof {
                    if self@.contains_key(key@) {
                        let j = choose|j: int|
                            0 <= j < entries.len() && #[trigger] entries[j].0 == key@;
                        assert(self.entries@[j].0@ == key@);
                    }
                }
                None
            },
        }
    }

    /// Whether an offset is stored under `key`.
    pub fn contains_key(&self, key: &ByteStr) -> (found: bool)
        ensures
            found == self@.contains_key(key@),
    {
        self.get(key).is_some()
    }

    /// The number of keys.
    pub fn len(&self) -> (n: usize)
        ensures
            self@.dom().finite(),
            n == self@.len(),
    {
        proof {
            use_type_invariant(self);
            lemma_entries_map_len(entries_view(self.entries@));
        }
        self.entries.len()
    }

    /// Whether the index has no key.
    pub fn is_empty(&self) -> (empty: bool)
        ensures
            empty == (self@ == Map::<Seq<u8>, u64>::empty()),
    {
        proof {
            let entries = entries_view(self.entries@);
            if entries.len() > 0 {
                lemma_entries_map_dom(entries, entries[0].0);
            } else {
                assert(self@ =~= Map::<Seq<u8>, u64>::empty());
            }
        }
        self.entries.len() == 0
    }

    /// The entries of the index, each key once, in no order that callers
    /// may rely on.
    pub fn entries(&self) -> (entries: &Vec<(ByteString, u64)>)
        ensures
            distinct_keys(entries_view(entries@)),
            entries_map(entries_view(entries@)) == self@,
    {
        proof {
            use_type_invariant(self);
        }
        &self.entries
    }

    /// The index that `entries` stand for. Where a key occurs more than
    /// once, its last entry counts.
    pub fn from_entries(entries: &Vec<(ByteString, u64)>) -> (index: Index)
        ensures
            index@ == entries_map(entries_view(entries@)),
    {
        let mut index = Index::new();
        let mut i: usize = 0;
        while i < entries.len()
            invariant
                i <= entries@.len(),
                index@ == entries_map(entries_view(entries@.subrange(0, i as int))),
            decreases entries@.len() - i,
        {
            proof {
                let before = entries_view(entries@.subrange(0, i as int));
                let after = entries_view(entries@.subrange(0, i + 1));
                assert(after.drop_last() == before);
                assert(after.last() == (entries@[i as int].0@, entries@[i as int].1));
            }
            index.insert(slice_to_vec(entries[i].0.as_slice()), entries[i].1);
            i += 1;
        }
        assert(entries@.subrange(0, entries@.len() as int) == entries@);
        index
    }

    /// Stores `offset` under `key` and returns the offset that was stored
    /// there before.
    pub fn insert(&mut self, key: ByteString, offset: u64) -> (before: Option<u64>)
        ensures
            final(self)@ == old(self)@.insert(key@, offset),
            before == if old(self)@.contains_key(key@) {
                Some(old(self)@[key@])
            } else {
                None
            },
    {
        let ghost entries = entries_view(self.entries@);
        proof {
            use_type_invariant(&*self);
            lemma_entries_map_dom(entries, key@);
        }
        let found = self.position(key.as_slice());
        let hash = hash_key(key.as_slice());
        let mut taken = Index::new();
        core::mem::swap(self, &mut taken);
        let mut list = taken.entries;
        let mut places = taken.places;
        let before = match found {
            Some(i) => {
                let before = list[i].1;
                proof {
                    assert(entries[i as int].0 == key@);
                    lemma_entries_map_value(entries, i as int);
                    lemma_entries_map_update(entries, i as int, offset);
                    let after = entries.update(i as int, (key@, offset));
                    assert(entries_view(list@.update(i as int, (key, offset))) == after);
                    lemma_filed_same_keys(entries, after, entries.len() as int, places@);
                }
                list[i] = (key, offset);
                Some(before)
            },
            None => {
                let ghost after = entries.push((key@, offset));
                let ghost places_before = places@;
                proof {
                    if entries_map(entries).contains_key(key@) {
                        let j = choose|j: int|
                            0 <= j < entries.len() && #[trigger] entries[j].0 == key@;
                        assert(list@[j].0@ == key@);
                    }
                    assert(entries_view(list@.push((key, offset))) == after);
                    assert(after.drop_last() == entries);
                    assert(distinct_keys(after)) by {
                        assert forall|a: int, b: int| 0 <= a < b < after.len() implies after[a].0
                            != after[b].0 by {
                            if b < entries.len() {
                                assert(entries[a].0 != entries[b].0);
                            } else {
                                assert(list@[a].0@ != key@);
                            }
                        }
                    }
                    lemma_filed_same_keys(entries, after, entries.len() as int, places@);
                }
                file_place(&mut places, hash, list.len());
                proof {
                    lemma_filed_one_more(after, list.len(), places_before, places@);
                }
                list.push((key, offset));
                None
            },
        };
        *self = Index { entries: list, places };
        before
    }

    /// Takes `key` out and returns the offset that was stored under it.
    ///
    /// The entries after it move up, so every place is filed anew: this
    /// takes time in the number of keys.
    pub fn remove(&mut self, key: &ByteStr) -> (before: Option<u64>)
        ensures
            final(self)@ == old(self)@.remove(key@),
            before == if old(self)@.contains_key(key@) {
                Some(old(self)@[key@])
            } else {
                None
            },
    {
        let ghost entries = entries_view(self.entries@);
        proof {
            use_type_invariant(&*self);
            lemma_entries_map_dom(entries, key@);
        }
        match self.position(key) {
            Some(i) => {
                proof {
                    assert(entries[i as int].0 == key@);
                    lemma_entries_map_value(entries, i as int);
                    lemma_entries_map_remove(entries, i as int);
                    assert(entries_view(self.entries@.remove(i as int)) == entries.remove(
                        i as int,
                    ));
                }
                let mut taken = Index::new();
                core::mem::swap(self, &mut taken);
                let mut list = taken.entries;
                let entry = list.remove(i);
                let places = places_of(&list);
                *self = Index { entries: list, places };
                Some(entry.1)
            },
            None => {
                proof {
                    if self@.contains_key(key@) {
                        let j = choose|j: int|
                            0 <= j < entries.len() && #[trigger] entries[j].0 == key@;
                        assert(self.entries@[j].0@ == key@);
                    }
                    assert(self@.remove(key@) =~= self@);
                }
                None
            },
        }
    }
}

/// Whether two byte strings hold the same bytes.
pub fn same_bytes(a: &ByteStr, b: &ByteStr) -> (same: bool)
    ensures
        same == (a@ == b@),
{
    if a.len() != b.len() {
        return false;
    }
    let mut i: usize = 0;
    while i < a.len()
        invariant
            a@.len() == b@.len(),
            i <= a@.len(),
            forall|j: int| 0 <= j < i ==> a@[j] == b@[j],
        decreases a@.len() - i,
    {
        if a[i] != b[i] {
            return false;
        }
        i += 1;
    }
    assert(a@ =~= b@);
    true
}

} // verus!
