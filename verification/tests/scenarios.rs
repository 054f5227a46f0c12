use libactionkv::{ActionKV, StoreError};

fn reopened(store: &ActionKV) -> ActionKV {
    let mut again = ActionKV::open(store.log.bytes().to_vec());
    again.load().unwrap();
    again
}

#[test]
fn insert_then_get_returns_the_value() {
    let mut store = ActionKV::open(Vec::new());
    store.insert(b"apple", b"red");
    assert_eq!(store.get(b"apple"), Ok(Some(b"red".to_vec())));
}

#[test]
fn insert_then_get_round_trips_many_pairs() {
    let mut store = ActionKV::open(Vec::new());
    let pairs: Vec<(Vec<u8>, Vec<u8>)> = vec![
        (vec![], vec![]),
        (vec![0], vec![0, 0, 0]),
        (vec![255; 300], vec![7; 70_000]),
        (b"key with spaces".to_vec(), b"\x00\x01\x02\xff".to_vec()),
    ];
    for (key, value) in &pairs {
        store.insert(key, value);
        assert_eq!(store.get(key), Ok(Some(value.clone())));
    }
    for (key, value) in &pairs {
        assert_eq!(store.get(key), Ok(Some(value.clone())));
    }
}

#[test]
fn get_of_a_missing_key_is_none() {
    let mut store = ActionKV::open(Vec::new());
    assert_eq!(store.get(b"a"), Ok(None));
    store.insert(b"a", b"1");
    assert_eq!(store.get(b"b"), Ok(None));
}

#[test]
fn update_after_two_inserts_reads_the_update() {
    let mut store = ActionKV::open(Vec::new());
    store.insert(b"a", b"1");
    store.insert(b"b", b"2");
    store.update(b"a", b"3");
    assert_eq!(store.get(b"a"), Ok(Some(b"3".to_vec())));
    assert_eq!(store.get(b"b"), Ok(Some(b"2".to_vec())));
}

#[test]
fn delete_leaves_an_empty_value_in_the_index() {
    let mut store = ActionKV::open(Vec::new());
    store.insert(b"a", b"1");
    store.delete(b"a");
    assert_eq!(store.get(b"a"), Ok(Some(Vec::new())));
    assert!(store.index.contains_key(b"a"));
    assert_eq!(store.index.len(), 1);
}

#[test]
fn delete_of_an_unknown_key_adds_it_with_an_empty_value() {
    let mut store = ActionKV::open(Vec::new());
    store.delete(b"ghost");
    assert_eq!(store.get(b"ghost"), Ok(Some(Vec::new())));
    assert_eq!(store.index.get(b"ghost"), Some(0));
}

#[test]
fn three_records_of_one_key_read_the_third() {
    let mut store = ActionKV::open(Vec::new());
    store.insert_but_ignore_index(b"x", b"1");
    store.insert_but_ignore_index(b"x", b"2");
    let third = store.insert_but_ignore_index(b"x", b"3");
    assert!(store.index.is_empty());
    assert_eq!(store.find(b"x"), Ok(Some((third, b"3".to_vec()))));
    store.load().unwrap();
    assert_eq!(store.get(b"x"), Ok(Some(b"3".to_vec())));
    assert_eq!(store.index.get(b"x"), Some(third));
}

#[test]
fn last_write_wins_and_a_reload_agrees() {
    let mut store = ActionKV::open(Vec::new());
    store.insert(b"k", b"first");
    store.insert(b"other", b"o");
    store.update(b"k", b"second");
    store.insert(b"more", b"m");
    store.update(b"k", b"third");
    let offset_of_third = store.index.get(b"k").unwrap();
    store.insert(b"tail", b"t");
    assert_eq!(store.get(b"k"), Ok(Some(b"third".to_vec())));

    let again = reopened(&store);
    assert_eq!(again.index.get(b"k"), Some(offset_of_third));
    assert_eq!(again.get(b"k"), Ok(Some(b"third".to_vec())));
    assert_eq!(again.get_at(offset_of_third).unwrap().value, b"third".to_vec());
    for key in [&b"k"[..], b"other", b"more", b"tail"] {
        assert_eq!(again.index.get(key), store.index.get(key));
    }
    assert_eq!(again.index.len(), 4);
}

#[test]
fn offsets_are_where_the_records_start() {
    let mut store = ActionKV::open(Vec::new());
    assert_eq!(store.insert_but_ignore_index(b"a", b"1"), 0);
    assert_eq!(store.insert_but_ignore_index(b"bc", b""), 14);
    assert_eq!(store.insert_but_ignore_index(b"", b"xyz"), 28);
    assert_eq!(store.log.end(), 43);
    assert_eq!(store.get_at(14).unwrap().key, b"bc".to_vec());
    assert_eq!(store.get_at(28).unwrap().value, b"xyz".to_vec());
}

#[test]
fn insert_lands_at_the_end_after_a_read_elsewhere() {
    let mut store = ActionKV::open(Vec::new());
    store.insert(b"a", b"1");
    store.insert(b"b", b"2");
    assert_eq!(store.get(b"a"), Ok(Some(b"1".to_vec())));
    store.insert(b"c", b"3");
    assert_eq!(store.index.get(b"c"), Some(28));
    assert_eq!(store.get(b"b"), Ok(Some(b"2".to_vec())));
    assert_eq!(store.get(b"c"), Ok(Some(b"3".to_vec())));
}

#[test]
fn load_empties_the_index_first() {
    let mut store = ActionKV::open(Vec::new());
    store.insert(b"a", b"1");
    store.index.insert(b"stray".to_vec(), 999);
    store.load().unwrap();
    assert_eq!(store.index.len(), 1);
    assert_eq!(store.index.get(b"stray"), None);
    assert_eq!(store.index.get(b"a"), Some(0));
}

#[test]
fn load_of_an_empty_log_is_ok() {
    let mut store = ActionKV::open(Vec::new());
    assert_eq!(store.load(), Ok(()));
    assert!(store.index.is_empty());
    assert_eq!(store.find(b"a"), Ok(None));
}

#[test]
fn log_cut_inside_a_record_ends_before_it() {
    let mut store = ActionKV::open(Vec::new());
    store.insert(b"a", b"1");
    store.insert(b"b", b"22");
    let whole = store.log.bytes().to_vec();
    let second = store.index.get(b"b").unwrap() as usize;

    // every cut inside the second record: in its header, key or value
    for cut in second + 1..whole.len() {
        let mut cut_store = ActionKV::open(whole[..cut].to_vec());
        assert_eq!(cut_store.load(), Ok(()));
        assert_eq!(cut_store.index.len(), 1);
        assert_eq!(cut_store.get(b"a"), Ok(Some(b"1".to_vec())));
        assert_eq!(cut_store.get(b"b"), Ok(None));
        assert_eq!(cut_store.find(b"b"), Ok(None));
        assert_eq!(cut_store.get_at(second as u64), Err(StoreError::EndOfLog));
    }
}

#[test]
fn get_at_the_end_or_past_it_is_end_of_log() {
    let mut store = ActionKV::open(Vec::new());
    assert_eq!(store.get_at(0), Err(StoreError::EndOfLog));
    store.insert(b"a", b"1");
    assert_eq!(store.get_at(14), Err(StoreError::EndOfLog));
    assert_eq!(store.get_at(15), Err(StoreError::EndOfLog));
    assert_eq!(store.get_at(u64::MAX), Err(StoreError::EndOfLog));
}

#[test]
fn get_through_a_stale_index_reports_the_read_error() {
    let mut store = ActionKV::open(Vec::new());
    store.insert(b"a", b"1");
    store.index.insert(b"lost".to_vec(), 500);
    assert_eq!(store.get(b"lost"), Err(StoreError::EndOfLog));
}

#[test]
fn a_longer_log_loads_into_the_index_it_was_written_with() {
    let mut store = ActionKV::open(Vec::new());
    for n in 0..400u32 {
        let key = format!("key-{}", n % 100).into_bytes();
        let value = format!("value-{}", n).into_bytes();
        store.insert(&key, &value);
    }
    let again = reopened(&store);
    assert_eq!(again.index.len(), 100);
    for n in 0..100u32 {
        let key = format!("key-{}", n).into_bytes();
        let value = format!("value-{}", n + 300).into_bytes();
        assert_eq!(again.index.get(&key), store.index.get(&key));
        assert_eq!(again.get(&key), Ok(Some(value.clone())));
        let found = again.find(&key).unwrap().unwrap();
        assert_eq!(found, (store.index.get(&key).unwrap(), value));
    }
}

#[test]
fn records_after_a_cut_record_are_read_by_offset_but_not_by_a_scan() {
    // a log that ends in one stray byte, as after a write that was cut short
    let mut store = ActionKV::open(vec![0]);
    assert_eq!(store.load(), Ok(()));
    store.insert(b"k", b"v");
    assert_eq!(store.index.get(b"k"), Some(1));
    assert_eq!(store.get(b"k"), Ok(Some(b"v".to_vec())));

    let again = reopened(&store);
    assert!(again.index.is_empty());
    assert_eq!(again.find(b"k"), Ok(None));
    assert_eq!(again.get_at(1).unwrap().value, b"v".to_vec());
}
