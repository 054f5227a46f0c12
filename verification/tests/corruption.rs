use libactionkv::{ActionKV, StoreError};

const STORED: u32 = 0x0afc_bebf;

fn one_record() -> Vec<u8> {
    let mut store = ActionKV::open(Vec::new());
    store.insert(b"key", b"value");
    store.log.bytes().to_vec()
}

#[test]
fn any_flipped_byte_of_key_or_value_is_corruption() {
    let sound = one_record();
    assert_eq!(sound.len(), 12 + 3 + 5);
    for at in 12..sound.len() {
        for mask in [0x01u8, 0x80, 0xff, 0x5a] {
            let mut bytes = sound.clone();
            bytes[at] ^= mask;
            let store = ActionKV::open(bytes);
            match store.get_at(0) {
                Err(StoreError::DataCorruption { offset, computed, stored }) => {
                    assert_eq!(offset, 0);
                    assert_eq!(stored, STORED);
                    assert_ne!(computed, stored);
                },
                other => panic!("byte {} flipped with {:#x}: {:?}", at, mask, other),
            }
        }
    }
}

#[test]
fn a_flipped_checksum_byte_is_corruption() {
    let sound = one_record();
    for at in 0..4 {
        let mut bytes = sound.clone();
        bytes[at] ^= 0x10;
        let store = ActionKV::open(bytes);
        match store.get_at(0) {
            Err(StoreError::DataCorruption { offset, computed, stored }) => {
                assert_eq!(offset, 0);
                assert_eq!(computed, STORED);
                assert_ne!(stored, STORED);
            },
            other => panic!("byte {}: {:?}", at, other),
        }
    }
}

#[test]
fn load_stops_at_a_corrupt_record_and_names_it() {
    let mut store = ActionKV::open(Vec::new());
    store.insert(b"a", b"1");
    store.insert(b"key", b"value");
    store.insert(b"z", b"26");
    let mut bytes = store.log.bytes().to_vec();
    let second = store.index.get(b"key").unwrap();
    bytes[second as usize + 12] ^= 0x20;

    let mut damaged = ActionKV::open(bytes);
    match damaged.load() {
        Err(StoreError::DataCorruption { offset, computed, stored }) => {
            assert_eq!(offset, second);
            assert_eq!(stored, STORED);
            assert_ne!(computed, STORED);
        },
        other => panic!("{:?}", other),
    }
    assert_eq!(damaged.index.len(), 1);
    assert_eq!(damaged.get(b"a"), Ok(Some(b"1".to_vec())));
    assert_eq!(damaged.index.get(b"z"), None);
}

#[test]
fn find_stops_at_a_corrupt_record() {
    let mut store = ActionKV::open(Vec::new());
    store.insert(b"a", b"1");
    store.insert(b"key", b"value");
    let mut bytes = store.log.bytes().to_vec();
    let last = bytes.len() - 1;
    bytes[last] ^= 0x01;
    let damaged = ActionKV::open(bytes);
    assert!(matches!(
        damaged.find(b"a"),
        Err(StoreError::DataCorruption { offset: 14, stored: STORED, .. })
    ));
}

#[test]
fn get_reports_corruption_under_the_key() {
    let mut store = ActionKV::open(Vec::new());
    store.insert(b"a", b"1");
    store.insert(b"key", b"value");
    let index_of_key = store.index.get(b"key").unwrap();
    let mut bytes = store.log.bytes().to_vec();
    bytes[index_of_key as usize + 13] ^= 0x04;
    let mut damaged = ActionKV::open(bytes);
    damaged.index.insert(b"a".to_vec(), 0);
    damaged.index.insert(b"key".to_vec(), index_of_key);
    assert_eq!(damaged.get(b"a"), Ok(Some(b"1".to_vec())));
    assert!(matches!(
        damaged.get(b"key"),
        Err(StoreError::DataCorruption { offset: 14, stored: STORED, .. })
    ));
}
