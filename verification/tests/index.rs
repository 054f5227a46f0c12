use libactionkv::index::same_bytes;
use libactionkv::Index;

#[test]
fn new_index_is_empty() {
    let index = Index::new();
    assert!(index.is_empty());
    assert_eq!(index.len(), 0);
    assert_eq!(index.get(b"a"), None);
    assert!(!index.contains_key(b"a"));
}

#[test]
fn insert_returns_what_was_there() {
    let mut index = Index::new();
    assert_eq!(index.insert(b"a".to_vec(), 1), None);
    assert_eq!(index.insert(b"b".to_vec(), 2), None);
    assert_eq!(index.insert(b"a".to_vec(), 3), Some(1));
    assert_eq!(index.get(b"a"), Some(3));
    assert_eq!(index.get(b"b"), Some(2));
    assert_eq!(index.len(), 2);
    assert!(!index.is_empty());
}

#[test]
fn remove_takes_the_key_out() {
    let mut index = Index::new();
    index.insert(b"a".to_vec(), 1);
    index.insert(b"b".to_vec(), 2);
    index.insert(b"c".to_vec(), 3);
    assert_eq!(index.remove(b"b"), Some(2));
    assert_eq!(index.remove(b"b"), None);
    assert_eq!(index.get(b"a"), Some(1));
    assert_eq!(index.get(b"b"), None);
    assert_eq!(index.get(b"c"), Some(3));
    assert_eq!(index.len(), 2);
}

#[test]
fn keys_are_compared_byte_for_byte() {
    let mut index = Index::new();
    index.insert(b"ab".to_vec(), 1);
    index.insert(b"a".to_vec(), 2);
    index.insert(Vec::new(), 3);
    index.insert(b"aB".to_vec(), 4);
    assert_eq!(index.get(b"ab"), Some(1));
    assert_eq!(index.get(b"a"), Some(2));
    assert_eq!(index.get(b""), Some(3));
    assert_eq!(index.get(b"aB"), Some(4));
    assert_eq!(index.get(b"abc"), None);
    assert_eq!(index.len(), 4);
}

#[test]
fn entries_hold_each_key_once() {
    let mut index = Index::new();
    index.insert(b"a".to_vec(), 1);
    index.insert(b"b".to_vec(), 2);
    index.insert(b"a".to_vec(), 3);
    let mut entries = index.entries().clone();
    entries.sort();
    assert_eq!(entries, vec![(b"a".to_vec(), 3), (b"b".to_vec(), 2)]);
}

#[test]
fn from_entries_lets_the_last_entry_of_a_key_count() {
    let entries = vec![(b"a".to_vec(), 1), (b"b".to_vec(), 2), (b"a".to_vec(), 3)];
    let index = Index::from_entries(&entries);
    assert_eq!(index.len(), 2);
    assert_eq!(index.get(b"a"), Some(3));
    assert_eq!(index.get(b"b"), Some(2));
}

#[test]
fn same_bytes_compares_contents() {
    assert!(same_bytes(b"", b""));
    assert!(same_bytes(b"abc", b"abc"));
    assert!(!same_bytes(b"abc", b"abd"));
    assert!(!same_bytes(b"abc", b"ab"));
    assert!(!same_bytes(b"", b"a"));
}

fn numbered(n: u64) -> Vec<u8> {
    format!("key-{}", n).into_bytes()
}

#[test]
fn many_keys_are_found_again() {
    let mut index = Index::new();
    for n in 0..2000 {
        assert_eq!(index.insert(numbered(n), n * 3), None);
    }
    assert_eq!(index.len(), 2000);
    for n in 0..2000 {
        assert_eq!(index.get(&numbered(n)), Some(n * 3));
    }
    assert_eq!(index.get(&numbered(2000)), None);
    for n in 0..2000 {
        assert_eq!(index.insert(numbered(n), n + 1), Some(n * 3));
    }
    assert_eq!(index.len(), 2000);
    for n in 0..2000 {
        assert_eq!(index.get(&numbered(n)), Some(n + 1));
    }
}

#[test]
fn removal_keeps_every_other_key() {
    let mut index = Index::new();
    for n in 0..300 {
        index.insert(numbered(n), n);
    }
    for n in (0..300).step_by(3) {
        assert_eq!(index.remove(&numbered(n)), Some(n));
    }
    assert_eq!(index.len(), 200);
    for n in 0..300 {
        let expected = if n % 3 == 0 { None } else { Some(n) };
        assert_eq!(index.get(&numbered(n)), expected);
    }
    for n in (0..300).step_by(3) {
        assert_eq!(index.insert(numbered(n), n + 1000), None);
    }
    assert_eq!(index.len(), 300);
    assert_eq!(index.get(&numbered(0)), Some(1000));
    assert_eq!(index.get(&numbered(1)), Some(1));
    let mut entries = index.entries().clone();
    entries.sort();
    entries.dedup_by(|a, b| a.0 == b.0);
    assert_eq!(entries.len(), 300);
}
