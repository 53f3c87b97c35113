use oblivion::memtable::MemTable;

#[test]
fn test_insert_and_get() {
    let mut table = MemTable::new();
    table.insert(b"key1".to_vec(), b"value1".to_vec());
    assert_eq!(table.get(b"key1"), Some(&b"value1".to_vec()));
}

#[test]
fn test_get_nonexistent() {
    let table = MemTable::new();
    assert_eq!(table.get(b"missing"), None);
}

#[test]
fn test_overwrite() {
    let mut table = MemTable::new();
    table.insert(b"key".to_vec(), b"old".to_vec());
    table.insert(b"key".to_vec(), b"new".to_vec());
    assert_eq!(table.get(b"key"), Some(&b"new".to_vec()));
    assert_eq!(table.len(), 1);
}

#[test]
fn test_delete_tombstone() {
    let mut table = MemTable::new();
    table.insert(b"key".to_vec(), b"value".to_vec());
    table.delete(b"key".to_vec());
    assert_eq!(table.get(b"key"), None);
    assert!(table.contains_key(b"key"));
}

#[test]
fn test_size_tracking() {
    let mut table = MemTable::new();
    assert_eq!(table.size(), 0);
    table.insert(b"abc".to_vec(), b"12345".to_vec());
    assert_eq!(table.size(), 8);
}

#[test]
fn test_clear() {
    let mut table = MemTable::new();
    table.insert(b"k1".to_vec(), b"v1".to_vec());
    table.insert(b"k2".to_vec(), b"v2".to_vec());
    table.clear();
    assert!(table.is_empty());
    assert_eq!(table.size(), 0);
}

#[test]
fn memtable_test_scan_sorted_order() {
    let mut table = MemTable::new();
    table.insert(b"charlie".to_vec(), b"3".to_vec());
    table.insert(b"alpha".to_vec(), b"1".to_vec());
    table.insert(b"bravo".to_vec(), b"2".to_vec());
    let results = table.scan();
    let keys: Vec<&[u8]> = results.iter().map(|(k, _)| k.as_slice()).collect();
    assert_eq!(keys.len(), 3);
    assert_eq!(keys[0], b"alpha");
    assert_eq!(keys[1], b"bravo");
    assert_eq!(keys[2], b"charlie");
}

#[test]
fn test_scan_excludes_tombstones() {
    let mut table = MemTable::new();
    table.insert(b"a".to_vec(), b"1".to_vec());
    table.insert(b"b".to_vec(), b"2".to_vec());
    table.delete(b"a".to_vec());
    let results = table.scan();
    assert_eq!(results.len(), 1);
    assert_eq!(results[0].0, b"b");
}

#[test]
fn test_scan_prefix() {
    let mut table = MemTable::new();
    table.insert(b"user:1".to_vec(), b"alice".to_vec());
    table.insert(b"user:2".to_vec(), b"bob".to_vec());
    table.insert(b"item:1".to_vec(), b"sword".to_vec());
    let results = table.scan_prefix(b"user:");
    assert_eq!(results.len(), 2);
}

#[test]
fn memtable_size_replaces_old_contribution() {
    let mut table = MemTable::new();
    table.insert(b"abc".to_vec(), b"12345".to_vec());
    table.insert(b"abc".to_vec(), b"1".to_vec());
    assert_eq!(table.size(), 4);
    table.delete(b"abc".to_vec());
    assert_eq!(table.size(), 3);
    table.insert(b"xy".to_vec(), b"".to_vec());
    assert_eq!(table.size(), 5);
    assert_eq!(table.len(), 2);
    table.clear();
    assert_eq!(table.size(), 0);
}

#[test]
fn memtable_delete_of_missing_key_counts_key() {
    let mut table = MemTable::new();
    table.delete(b"ghost".to_vec());
    assert_eq!(table.size(), 5);
    assert!(table.contains_key(b"ghost"));
    assert_eq!(table.get(b"ghost"), None);
    assert!(table.scan().is_empty());
}

#[test]
fn memtable_scan_range_half_open() {
    let mut table = MemTable::new();
    for k in ["a", "b", "c", "d"] {
        table.insert(k.as_bytes().to_vec(), k.as_bytes().to_vec());
    }
    table.delete(b"c".to_vec());
    let results = table.scan_range(b"b", b"d");
    assert_eq!(results.len(), 1);
    assert_eq!(results[0].0, b"b");
    assert!(table.scan_range(b"b", b"b").is_empty());
    assert_eq!(table.scan_range(b"", b"zz").len(), 3);
}

#[test]
fn memtable_prefix_sorts_first() {
    let mut table = MemTable::new();
    table.insert(b"ab".to_vec(), b"2".to_vec());
    table.insert(b"a".to_vec(), b"1".to_vec());
    table.insert(vec![0xff], b"3".to_vec());
    table.insert(b"".to_vec(), b"0".to_vec());
    let keys: Vec<Vec<u8>> = table.scan().iter().map(|(k, _)| (*k).clone()).collect();
    assert_eq!(keys, vec![b"".to_vec(), b"a".to_vec(), b"ab".to_vec(), vec![0xff]]);
    assert_eq!(table.scan_prefix(b"").len(), 4);
    assert_eq!(table.scan_prefix(b"abc").len(), 0);
}

#[test]
fn memtable_entries_keep_tombstones() {
    let mut table = MemTable::new();
    table.insert(b"b".to_vec(), b"2".to_vec());
    table.delete(b"a".to_vec());
    let entries = table.entries();
    assert_eq!(entries.len(), 2);
    assert_eq!(entries[0], (b"a".to_vec(), None));
    assert_eq!(entries[1], (b"b".to_vec(), Some(b"2".to_vec())));
}
