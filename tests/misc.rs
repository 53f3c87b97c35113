use oblivion::config::{Config, DEFAULT_MEMTABLE_MAX_SIZE};
use oblivion::engine::{parse_table_id, EngineState};
use oblivion::memtable::MemTable;
use oblivion::error::OblivionError;
use oblivion::keys::compare_keys;
use oblivion::sstable::SSTable;
use oblivion::types::Entry;
use std::cmp::Ordering;
use std::path::PathBuf;

#[test]
fn entry_constructors() {
    let e = Entry::put(b"k".to_vec(), b"v".to_vec());
    assert!(!e.is_tombstone());
    assert_eq!(e.value, Some(b"v".to_vec()));
    let d = Entry::delete(b"k".to_vec());
    assert!(d.is_tombstone());
    assert_eq!(d.key, b"k".to_vec());
    assert!(d.timestamp > 0);
}

#[test]
fn config_defaults_and_threshold() {
    let c = Config::default();
    assert_eq!(c.memtable_max_size, 4 * 1024 * 1024);
    assert!(c.sync_writes);
    assert_eq!(c.data_dir, PathBuf::from("./data"));
    let c = Config::new(PathBuf::from("/tmp/x")).with_memtable_max_size(123);
    assert_eq!(c.memtable_max_size, 123);
    assert_eq!(c.data_dir, PathBuf::from("/tmp/x"));
    assert_eq!(DEFAULT_MEMTABLE_MAX_SIZE, 4194304);
    assert!(c.validate().is_ok());
    assert_eq!(
        c.with_memtable_max_size(0).validate().err().map(|e| matches!(e, OblivionError::Config(_))),
        Some(true)
    );
}

#[test]
fn key_order_is_unsigned_lexicographic() {
    assert_eq!(compare_keys(b"a", b"b"), Ordering::Less);
    assert_eq!(compare_keys(b"ab", b"a"), Ordering::Greater);
    assert_eq!(compare_keys(b"", b""), Ordering::Equal);
    assert_eq!(compare_keys(&[0x7f], &[0x80]), Ordering::Less);
}

#[test]
fn sstable_build_lookup_and_bounds() {
    let entries = vec![
        (b"m".to_vec(), Some(b"1".to_vec())),
        (b"c".to_vec(), None),
        (b"x".to_vec(), Some(b"".to_vec())),
        (b"m".to_vec(), Some(b"2".to_vec())),
    ];
    let t = SSTable::flush_from_memtable(PathBuf::from("t.sst"), &entries).unwrap();
    assert_eq!(t.entry_count(), 3);
    assert_eq!(t.lookup(b"m"), Some(Some(b"2".to_vec())));
    assert_eq!(t.lookup(b"c"), Some(None));
    assert_eq!(t.lookup(b"q"), None);
    assert_eq!(t.min_key(), Some(b"c".to_vec()));
    assert_eq!(t.max_key(), Some(b"x".to_vec()));
    assert_eq!(t.scan(), vec![(b"m".to_vec(), b"2".to_vec()), (b"x".to_vec(), b"".to_vec())]);
    assert!(t.bloom().may_contain(b"c"));
    assert_eq!(t.path(), &PathBuf::from("t.sst"));
    assert_eq!(t.file_size(), 16 + (8 + 1 + 1) + (8 + 1) + (8 + 1) + (12 + 12) + 4);
    assert_eq!(t.encode().len() as u64, t.file_size());
}

#[test]
fn sstable_new_is_empty() {
    let t = SSTable::new(PathBuf::from("e.sst"));
    assert_eq!(t.entry_count(), 0);
    assert_eq!(t.file_size(), 0);
    assert_eq!(t.min_key(), None);
    assert_eq!(t.max_key(), None);
}

#[test]
fn sstable_encode_decode_round_trip() {
    let entries = vec![
        (b"b".to_vec(), Some(b"two".to_vec())),
        (b"a".to_vec(), None),
        (b"c".to_vec(), Some(Vec::new())),
    ];
    let t = SSTable::flush_from_memtable(PathBuf::from("t.sst"), &entries).unwrap();
    let bytes = t.encode();
    assert_eq!(bytes.len() as u64, t.file_size());
    assert_eq!(&bytes[..8], b"OBLSST01");
    assert_eq!(&bytes[8..12], &1u32.to_le_bytes());
    assert_eq!(&bytes[12..16], &3u32.to_le_bytes());
    let n = bytes.len();
    assert_eq!(&bytes[n - 4..], &crc32fast::hash(&bytes[..n - 4]).to_le_bytes());
    let back = SSTable::decode(PathBuf::from("t.sst"), &bytes).unwrap();
    assert_eq!(back.lookup(b"a"), Some(None));
    assert_eq!(back.lookup(b"b"), Some(Some(b"two".to_vec())));
    assert_eq!(back.lookup(b"c"), Some(Some(Vec::new())));
    assert_eq!(back.encode(), bytes);
}

#[test]
fn sstable_decode_rejects_damage() {
    let entries = vec![(b"k".to_vec(), Some(b"v".to_vec()))];
    let bytes = SSTable::flush_from_memtable(PathBuf::from("t.sst"), &entries).unwrap().encode();
    let mut flipped = bytes.clone();
    flipped[13] ^= 1;
    assert!(matches!(SSTable::decode(PathBuf::from("t.sst"), &flipped), Err(OblivionError::Corruption(_))));
    assert!(matches!(
        SSTable::decode(PathBuf::from("t.sst"), &bytes[..bytes.len() - 1]),
        Err(OblivionError::Corruption(_))
    ));
    assert!(matches!(SSTable::decode(PathBuf::from("t.sst"), b"short"), Err(OblivionError::Corruption(_))));
}

#[test]
fn sstable_decode_rejects_unsorted_keys() {
    let mut body = b"OBLSST01".to_vec();
    body.extend_from_slice(&1u32.to_le_bytes());
    body.extend_from_slice(&2u32.to_le_bytes());
    for k in [b"b", b"a"] {
        body.extend_from_slice(&1u32.to_le_bytes());
        body.extend_from_slice(k);
        body.extend_from_slice(&0xFFFF_FFFFu32.to_le_bytes());
    }
    body.extend_from_slice(&64u32.to_le_bytes());
    body.extend_from_slice(&0u32.to_le_bytes());
    body.extend_from_slice(&2u32.to_le_bytes());
    body.extend_from_slice(&[0xff; 8]);
    let crc = crc32fast::hash(&body).to_le_bytes();
    body.extend_from_slice(&crc);
    assert!(matches!(SSTable::decode(PathBuf::from("t.sst"), &body), Err(OblivionError::Corruption(_))));
    body[20] = b'a';
    body[29] = b'b';
    let n = body.len();
    let crc = crc32fast::hash(&body[..n - 4]).to_le_bytes();
    body[n - 4..].copy_from_slice(&crc);
    let t = SSTable::decode(PathBuf::from("t.sst"), &body).unwrap();
    assert_eq!(t.lookup(b"a"), Some(None));
    assert_eq!(t.bloom().num_bits(), 64);
}

#[test]
fn sstable_decode_rejects_filter_missing_a_key() {
    let entries = vec![(b"k".to_vec(), Some(b"v".to_vec()))];
    let mut bytes = SSTable::flush_from_memtable(PathBuf::from("t.sst"), &entries).unwrap().encode();
    let n = bytes.len();
    let nb = (64 + 10 - 1) / 8 + 1;
    for b in &mut bytes[n - 4 - nb..n - 4] {
        *b = 0;
    }
    let crc = crc32fast::hash(&bytes[..n - 4]).to_le_bytes();
    bytes[n - 4..].copy_from_slice(&crc);
    assert!(matches!(SSTable::decode(PathBuf::from("t.sst"), &bytes), Err(OblivionError::Corruption(_))));
}

#[test]
fn table_file_names() {
    assert_eq!(parse_table_id(b"sstable_000042.sst"), Some(42));
    assert_eq!(parse_table_id(b"sstable_1234567.sst"), Some(1234567));
    assert_eq!(parse_table_id(b"sstable_.sst"), None);
    assert_eq!(parse_table_id(b"sstable_00a1.sst"), None);
    assert_eq!(parse_table_id(b"oblivion.wal"), None);
    assert_eq!(parse_table_id(b"sstable_000001.ss"), None);
    assert_eq!(parse_table_id(b"sstable_99999999999999999999.sst"), None);
    assert_eq!(parse_table_id(b"sstable_18446744073709551615.sst"), Some(u64::MAX));
}

#[test]
fn engine_loads_tables_newest_first() {
    let config = Config { data_dir: PathBuf::from("d"), memtable_max_size: 1024, sync_writes: true };
    let mut e = EngineState::open(&config, MemTable::new()).unwrap();
    let old = SSTable::flush_from_memtable(PathBuf::from("a"), &[(b"k".to_vec(), Some(b"old".to_vec()))]).unwrap();
    let new = SSTable::flush_from_memtable(PathBuf::from("b"), &[(b"k".to_vec(), Some(b"new".to_vec()))]).unwrap();
    let gone = SSTable::flush_from_memtable(PathBuf::from("c"), &[(b"g".to_vec(), None)]).unwrap();
    let g_old = SSTable::flush_from_memtable(PathBuf::from("d"), &[(b"g".to_vec(), Some(b"x".to_vec()))]).unwrap();
    e.add_loaded_table(7, new);
    e.add_loaded_table(3, old);
    e.add_loaded_table(9, gone);
    e.add_loaded_table(1, g_old);
    assert_eq!(e.get(b"k"), Some(b"new".to_vec()));
    assert_eq!(e.get(b"g"), None);
    assert_eq!(e.next_table_id(), 10);
    assert_eq!(e.table_count(), 4);
    assert_eq!(e.scan(), vec![(b"k".to_vec(), b"new".to_vec())]);
}
