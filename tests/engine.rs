use oblivion::config::Config;
use oblivion::engine::EngineState;
use oblivion::memtable::MemTable;
use oblivion::wal::{encode_delete, encode_put, replay_log};
use std::path::PathBuf;

/// An engine with the given flush threshold, over the MemTable that `log` replays to.
fn open_engine(log: &[u8], memtable_max_size: usize) -> EngineState {
    let config = Config { data_dir: PathBuf::from("data"), memtable_max_size, sync_writes: true };
    EngineState::open(&config, replay_log(log)).unwrap()
}

/// Flushes when the threshold is reached, as the write path does.
fn settle(engine: &mut EngineState, log: &mut Vec<u8>) {
    if engine.needs_flush() {
        let path = PathBuf::from(format!("sstable_{:06}.sst", engine.next_table_id()));
        let table = engine.flush_table(path).unwrap();
        log.clear();
        engine.install_flush(table);
    }
}

fn put(engine: &mut EngineState, log: &mut Vec<u8>, key: &[u8], value: &[u8]) {
    log.extend_from_slice(&encode_put(key, value).unwrap());
    engine.put(key.to_vec(), value.to_vec());
    settle(engine, log);
}

fn delete(engine: &mut EngineState, log: &mut Vec<u8>, key: &[u8]) {
    log.extend_from_slice(&encode_delete(key).unwrap());
    engine.delete(key.to_vec());
    settle(engine, log);
}

#[test]
fn test_basic_put_get_delete() {
    let mut log = Vec::new();
    let mut engine = open_engine(&log, 1024);
    put(&mut engine, &mut log, b"name", b"oblivion");
    put(&mut engine, &mut log, b"version", b"1.0.0");
    assert_eq!(engine.get(b"name"), Some(b"oblivion".to_vec()));
    assert_eq!(engine.get(b"version"), Some(b"1.0.0".to_vec()));
    assert_eq!(engine.get(b"missing"), None);
    delete(&mut engine, &mut log, b"name");
    assert_eq!(engine.get(b"name"), None);
    assert_eq!(engine.get(b"version"), Some(b"1.0.0".to_vec()));
}

#[test]
fn test_overwrite_value() {
    let mut log = Vec::new();
    let mut engine = open_engine(&log, 1024);
    put(&mut engine, &mut log, b"key", b"old");
    assert_eq!(engine.get(b"key"), Some(b"old".to_vec()));
    put(&mut engine, &mut log, b"key", b"new");
    assert_eq!(engine.get(b"key"), Some(b"new".to_vec()));
    assert_eq!(engine.len(), 1);
}

#[test]
fn integration_test_scan_sorted_order() {
    let mut log = Vec::new();
    let mut engine = open_engine(&log, 1024);
    put(&mut engine, &mut log, b"charlie", b"3");
    put(&mut engine, &mut log, b"alpha", b"1");
    put(&mut engine, &mut log, b"bravo", b"2");
    let entries = engine.scan();
    assert_eq!(entries.len(), 3);
    assert_eq!(entries[0].0, b"alpha");
    assert_eq!(entries[1].0, b"bravo");
    assert_eq!(entries[2].0, b"charlie");
}

#[test]
fn test_crash_recovery() {
    let mut log = Vec::new();
    {
        let mut engine = open_engine(&log, 64 * 1024);
        put(&mut engine, &mut log, b"persistent_key", b"persistent_value");
        put(&mut engine, &mut log, b"ephemeral", b"data");
        delete(&mut engine, &mut log, b"ephemeral");
    }
    {
        let engine = open_engine(&log, 64 * 1024);
        assert_eq!(engine.get(b"persistent_key"), Some(b"persistent_value".to_vec()));
        assert_eq!(engine.get(b"ephemeral"), None);
    }
}

#[test]
fn test_empty_engine() {
    let engine = open_engine(&[], 1024);
    assert!(engine.is_empty());
    assert_eq!(engine.len(), 0);
    assert_eq!(engine.memtable_size(), 0);
    assert_eq!(engine.get(b"anything"), None);
    assert!(engine.scan().is_empty());
}

#[test]
fn test_large_values() {
    let mut log = Vec::new();
    let mut engine = open_engine(&log, 1024 * 1024);
    let large_value = vec![0xABu8; 10_000];
    put(&mut engine, &mut log, b"big", &large_value);
    assert_eq!(engine.get(b"big"), Some(large_value));
}

#[test]
fn test_unicode_keys() {
    let mut log = Vec::new();
    let mut engine = open_engine(&log, 1024);
    put(&mut engine, &mut log, "café".as_bytes(), b"coffee");
    put(&mut engine, &mut log, "日本語".as_bytes(), b"japanese");
    put(&mut engine, &mut log, "🦀".as_bytes(), b"crab");
    assert_eq!(engine.get("café".as_bytes()), Some(b"coffee".to_vec()));
    assert_eq!(engine.get("日本語".as_bytes()), Some(b"japanese".to_vec()));
    assert_eq!(engine.get("🦀".as_bytes()), Some(b"crab".to_vec()));
}

#[test]
fn test_many_writes_trigger_info() {
    let mut log = Vec::new();
    let mut engine = open_engine(&log, 64 * 1024);
    for i in 0..100 {
        let key = format!("key_{:04}", i).into_bytes();
        let value = format!("value_{:04}", i).into_bytes();
        put(&mut engine, &mut log, &key, &value);
    }
    assert_eq!(engine.get(b"key_0000"), Some(b"value_0000".to_vec()));
    assert_eq!(engine.get(b"key_0050"), Some(b"value_0050".to_vec()));
    assert_eq!(engine.get(b"key_0099"), Some(b"value_0099".to_vec()));
}

#[test]
fn engine_flush_keeps_contents_and_tombstones_shadow() {
    let mut log = Vec::new();
    let mut engine = open_engine(&log, 64);
    for i in 0..20 {
        let key = format!("k{:02}", i).into_bytes();
        put(&mut engine, &mut log, &key, b"0123456789");
    }
    assert!(engine.table_count() >= 2);
    assert_eq!(engine.len(), 20);
    let before = engine.scan();
    delete(&mut engine, &mut log, b"k03");
    assert_eq!(engine.get(b"k03"), None);
    assert_eq!(engine.len(), 19);
    for i in 0..40 {
        let key = format!("z{:02}", i).into_bytes();
        put(&mut engine, &mut log, &key, b"x");
    }
    assert_eq!(engine.get(b"k03"), None);
    assert_eq!(engine.get(b"k04"), Some(b"0123456789".to_vec()));
    let after = engine.scan();
    assert_eq!(after.len(), 59);
    assert_eq!(before.len(), 20);
    assert!(after.windows(2).all(|w| w[0].0 < w[1].0));
    put(&mut engine, &mut log, b"k03", b"back");
    assert_eq!(engine.get(b"k03"), Some(b"back".to_vec()));
}

#[test]
fn engine_flush_resets_memtable_and_counts_tables() {
    let mut log = Vec::new();
    let mut engine = open_engine(&log, 10);
    assert_eq!(engine.next_table_id(), 0);
    put(&mut engine, &mut log, b"abcde", b"fghij");
    assert_eq!(engine.memtable_size(), 0);
    assert_eq!(engine.next_table_id(), 1);
    assert_eq!(engine.table_count(), 1);
    assert!(log.is_empty());
    assert_eq!(engine.get(b"abcde"), Some(b"fghij".to_vec()));
}

#[test]
fn engine_ttl_expires_lazily() {
    let mut engine = open_engine(&[], 1024);
    engine.put_with_ttl_at(b"s".to_vec(), b"v".to_vec(), 50, 1_000);
    assert_eq!(engine.get_at(b"s", 1_049), Some(b"v".to_vec()));
    assert_eq!(engine.get_at(b"s", 1_050), None);
    assert_eq!(engine.ttl_at(b"s", 1_010), Some(40));
    assert_eq!(engine.scan().len(), 1);
    engine.put(b"s".to_vec(), b"w".to_vec());
    assert_eq!(engine.get_at(b"s", 5_000), Some(b"w".to_vec()));
    assert_eq!(engine.ttl_at(b"s", 5_000), None);
}

#[test]
fn engine_ttl_with_clock() {
    let mut engine = open_engine(&[], 1024);
    engine.put_with_ttl(b"k".to_vec(), b"v".to_vec(), 60_000);
    assert_eq!(engine.get(b"k"), Some(b"v".to_vec()));
    assert!(engine.ttl(b"k").unwrap() > 0);
}

#[test]
fn engine_open_rejects_zero_threshold() {
    let config = Config { data_dir: PathBuf::from("data"), memtable_max_size: 0, sync_writes: true };
    let err = EngineState::open(&config, MemTable::new()).err().unwrap();
    assert!(matches!(err, oblivion::error::OblivionError::Config(_)));
}

#[test]
fn engine_recovers_memtable_from_log() {
    let mut log = Vec::new();
    log.extend_from_slice(&encode_put(b"a", b"1").unwrap());
    log.extend_from_slice(&encode_put(b"b", b"2").unwrap());
    log.extend_from_slice(&encode_delete(b"a").unwrap());
    let engine = open_engine(&log, 1024);
    assert_eq!(engine.scan(), vec![(b"b".to_vec(), b"2".to_vec())]);
    assert_eq!(engine.memtable_size(), 3);
}
