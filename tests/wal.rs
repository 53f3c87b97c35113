use oblivion::memtable::MemTable;
use oblivion::wal::{encode, encode_delete, encode_put, replay_log, Mutation, OP_PUT};

fn log_of(ops: &[Mutation]) -> Vec<u8> {
    let mut log = Vec::new();
    for op in ops {
        log.extend_from_slice(&encode(op).unwrap());
    }
    log
}

#[test]
fn test_encode_decode_roundtrip() {
    let encoded = encode_put(b"hello", b"world").unwrap();
    assert_eq!(encoded.len(), 23);
    assert_eq!(encoded[0], OP_PUT);
}

#[test]
fn test_wal_append_and_recover() {
    let log = log_of(&[
        Mutation::Put(b"key1".to_vec(), b"value1".to_vec()),
        Mutation::Put(b"key2".to_vec(), b"value2".to_vec()),
        Mutation::Delete(b"key1".to_vec()),
    ]);
    let memtable = replay_log(&log);
    assert_eq!(memtable.get(b"key1"), None);
    assert_eq!(memtable.get(b"key2"), Some(&b"value2".to_vec()));
}

#[test]
fn wal_record_layout_and_checksum() {
    let rec = encode_put(b"ab", b"xyz").unwrap();
    assert_eq!(rec[0], 1);
    assert_eq!(&rec[1..5], &2u32.to_le_bytes());
    assert_eq!(&rec[5..7], b"ab");
    assert_eq!(&rec[7..11], &3u32.to_le_bytes());
    assert_eq!(&rec[11..14], b"xyz");
    assert_eq!(&rec[14..18], &crc32fast::hash(&rec[..14]).to_le_bytes());
    assert_eq!(rec.len(), 18);
}

#[test]
fn wal_delete_record_has_empty_value() {
    let rec = encode_delete(b"k").unwrap();
    assert_eq!(rec.len(), 14);
    assert_eq!(rec[0], 2);
    assert_eq!(&rec[6..10], &0u32.to_le_bytes());
    assert_eq!(&rec[10..14], &crc32fast::hash(&rec[..10]).to_le_bytes());
}

#[test]
fn wal_replay_stops_at_torn_tail() {
    let mut log = log_of(&[
        Mutation::Put(b"a".to_vec(), b"1".to_vec()),
        Mutation::Put(b"b".to_vec(), b"2".to_vec()),
    ]);
    let full = log.len();
    log.truncate(full - 3);
    let t = replay_log(&log);
    assert_eq!(t.get(b"a"), Some(&b"1".to_vec()));
    assert_eq!(t.get(b"b"), None);
    assert_eq!(t.len(), 1);
}

#[test]
fn wal_replay_stops_at_checksum_mismatch() {
    let mut log = log_of(&[
        Mutation::Put(b"a".to_vec(), b"1".to_vec()),
        Mutation::Put(b"b".to_vec(), b"2".to_vec()),
        Mutation::Put(b"c".to_vec(), b"3".to_vec()),
    ]);
    let second = encode_put(b"a", b"1").unwrap().len();
    log[second + 5] ^= 0xff;
    let t = replay_log(&log);
    assert_eq!(t.len(), 1);
    assert_eq!(t.get(b"c"), None);
}

#[test]
fn wal_replay_stops_at_unknown_tag() {
    let mut bad = encode_put(b"x", b"y").unwrap();
    bad[0] = 9;
    let n = bad.len();
    let crc = crc32fast::hash(&bad[..n - 4]).to_le_bytes();
    bad[n - 4..].copy_from_slice(&crc);
    let mut log = bad;
    log.extend_from_slice(&encode_put(b"z", b"w").unwrap());
    assert!(replay_log(&log).is_empty());
}

#[test]
fn wal_replay_empty_and_last_write_wins() {
    assert!(replay_log(&[]).is_empty());
    let log = log_of(&[
        Mutation::Put(b"k".to_vec(), b"v1".to_vec()),
        Mutation::Put(b"k".to_vec(), b"v2".to_vec()),
    ]);
    let t = replay_log(&log);
    assert_eq!(t.get(b"k"), Some(&b"v2".to_vec()));
    assert_eq!(t.size(), 3);
    let mut expected = MemTable::new();
    expected.insert(b"k".to_vec(), b"v2".to_vec());
    assert_eq!(t.entries(), expected.entries());
}
