use oblivion::compaction::{compact_sstables, CompactionStrategy, SStableInfo, SizeTieredCompaction};
use std::path::PathBuf;

fn info(id: usize, size: usize) -> SStableInfo {
    SStableInfo { id, path: PathBuf::from(format!("{}.sst", id)), size, min_key: vec![], max_key: vec![] }
}

#[test]
fn test_sstable_overlap() {
    let s1 = SStableInfo {
        id: 0,
        path: PathBuf::from("s1.sst"),
        size: 1000,
        min_key: b"a".to_vec(),
        max_key: b"m".to_vec(),
    };
    let s2 = SStableInfo {
        id: 1,
        path: PathBuf::from("s2.sst"),
        size: 1000,
        min_key: b"k".to_vec(),
        max_key: b"z".to_vec(),
    };
    let s3 = SStableInfo {
        id: 2,
        path: PathBuf::from("s3.sst"),
        size: 1000,
        min_key: b"n".to_vec(),
        max_key: b"z".to_vec(),
    };
    assert!(s1.overlaps(&s2));
    assert!(!s1.overlaps(&s3));
    assert!(s2.overlaps(&s3));
}

#[test]
fn test_tier_calculation() {
    let strategy = SizeTieredCompaction::new(4, 10);
    assert_eq!(strategy.tier_for_size(1024 * 1024), 0);
    assert_eq!(strategy.tier_for_size(4 * 1024 * 1024), 0);
    assert_eq!(strategy.tier_for_size(10 * 1024 * 1024), 1);
    assert_eq!(strategy.tier_for_size(40 * 1024 * 1024), 1);
    assert_eq!(strategy.tier_for_size(100 * 1024 * 1024), 2);
}

#[test]
fn test_select_compaction_below_threshold() {
    let strategy = SizeTieredCompaction::new(4, 10);
    let sstables = vec![
        SStableInfo { id: 0, path: PathBuf::from("0.sst"), size: 1024 * 1024, min_key: vec![], max_key: vec![] },
        SStableInfo { id: 1, path: PathBuf::from("1.sst"), size: 2 * 1024 * 1024, min_key: vec![], max_key: vec![] },
    ];
    assert_eq!(strategy.select_compaction(&sstables), None);
}

#[test]
fn test_select_compaction_trigger() {
    let strategy = SizeTieredCompaction::new(4, 10);
    let sstables = vec![
        SStableInfo { id: 0, path: PathBuf::from("0.sst"), size: 1024 * 1024, min_key: vec![], max_key: vec![] },
        SStableInfo { id: 1, path: PathBuf::from("1.sst"), size: 2 * 1024 * 1024, min_key: vec![], max_key: vec![] },
        SStableInfo { id: 2, path: PathBuf::from("2.sst"), size: 3 * 1024 * 1024, min_key: vec![], max_key: vec![] },
        SStableInfo { id: 3, path: PathBuf::from("3.sst"), size: 1024 * 1024, min_key: vec![], max_key: vec![] },
    ];
    let result = strategy.select_compaction(&sstables);
    assert!(result.is_some());
    assert_eq!(result.unwrap().len(), 4);
}

#[test]
fn test_compact_sstables_merge() {
    let sst1 = vec![
        (b"a".to_vec(), Some(b"value1".to_vec())),
        (b"b".to_vec(), Some(b"value2".to_vec())),
    ];
    let sst2 = vec![
        (b"a".to_vec(), Some(b"new_value1".to_vec())),
        (b"c".to_vec(), Some(b"value3".to_vec())),
    ];
    let merged = compact_sstables(vec![sst1, sst2]);
    assert_eq!(merged.len(), 3);
    assert_eq!(merged[0], (b"a".to_vec(), b"new_value1".to_vec()));
    assert_eq!(merged[1], (b"b".to_vec(), b"value2".to_vec()));
    assert_eq!(merged[2], (b"c".to_vec(), b"value3".to_vec()));
}

#[test]
fn test_compact_sstables_tombstone_removal() {
    let sst1 = vec![
        (b"a".to_vec(), Some(b"value1".to_vec())),
        (b"b".to_vec(), Some(b"value2".to_vec())),
    ];
    let sst2 = vec![(b"a".to_vec(), None), (b"c".to_vec(), Some(b"value3".to_vec()))];
    let merged = compact_sstables(vec![sst1, sst2]);
    assert_eq!(merged.len(), 2);
    assert_eq!(merged[0], (b"b".to_vec(), b"value2".to_vec()));
    assert_eq!(merged[1], (b"c".to_vec(), b"value3".to_vec()));
}

#[test]
fn compaction_scenario_tombstone_in_newer_table() {
    let a = vec![(b"a".to_vec(), Some(b"1".to_vec())), (b"b".to_vec(), Some(b"2".to_vec()))];
    let b = vec![(b"a".to_vec(), None), (b"c".to_vec(), Some(b"3".to_vec()))];
    assert_eq!(
        compact_sstables(vec![a, b]),
        vec![(b"b".to_vec(), b"2".to_vec()), (b"c".to_vec(), b"3".to_vec())]
    );
}

#[test]
fn compaction_keeps_empty_values() {
    let a = vec![(b"k".to_vec(), Some(b"".to_vec()))];
    assert_eq!(compact_sstables(vec![a]), vec![(b"k".to_vec(), b"".to_vec())]);
    assert!(compact_sstables(vec![]).is_empty());
}

#[test]
fn compaction_value_after_tombstone_revives_key() {
    let a = vec![(b"k".to_vec(), None)];
    let b = vec![(b"k".to_vec(), Some(b"v".to_vec()))];
    assert_eq!(compact_sstables(vec![a, b]), vec![(b"k".to_vec(), b"v".to_vec())]);
}

#[test]
fn compaction_tier_boundaries() {
    let s = SizeTieredCompaction::new(4, 10);
    assert_eq!(s.tier_for_size(0), 0);
    assert_eq!(s.tier_for_size(4 * 1024 * 1024 + 1), 1);
    assert_eq!(s.tier_for_size(400 * 1024 * 1024), 2);
    assert_eq!(s.tier_for_size(400 * 1024 * 1024 + 1), 3);
    assert_eq!(s.tier_for_size(usize::MAX), 13);
    let s2 = SizeTieredCompaction::new(4, 2);
    assert_eq!(s2.tier_for_size(8 * 1024 * 1024), 1);
    assert_eq!(s2.tier_for_size(8 * 1024 * 1024 + 1), 2);
}

#[test]
fn compaction_selects_ids_of_lowest_full_tier() {
    let mb = 1024 * 1024;
    let strategy = SizeTieredCompaction::new(2, 10);
    let tables = vec![info(50, 50 * mb), info(41, 60 * mb), info(7, mb), info(33, 70 * mb), info(12, 2 * mb)];
    assert_eq!(strategy.select_compaction(&tables), Some(vec![7, 12]));
    let tables = vec![info(9, 50 * mb), info(8, mb), info(3, 60 * mb)];
    assert_eq!(strategy.select_compaction(&tables), Some(vec![9, 3]));
    let single = SizeTieredCompaction::new(1, 10);
    assert_eq!(single.select_compaction(&[info(7, mb)]), Some(vec![7]));
    assert_eq!(strategy.select_compaction(&[]), None);
    assert_eq!(strategy.name(), "SizeTieredCompaction");
}

#[test]
fn compaction_overlap_at_touching_bounds() {
    let mut a = info(0, 1);
    a.min_key = b"a".to_vec();
    a.max_key = b"k".to_vec();
    let mut b = info(1, 1);
    b.min_key = b"k".to_vec();
    b.max_key = b"z".to_vec();
    assert!(a.overlaps(&b));
    assert!(b.overlaps(&a));
}
