use oblivion::bloom::BloomFilter;

/// A filter sized for `expected_items` keys at the target false-positive rate.
fn sized_filter(expected_items: usize, false_positive_rate: f64) -> BloomFilter {
    let n = expected_items.max(1);
    let p = false_positive_rate.clamp(0.0001, 0.5);
    let ln2 = 2.0_f64.ln();
    let bits = ((-(n as f64) * p.ln() / (ln2 * ln2)).ceil() as usize).max(64);
    let hashes = ((bits as f64 / n as f64) * ln2).ceil() as u32;
    BloomFilter::with_params(bits, hashes)
}

#[test]
fn test_insert_and_contains() {
    let mut bf = sized_filter(100, 0.01);
    bf.insert(b"hello");
    bf.insert(b"world");

    assert!(bf.may_contain(b"hello"));
    assert!(bf.may_contain(b"world"));
    assert_eq!(bf.count(), 2);
}

#[test]
fn test_definitely_not_contains() {
    let mut bf = sized_filter(100, 0.01);
    bf.insert(b"alpha");
    bf.insert(b"bravo");

    let mut false_positives = 0;
    for i in 0..1000 {
        let key = format!("nonexistent_key_{}", i);
        if bf.may_contain(key.as_bytes()) {
            false_positives += 1;
        }
    }
    assert!(false_positives < 50, "Too many false positives: {}", false_positives);
}

#[test]
fn test_no_false_negatives() {
    let mut bf = sized_filter(1000, 0.01);
    for i in 0..500 {
        let key = format!("key_{}", i);
        bf.insert(key.as_bytes());
    }
    for i in 0..500 {
        let key = format!("key_{}", i);
        assert!(bf.may_contain(key.as_bytes()), "False negative for key: {}", key);
    }
}

#[test]
fn test_memory_usage() {
    let bf = sized_filter(1000, 0.01);
    assert!(bf.memory_usage() > 0);
    assert!(bf.num_bits() >= 64);
    assert!(bf.num_hashes() >= 2);
}

#[test]
fn bloom_false_positive_rate_of_sized_filter() {
    let mut bf = sized_filter(1000, 0.01);
    for i in 0..500 {
        bf.insert(format!("key_{}", i).as_bytes());
    }
    let mut hits = 0;
    for i in 0..10_000 {
        if bf.may_contain(format!("absent_{}", i).as_bytes()) {
            hits += 1;
        }
    }
    assert!(hits as f64 / 10_000.0 <= 0.05);
}

#[test]
fn bloom_params_are_clamped_and_sized() {
    let bf = BloomFilter::with_params(100, 1);
    assert_eq!(bf.num_hashes(), 2);
    assert_eq!(bf.num_bits(), 100);
    assert_eq!(bf.memory_usage(), 13);
    let bf = BloomFilter::with_params(64, 40);
    assert_eq!(bf.num_hashes(), 16);
    assert_eq!(bf.memory_usage(), 8);
    assert_eq!(bf.count(), 0);
}

#[test]
fn bloom_empty_filter_rejects() {
    let bf = BloomFilter::with_params(1024, 7);
    assert!(!bf.may_contain(b"anything"));
    assert!(!bf.may_contain(b""));
}

#[test]
fn bloom_empty_key() {
    let mut bf = BloomFilter::with_params(64, 3);
    bf.insert(b"");
    assert!(bf.may_contain(b""));
    assert_eq!(bf.count(), 1);
}
