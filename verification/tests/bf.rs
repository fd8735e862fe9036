use mqfilters::{
    BloomFilter, ClearableQueryFilter, FpRate, InsertableQueryFilter, QueryFilter,
};

#[test]
fn default_filter() {
    let mut filter = BloomFilter::new(100, FpRate::new(1, 100)).unwrap();
    assert_eq!(filter.approx_current_capacity(), 0);
    assert!(!filter.contains(&"hello"));

    filter.insert("hello");
    assert!(filter.contains(&"hello"));
    assert_eq!(filter.approx_current_capacity(), 1);

    filter.insert("hello");
    filter.insert("hello");
    assert_eq!(filter.approx_current_capacity(), 1);

    filter.clear();
    assert!(!filter.contains(&"hello"));
    assert_eq!(filter.approx_current_capacity(), 0);
}

#[test]
fn with_size() {
    let fp_rate = FpRate::new(1, 100);
    let size = 100 << 13;
    let mut filter = BloomFilter::with_size(size, fp_rate).unwrap();

    let items_cnt = 500000;
    let mut fp_count = 0;
    for i in 0..items_cnt {
        if filter.contains(&i) {
            fp_count += 1;
        }
        filter.insert(i);
        // Ensure that no false negatives are present.
        assert!(filter.contains(&i));
    }

    assert!(items_cnt - filter.approx_current_capacity() < 100);
    assert!((fp_count as f64) < items_cnt as f64 * 0.01f64);
}

#[test]
fn with_capacity() {
    let fp_rate = FpRate::new(1, 100);
    let capacity = 100000;
    let mut filter = BloomFilter::with_capacity(capacity, fp_rate).unwrap();
    let mut fp_count = 0;
    for i in 0..capacity {
        if filter.contains(&i) {
            fp_count += 1;
        }
        filter.insert(i);
        // Ensure that no false negatives are present.
        assert!(filter.contains(&i));
    }

    assert!(capacity - filter.approx_current_capacity() < 100);
    assert!((fp_count as f64) < capacity as f64 * 0.01f64);
}

#[test]
fn no_false_negatives_across_other_inserts() {
    let mut filter = BloomFilter::new(500, FpRate::new(1, 100)).unwrap();
    let tracked_keys = ["alpha", "beta", "gamma", "delta"];
    for key in tracked_keys {
        filter.insert(key.to_string());
    }
    for i in 0..200 {
        filter.insert(format!("other-{}", i));
        for key in tracked_keys {
            assert!(filter.contains(key));
        }
    }
}

#[test]
fn idempotent_insert_leaves_other_answers_unchanged() {
    let mut filter = BloomFilter::new(100, FpRate::new(1, 100)).unwrap();
    filter.insert("again".to_string());
    let answers: Vec<bool> = (0..50)
        .map(|i| filter.contains(format!("probe-{}", i).as_str()))
        .collect();
    let cardinality = filter.approx_current_capacity();
    filter.insert("again".to_string());
    let answers_after: Vec<bool> = (0..50)
        .map(|i| filter.contains(format!("probe-{}", i).as_str()))
        .collect();
    assert_eq!(answers, answers_after);
    assert_eq!(filter.approx_current_capacity(), cardinality);
}

#[test]
fn clear_resets_fully() {
    let mut filter = BloomFilter::new(1000, FpRate::new(1, 100)).unwrap();
    for i in 0..1000u64 {
        filter.insert(i);
    }
    assert!(filter.approx_current_capacity() > 0);
    filter.clear();
    for i in 0..1000u64 {
        assert!(!filter.contains(&i));
    }
    assert_eq!(filter.approx_current_capacity(), 0);
}
