use mqfilters::{BloomFilter, FpRate, InsertableQueryFilter, QueryFilterError};

#[test]
fn invalid_configurations_are_rejected() {
    assert!(matches!(
        BloomFilter::<u64>::new(0, FpRate::new(1, 100)),
        Err(QueryFilterError::Other(_))
    ));
    assert!(matches!(
        BloomFilter::<u64>::new(100, FpRate::new(0, 100)),
        Err(QueryFilterError::Other(_))
    ));
    assert!(matches!(
        BloomFilter::<u64>::new(100, FpRate::new(100, 100)),
        Err(QueryFilterError::Other(_))
    ));
    assert!(matches!(
        BloomFilter::<u64>::new(100, FpRate::new(200, 100)),
        Err(QueryFilterError::Other(_))
    ));
    assert!(matches!(
        BloomFilter::<u64>::with_size(0, FpRate::new(1, 100)),
        Err(QueryFilterError::Other(_))
    ));
    let err = match BloomFilter::<u64>::new(0, FpRate::new(1, 100)) {
        Err(e) => e,
        Ok(_) => panic!("expected an error"),
    };
    assert!(!err.message().is_empty());
}

#[test]
fn explicit_seed_pair_is_deterministic() {
    let seeds = (7u64, 11u64);
    let mut a = BloomFilter::with_capacity_and_hasher(1000, FpRate::new(1, 100), seeds).unwrap();
    let mut b = BloomFilter::with_capacity_and_hasher(1000, FpRate::new(1, 100), seeds).unwrap();
    for i in 0..100u64 {
        a.insert_key(&i);
    }
    for i in (0..100u64).rev() {
        b.insert_key(&i);
    }
    for i in 0..100u64 {
        assert!(a.contains_key(&i));
        assert!(b.contains_key(&i));
    }
    assert_eq!(a.approx_current_capacity(), b.approx_current_capacity());
}

#[test]
fn hash_level_operations_match_estimator_formula() {
    let filter = BloomFilter::<u64>::new(100, FpRate::new(1, 100)).unwrap();
    // A fresh filter for capacity 100 at rate 0.01 has 959 bits and 7 hashes.
    assert_eq!(filter.approx_current_capacity(), 0);

    let mut filter = filter;
    // Hash values below the bit count select their own value as position,
    // so these set exactly 100 distinct bits out of 959.
    let hs: Vec<u64> = (0..100u64).collect();
    filter.insert_hashes(&hs);
    assert!(filter.contains_hashes(&hs));
    // round((959 / 7) * ln(959 / 859)) == 15
    assert_eq!(filter.approx_current_capacity(), 15);

    // A hash value outside the set positions is not contained.
    assert!(!filter.contains_hashes(&vec![100u64]));
    // The empty query is vacuously contained.
    assert!(filter.contains_hashes(&vec![]));
}

#[test]
fn hashing_spreads_keys_over_positions() {
    // If hashing handed back constant or degenerate values, a fresh filter
    // would answer `true` for a key after inserting a different one; with
    // 959 bits and 7 hashes two fixed keys almost surely disagree.
    let mut filter = BloomFilter::new(100, FpRate::new(1, 100)).unwrap();
    filter.insert("first");
    assert!(filter.contains_key(&"first"));
    assert!(!filter.contains_key(&"second"));
    assert!(filter.approx_current_capacity() >= 1);
}

#[test]
fn saturated_filter_answers_true_for_everything() {
    let mut filter = BloomFilter::<u64>::new(1, FpRate::new(1, 2)).unwrap();
    // Capacity one at rate one-half needs only a couple of bits; a few
    // inserts saturate the array, after which every query answers `true`
    // and the estimate is clamped to the sentinel.
    for i in 0..64u64 {
        filter.insert_key(&i);
    }
    let hs: Vec<u64> = (0..64u64).collect();
    assert!(filter.contains_hashes(&hs));
    assert_eq!(filter.approx_current_capacity(), usize::MAX);
}
