use mqfilters::bf::{optimal_bit_count, optimal_capacity, optimal_hash_count, FpRate};

#[test]
fn optimal_bit_count_works() {
    // Given `n` (capacity) and `p` (false positive rate), find `m` (size) and
    // optimal `k`.
    let test_cases = [
        (10, FpRate::new(5, 100), 63, 5),
        (100, FpRate::new(5, 100), 624, 5),
        (100, FpRate::new(1, 10), 480, 4),
        (100, FpRate::new(1, 100), 959, 7),
        (1000, FpRate::new(1, 100), 9586, 7),
        (10000, FpRate::new(1, 100), 95851, 7),
        (100000, FpRate::new(1, 100), 958506, 7),
    ];
    for (n, p, m, k) in test_cases {
        assert_eq!(optimal_bit_count(n, p), m);
        assert_eq!(optimal_hash_count(n, m), k);
        assert_eq!(optimal_bit_count(optimal_capacity(m, p), p), m);
    }
}

#[test]
fn optimal_capacity_works() {
    let test_cases = [
        (1 << 13 as usize, FpRate::new(1, 100), 855, 7), // 1 KiB
        (1 << 13 as usize, FpRate::new(5, 100), 1314, 5),
        (1 << 23 as usize, FpRate::new(1, 100), 875175, 7), // 1 MiB
        (1 << 23 as usize, FpRate::new(5, 100), 1345358, 5),
        (1 << 33 as usize, FpRate::new(1, 100), 896179684, 7), // 1 GiB
        (1 << 33 as usize, FpRate::new(5, 100), 1377646461, 5),
    ];
    for (m, p, n, k) in test_cases {
        assert_eq!(optimal_capacity(m, p), n);
        assert_eq!(optimal_hash_count(n, m), k);
        assert_eq!(optimal_capacity(optimal_bit_count(n, p), p), n);
    }
}

#[test]
fn optimal_hash_count_works() {
    let test_cases = [
        (10, 63, 5),
        (100, 624, 5),
        (100, 480, 4),
        (100, 959, 7),
        (1000, 9586, 7),
        (10000, 95851, 7),
        (100000, 958506, 7),
    ];
    for (n, m, k) in test_cases {
        assert_eq!(optimal_hash_count(n, m), k);
    }
}

#[test]
fn fp_rate_validity() {
    assert!(FpRate::new(1, 100).is_valid());
    assert!(FpRate::new(99, 100).is_valid());
    assert!(!FpRate::new(0, 100).is_valid());
    assert!(!FpRate::new(100, 100).is_valid());
    assert!(!FpRate::new(101, 100).is_valid());
    assert!(!FpRate::new(0, 0).is_valid());
}
