use amq_filters::cuckoo_filter::{
    power_of_two, test_cuckoo_filters, CuckooFilter, BUCKET_SIZE, FINGERPRINT_SIZE, MAX_NUM_KICKS,
};
use amq_filters::hashing::{index, mix, odd_seed, FilterKey};

#[test]
fn cuckoo_parameters() {
    assert_eq!(BUCKET_SIZE, 4);
    assert_eq!(FINGERPRINT_SIZE, 10);
    assert_eq!(MAX_NUM_KICKS, 500);
}

#[test]
fn cuckoo_sizes_are_powers_of_two() {
    for size in [1usize, 2, 4, 1024, 262_144, 1 << 31] {
        assert!(power_of_two(size));
    }
    for size in [0usize, 3, 6, 1000, 262_143, 262_145, usize::MAX] {
        assert!(!power_of_two(size));
    }
}

#[test]
fn cuckoo_insert_lookup_delete() {
    let mut filter = CuckooFilter::new(1024);
    let key: i32 = 7;
    assert!(!filter.lookup(&key));
    assert!(filter.insert(&key));
    assert!(filter.lookup(&key));
    assert!(filter.delete(&key));
    assert!(!filter.lookup(&key));
    assert!(!filter.delete(&key));
}

#[test]
fn cuckoo_fingerprint_is_the_top_ten_bits_of_the_mixed_digest() {
    let filter = CuckooFilter::with_seeds(16, 100, 200);
    let key: u64 = 99;
    let expected = (mix(odd_seed(200), key.digest()) >> 54) as u16;
    assert_eq!(filter.fingerprint(&key), expected);
    assert_eq!(filter.fingerprint_of(key.digest()), expected);
    for k in 0u64..1000 {
        assert!(filter.fingerprint(&k) < 1024);
    }
    // The seed of the fingerprint is odd: with a digest of 2^54, the top ten
    // bits of the product are the low ten bits of the seed.
    assert_eq!(filter.fingerprint_of(1u64 << 54), 201);
}

#[test]
fn cuckoo_buckets_are_found_from_each_other() {
    let filter = CuckooFilter::with_seeds(256, 5, 9);
    for key in 0i32..500 {
        let f = filter.fingerprint(&key);
        let i1 = filter.hash1(&key);
        assert_eq!(i1, index(key.digest(), odd_seed(5), 256));
        assert_eq!(i1, filter.hash(&key, odd_seed(5)));
        let i2 = filter.hash2(i1, f);
        assert!(i2 < 256);
        assert_eq!(filter.hash2(i2, f), i1);
        let as_key: i32 = f as i32;
        assert_eq!(i2, i1 ^ index(as_key.digest(), odd_seed(5), 256));
    }
}

#[test]
fn cuckoo_first_bucket_is_filled_first() {
    let mut filter = CuckooFilter::with_seeds(64, 1, 2);
    let key: u32 = 12;
    let f = filter.fingerprint(&key);
    let i1 = filter.hash1(&key);
    let i2 = filter.hash2(i1, f);
    for round in 1..=BUCKET_SIZE {
        assert!(filter.insert(&key));
        assert_eq!(filter.bucket_len(i1), round);
        assert!(filter.bucket_has(i1, f));
    }
    if i1 != i2 {
        assert_eq!(filter.bucket_len(i2), 0);
        assert!(filter.insert(&key));
        assert_eq!(filter.bucket_len(i1), BUCKET_SIZE);
        assert_eq!(filter.bucket_len(i2), 1);
        assert!(filter.bucket_has(i2, f));
    }
}

#[test]
fn cuckoo_store_and_evict_move_fingerprints() {
    let mut filter = CuckooFilter::with_seeds(8, 3, 4);
    filter.store(2, 100);
    filter.store(2, 200);
    assert_eq!(filter.bucket_len(2), 2);
    let (evicted, next) = filter.evict(2, 0, 300);
    assert_eq!(evicted, 100);
    assert_eq!(next, filter.hash2(2, 100));
    assert!(filter.bucket_has(2, 300));
    assert!(filter.bucket_has(2, 200));
    assert!(!filter.bucket_has(2, 100));
    assert_eq!(filter.bucket_len(2), 2);
    assert!(filter.remove_from(2, 200));
    assert!(!filter.remove_from(2, 200));
    assert_eq!(filter.bucket_len(2), 1);
}

#[test]
fn cuckoo_delete_takes_one_occurrence() {
    let mut filter = CuckooFilter::new(32);
    let key: i32 = 5;
    assert!(filter.insert(&key));
    assert!(filter.insert(&key));
    assert!(filter.delete(&key));
    assert!(filter.lookup(&key));
    assert!(filter.delete(&key));
    assert!(!filter.lookup(&key));
    assert!(!filter.delete(&key));
}

#[test]
fn cuckoo_delete_of_a_key_never_inserted_changes_nothing() {
    let mut filter = CuckooFilter::new(4096);
    for key in 0i32..100 {
        assert!(filter.insert(&key));
    }
    let mut missed = 0;
    for key in 1000i32..1100 {
        if !filter.lookup(&key) {
            assert!(!filter.delete(&key));
            missed += 1;
        }
    }
    assert!(missed > 0);
    for key in 0i32..100 {
        assert!(filter.lookup(&key));
    }
}

#[test]
fn cuckoo_overflows_when_full() {
    // One bucket only: both candidate buckets of every key are that bucket.
    let mut filter = CuckooFilter::new(1);
    assert_eq!(filter.size(), 1);
    for key in 0i32..4 {
        assert!(filter.insert(&key));
    }
    let extra: i32 = 4;
    assert!(!filter.insert(&extra));
    assert_eq!(filter.bucket_len(0), BUCKET_SIZE);
}

#[test]
fn cuckoo_evicts_to_make_room() {
    let mut filter = CuckooFilter::new(64);
    let mut inserted: Vec<i32> = Vec::new();
    for key in 0i32..200 {
        if filter.insert(&key) {
            inserted.push(key);
        } else {
            break;
        }
    }
    assert!(inserted.len() >= 150);
    if inserted.len() == 200 {
        for key in &inserted {
            assert!(filter.lookup(key));
        }
    }
}

#[test]
fn cuckoo_deleting_every_inserted_key_empties_the_filter() {
    let mut filter = CuckooFilter::new(1024);
    for key in 0u32..3000 {
        assert!(filter.insert(&key));
    }
    for key in 0u32..3000 {
        assert!(filter.lookup(&key));
    }
    for key in (0u32..3000).rev() {
        assert!(filter.delete(&key));
    }
    for bucket in 0..1024 {
        assert_eq!(filter.bucket_len(bucket), 0);
    }
    for key in 0u32..3000 {
        assert!(!filter.lookup(&key));
    }
}

#[test]
fn cuckoo_same_seeds_give_the_same_answers() {
    let mut a = CuckooFilter::with_seeds(512, 77, 88);
    let mut b = CuckooFilter::with_seeds(512, 77, 88);
    for key in 0u32..1500 {
        assert!(a.insert(&key));
    }
    for key in (0u32..1500).rev() {
        assert!(b.insert(&key));
    }
    for probe in 0u32..20_000 {
        assert_eq!(a.lookup(&probe), b.lookup(&probe));
    }
}

#[test]
fn cuckoo_duplicate_after_full_load_is_accepted() {
    let mut filter = CuckooFilter::new(262_144);
    for key in 1i32..=996_147 {
        assert!(filter.insert(&key));
    }
    let again: i32 = 1;
    assert!(filter.insert(&again));
    assert!(filter.lookup(&again));
}

#[test]
fn cuckoo_standard_run() {
    let t = test_cuckoo_filters();
    assert_eq!(t.items, 996_147);
    assert_eq!(t.bits, 10_485_760);
    assert_eq!(t.inserted, 996_147);
    assert_eq!(t.true_positives, 996_147);
    assert_eq!(t.positives_after_delete, 0);
    let fpr = t.false_positives as f64 / t.items as f64;
    assert!(fpr <= 2.0 * 0.0078, "fpr = {}", fpr);
}
