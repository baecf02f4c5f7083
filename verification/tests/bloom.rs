use amq_filters::bloom_filter::{
    bloom_hash_count, bloom_size, test_bloom_f_with_specified_num_of_items, test_bloom_filters,
    BloomFilter,
};
use amq_filters::hashing::{index, odd_seed, FilterKey};

#[test]
fn bloom_size_follows_the_formula() {
    assert_eq!(bloom_size(0), 0);
    assert_eq!(bloom_size(1), 11);
    assert_eq!(bloom_size(2), 21);
    assert_eq!(bloom_size(100), 1022);
    assert_eq!(bloom_size(996_147), 10_172_424);
    assert_eq!(bloom_size(1_000_000), 10_211_770);
}

#[test]
fn bloom_hash_count_follows_the_formula() {
    assert_eq!(bloom_hash_count(0, 0), 0);
    assert_eq!(bloom_hash_count(11, 1), 8);
    assert_eq!(bloom_hash_count(10_172_424, 996_147), 8);
    assert_eq!(bloom_hash_count(10, 10), 1);
    assert_eq!(bloom_hash_count(20, 10), 2);
    assert_eq!(bloom_hash_count(0, 5), 0);
}

#[test]
fn bloom_new_is_sized_for_the_expected_items() {
    let filter = BloomFilter::new(996_147);
    assert_eq!(filter.size(), 10_172_424);
    assert_eq!(filter.num_hashes(), 8);
}

#[test]
fn bloom_added_key_is_contained() {
    let mut filter = BloomFilter::new(100);
    let key: u64 = 42;
    filter.add(&key);
    assert!(filter.contains(&key));
}

#[test]
fn bloom_empty_filter_contains_nothing() {
    let filter = BloomFilter::new(100);
    for key in 0u64..1000 {
        assert!(!filter.contains(&key));
    }
}

#[test]
fn bloom_for_no_items_has_no_bits_and_no_hashes() {
    let mut filter = BloomFilter::new(0);
    assert_eq!(filter.size(), 0);
    assert_eq!(filter.num_hashes(), 0);
    let key: u64 = 1;
    filter.add(&key);
    assert!(filter.contains(&key));
}

#[test]
fn bloom_sets_exactly_the_bits_of_the_hashes() {
    let raw: Vec<u64> = vec![10, 21, 32];
    let mut filter = BloomFilter::with_seeds(64, &raw);
    let key: u64 = 7;
    filter.add(&key);
    let d = key.digest();
    let set: Vec<usize> = raw.iter().map(|r| index(d, odd_seed(*r), 64)).collect();
    for probe in 0u64..10_000 {
        let pd = probe.digest();
        let expected = raw.iter().all(|r| set.contains(&index(pd, odd_seed(*r), 64)));
        assert_eq!(filter.contains(&probe), expected);
    }
}

#[test]
fn bloom_hash_is_the_index_of_the_digest() {
    let raw: Vec<u64> = vec![4];
    let filter = BloomFilter::with_seeds(1000, &raw);
    let key: u32 = 77;
    assert_eq!(filter.hash(&key, 12345), index(key.digest(), 12345, 1000));
    assert!(filter.hash(&key, 12345) < 1000);
}

#[test]
fn bloom_has_no_false_negatives() {
    let mut filter = BloomFilter::new(5000);
    for key in 0u64..5000 {
        filter.add(&key);
    }
    for key in 0u64..5000 {
        assert!(filter.contains(&key));
    }
}

#[test]
fn bloom_queries_never_turn_false() {
    let mut filter = BloomFilter::new(2000);
    let probes: Vec<u64> = (100_000..100_200).collect();
    let mut seen: Vec<bool> = probes.iter().map(|p| filter.contains(p)).collect();
    for key in 0u64..2000 {
        filter.add(&key);
        if key % 100 == 0 {
            for (i, p) in probes.iter().enumerate() {
                let now = filter.contains(p);
                assert!(now || !seen[i]);
                seen[i] = now;
            }
        }
    }
}

#[test]
fn bloom_same_seeds_give_the_same_filter() {
    let raw: Vec<u64> = vec![3, 1 << 40, 0xffff_0000_ffff, 17, 99];
    let mut a = BloomFilter::with_seeds(4096, &raw);
    let mut b = BloomFilter::with_seeds(4096, &raw);
    for key in 0u32..300 {
        a.add(&key);
        b.add(&key);
    }
    for probe in 0u32..20_000 {
        assert_eq!(a.contains(&probe), b.contains(&probe));
    }
}

#[test]
fn bloom_false_positive_rate_is_bounded() {
    let n: usize = 100_000;
    let t = test_bloom_f_with_specified_num_of_items(n);
    assert_eq!(t.items, n);
    assert_eq!(t.bits, bloom_size(n));
    assert_eq!(t.true_positives, n);
    let fpr = t.false_positives as f64 / n as f64;
    assert!(fpr <= 2.0 * 0.0074, "fpr = {}", fpr);
}

#[test]
fn bloom_standard_run() {
    let t = test_bloom_filters();
    assert_eq!(t.items, 996_147);
    assert_eq!(t.bits, 10_172_424);
    assert_eq!(t.true_positives, 996_147);
    let fpr = t.false_positives as f64 / t.items as f64;
    assert!(fpr > 0.002 && fpr < 0.015, "fpr = {}", fpr);
}
