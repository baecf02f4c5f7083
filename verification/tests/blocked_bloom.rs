use amq_filters::blocked_bloom_filter::{
    test_blocked_bloom_f_with_specified_num_of_items, test_blocked_bloom_filters,
    BlockedBloomFilter, CACHE_LINE_SIZE_BITS,
};
use amq_filters::hashing::{index, odd_seed, FilterKey};

#[test]
fn blocked_new_is_sized_for_the_expected_items() {
    let filter = BlockedBloomFilter::new(996_147);
    assert_eq!(filter.total_size(), 10_375_872);
    assert_eq!(filter.num_blocks(), 10_133);
    assert_eq!(filter.num_hashes(), 8);
}

#[test]
fn blocked_for_one_item_has_one_block() {
    let filter = BlockedBloomFilter::new(1);
    assert_eq!(filter.total_size(), 11);
    assert_eq!(filter.num_blocks(), 1);
    assert_eq!(filter.num_hashes(), 9);
}

#[test]
fn blocked_block_count_rounds_up() {
    assert_eq!(CACHE_LINE_SIZE_BITS, 1024);
    // 99 items: 1011 bits plus two percent are 1031 bits, which need two blocks.
    let filter = BlockedBloomFilter::new(99);
    assert_eq!(filter.total_size(), 1031);
    assert_eq!(filter.num_blocks(), 2);
    assert_eq!(filter.num_hashes(), 8);
}

#[test]
fn blocked_added_key_is_contained() {
    let mut filter = BlockedBloomFilter::new(100);
    let key: u64 = 42;
    assert!(!filter.check(&key));
    filter.add(&key);
    assert!(filter.check(&key));
}

#[test]
fn blocked_hashes_are_the_indices_of_the_digest() {
    let raw: Vec<u64> = vec![2, 4, 6, 8];
    let filter = BlockedBloomFilter::with_seeds(7, &raw, 7 * 1024);
    let key: u64 = 31;
    let d = key.digest();
    assert_eq!(filter.hash_block_index(&key, odd_seed(2)), index(d, 3, 7));
    let inside = filter.hash_inside_blocks(&key);
    assert_eq!(
        inside,
        vec![index(d, 5, 1024), index(d, 7, 1024), index(d, 9, 1024)]
    );
}

#[test]
fn blocked_insert_touches_one_block_only() {
    let raw: Vec<u64> = vec![11, 22, 33, 44, 55];
    let mut filter = BlockedBloomFilter::with_seeds(16, &raw, 16 * 1024);
    let key: u64 = 1;
    filter.add(&key);
    let block = filter.hash_block_index(&key, odd_seed(11));
    let mut others = 0;
    for probe in 2u64..5000 {
        if filter.hash_block_index(&probe, odd_seed(11)) != block {
            assert!(!filter.check(&probe));
            others += 1;
        }
    }
    assert!(others > 0);
}

#[test]
fn blocked_sets_exactly_the_bits_of_the_hashes() {
    let raw: Vec<u64> = vec![10, 21, 32];
    let mut filter = BlockedBloomFilter::with_seeds(2, &raw, 2048);
    let key: u64 = 7;
    filter.add(&key);
    let block = filter.hash_block_index(&key, odd_seed(10));
    let set = filter.hash_inside_blocks(&key);
    for probe in 0u64..20_000 {
        let expected = filter.hash_block_index(&probe, odd_seed(10)) == block
            && filter
                .hash_inside_blocks(&probe)
                .iter()
                .all(|bit| set.contains(bit));
        assert_eq!(filter.check(&probe), expected);
    }
}

#[test]
fn blocked_has_no_false_negatives_and_queries_never_turn_false() {
    let mut filter = BlockedBloomFilter::new(3000);
    let probes: Vec<u64> = (100_000..100_200).collect();
    let mut seen: Vec<bool> = probes.iter().map(|p| filter.check(p)).collect();
    for key in 0u64..3000 {
        filter.add(&key);
        if key % 100 == 0 {
            for (i, p) in probes.iter().enumerate() {
                let now = filter.check(p);
                assert!(now || !seen[i]);
                seen[i] = now;
            }
        }
    }
    for key in 0u64..3000 {
        assert!(filter.check(&key));
    }
}

#[test]
fn blocked_same_seeds_give_the_same_filter() {
    let raw: Vec<u64> = vec![3, 1 << 40, 0xffff_0000_ffff, 17, 99];
    let mut a = BlockedBloomFilter::with_seeds(8, &raw, 8192);
    let mut b = BlockedBloomFilter::with_seeds(8, &raw, 8192);
    for key in 0u32..300 {
        a.add(&key);
        b.add(&key);
    }
    for probe in 0u32..20_000 {
        assert_eq!(a.check(&probe), b.check(&probe));
    }
}

#[test]
fn blocked_false_positive_rate_is_bounded() {
    let n: usize = 100_000;
    let t = test_blocked_bloom_f_with_specified_num_of_items(n);
    assert_eq!(t.items, n);
    assert_eq!(t.true_positives, n);
    let fpr = t.false_positives as f64 / n as f64;
    assert!(fpr <= 2.0 * 0.0074, "fpr = {}", fpr);
}

#[test]
fn blocked_standard_run() {
    let t = test_blocked_bloom_filters();
    assert_eq!(t.items, 996_147);
    assert_eq!(t.bits, 10_375_872);
    assert_eq!(t.true_positives, 996_147);
    let fpr = t.false_positives as f64 / t.items as f64;
    assert!(fpr > 0.002 && fpr < 0.015, "fpr = {}", fpr);
}
