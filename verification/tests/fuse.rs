use amq_filters::binary_fuse_filter::{
    fuse_block_size, fuse_layout, fuse_size, order_by_block, test_bff, BFFilter,
    STANDARD_RUN_BLOCK,
};
use amq_filters::hashing::{digest_all, index, odd_seed, FilterKey};
use amq_filters::peeling::Slots;

/// A sequence of raw seeds that looks random enough and is the same each
/// time.
fn raw_seeds(round: u64) -> (u64, u64, u64) {
    let a = round.wrapping_mul(0x9e37_79b9_7f4a_7c15).wrapping_add(0x1234_5678_9abc_def1);
    let b = a.wrapping_mul(0xbf58_476d_1ce4_e5b9).rotate_left(31);
    let c = b.wrapping_mul(0x94d0_49bb_1331_11eb).rotate_left(27);
    (a, b, c)
}

#[test]
fn fuse_size_follows_the_formula() {
    assert_eq!(fuse_size(996_147, 14_463), 1_128_114);
    assert_eq!(fuse_size(1000, 263), 1315);
    assert_eq!(fuse_size(8, 3), 9);
    assert_eq!(fuse_size(8, 9), 9);
    assert_eq!(fuse_size(0, 5), 0);
    assert_eq!(fuse_size(1, 1), 2);
}

#[test]
fn fuse_block_size_follows_the_formula() {
    assert_eq!(fuse_block_size(0), 0);
    assert_eq!(fuse_block_size(1), 4);
    assert_eq!(fuse_block_size(2), 7);
    assert_eq!(fuse_block_size(3), 9);
    assert_eq!(fuse_block_size(4), 10);
    assert_eq!(fuse_block_size(5), 12);
    assert_eq!(fuse_block_size(1000), 263);
    assert_eq!(fuse_block_size(100_000), 3812);
    assert_eq!(fuse_block_size(996_147), 14_463);
    assert_eq!(fuse_block_size(1_000_000), 14_495);
    assert_eq!(fuse_block_size(4_294_967_295), 1_855_059);
    assert_eq!(fuse_block_size(usize::MAX), 716_926_570_594);
    assert_eq!(STANDARD_RUN_BLOCK, 14_463);
    for n in 1..2000usize {
        let expected = (4.8 * (n as f64).powf(0.58)) as u64;
        assert_eq!(fuse_block_size(n), expected);
    }
}

#[test]
fn fuse_new_takes_the_block_size_of_the_formula() {
    let keys: Vec<u64> = (1..=1000).collect();
    let filter = BFFilter::new(&keys, 1000).expect("peelable within 1000 attempts");
    assert_eq!(filter.block_size(), 263);
    assert_eq!(filter.capacity(), 1315);
    for key in &keys {
        assert!(filter.contains(key));
    }
    // Too few keys for three blocks of the formula's length.
    let few: Vec<u64> = (1..=100).collect();
    assert_eq!(fuse_block_size(100), 69);
    assert_eq!(fuse_layout(100, 69), None);
    assert!(BFFilter::new(&few, 1000).is_none());
    assert!(BFFilter::new(&keys, 0).is_none());
}

#[test]
fn fuse_layout_needs_three_blocks() {
    assert_eq!(fuse_layout(996_147, 14_463), Some(1_128_114));
    assert_eq!(fuse_layout(1000, 263), Some(1315));
    assert_eq!(fuse_layout(10, 0), None);
    assert_eq!(fuse_layout(10, 100), None);
    assert_eq!(fuse_layout(0, 5), None);
    assert_eq!(fuse_layout(10, 4), Some(12));
    assert_eq!(fuse_layout(10, 6), None);
}

#[test]
fn fuse_without_layout_nothing_is_built() {
    let keys: Vec<u64> = (0..10).collect();
    assert!(BFFilter::with_blocks(&keys, 0, 100).is_none());
    assert!(BFFilter::with_blocks(&keys, 100, 100).is_none());
    let none: Vec<u64> = Vec::new();
    assert!(BFFilter::with_blocks(&none, 4, 100).is_none());
    let digests = digest_all(&keys);
    assert!(BFFilter::with_seeds(&digests, 0, 1, 2, 3).is_none());
}

#[test]
fn fuse_without_attempts_nothing_is_built() {
    let keys: Vec<u64> = (0..1000).collect();
    assert!(BFFilter::with_blocks(&keys, 263, 0).is_none());
}

#[test]
fn fuse_small_set_has_no_false_negatives() {
    let keys: Vec<u64> = (1..=1000).collect();
    let filter = BFFilter::with_blocks(&keys, 263, 1000).expect("peelable within 1000 attempts");
    assert_eq!(filter.capacity(), 1315);
    assert_eq!(filter.block_size(), 263);
    for key in &keys {
        assert!(filter.contains(key));
    }
}

#[test]
fn fuse_cells_lie_in_three_consecutive_blocks() {
    let keys: Vec<u32> = (0..1000).collect();
    let filter = BFFilter::with_blocks(&keys, 263, 1000).unwrap();
    for key in 0u32..5000 {
        let (h0, h1, h2) = filter.hash(&key);
        assert!(h0 < 1315 - 2 * 263);
        let block = h0 / 263;
        assert_eq!(h1 / 263, block + 1);
        assert_eq!(h2 / 263, block + 2);
        assert!(h2 < 1315);
        let s = filter.slots(key.digest());
        assert_eq!((s.h0, s.h1, s.h2), (h0, h1, h2));
    }
}

#[test]
fn fuse_positions_are_the_indices_of_the_digest() {
    let keys: Vec<u64> = (1..=30).collect();
    let digests = digest_all(&keys);
    let mut round: u64 = 0;
    let (filter, raw) = loop {
        let (r0, r1, r2) = raw_seeds(round);
        if let Some(filter) = BFFilter::with_seeds(&digests, 10, r0, r1, r2) {
            break (filter, (r0, r1, r2));
        }
        round += 1;
        assert!(round < 10_000);
    };
    // ceil(1.125 * 30 / 10) = 4 blocks of 10 cells.
    assert_eq!(filter.capacity(), 40);
    for key in 0u64..1000 {
        let d = key.digest();
        let h0 = index(d, odd_seed(raw.0), 20);
        let block = h0 / 10;
        assert_eq!(
            filter.hash(&key),
            (
                h0,
                index(d, odd_seed(raw.1), 10) + (block + 1) * 10,
                index(d, odd_seed(raw.2), 10) + (block + 2) * 10
            )
        );
    }
}

#[test]
fn fuse_fingerprint_is_the_top_seven_bits_of_the_digest() {
    let keys: Vec<u64> = (0..1000).collect();
    let filter = BFFilter::with_blocks(&keys, 263, 1000).unwrap();
    for key in 0u64..1000 {
        let fp = filter.fingerprint(&key);
        assert_eq!(fp as u64, key.digest() >> 57);
    }
}

#[test]
fn fuse_keys_are_listed_block_by_block() {
    let all = vec![
        Slots { h0: 25, h1: 0, h2: 0 },
        Slots { h0: 3, h1: 0, h2: 0 },
        Slots { h0: 14, h1: 0, h2: 0 },
        Slots { h0: 7, h1: 0, h2: 0 },
        Slots { h0: 19, h1: 0, h2: 0 },
        Slots { h0: 20, h1: 0, h2: 0 },
    ];
    // In blocks of ten cells the keys lie in the blocks 2, 0, 1, 0, 1, 2.
    assert_eq!(order_by_block(&all, 10), vec![1, 3, 2, 4, 0, 5]);
    assert_eq!(order_by_block(&all, 100), vec![0, 1, 2, 3, 4, 5]);
    assert_eq!(order_by_block(&all, 1), vec![1, 3, 2, 4, 5, 0]);
    let none: Vec<Slots> = Vec::new();
    assert!(order_by_block(&none, 10).is_empty());
}

#[test]
fn fuse_a_key_given_twice_cannot_be_peeled() {
    let keys: Vec<u64> = vec![1, 2, 3, 4, 5, 6, 7, 8, 9, 3];
    assert!(BFFilter::with_blocks(&keys, 3, 50).is_none());
}

#[test]
fn fuse_map_and_assign_build_the_table() {
    let keys: Vec<u64> = (0..40).collect();
    let digests = digest_all(&keys);
    let mut round: u64 = 0;
    loop {
        let (r0, r1, r2) = raw_seeds(round);
        if let Some(built) = BFFilter::with_seeds(&digests, 22, r0, r1, r2) {
            assert_eq!(built.capacity(), 66);
            let mut filter = BFFilter::with_seeds(&digests, 22, r0, r1, r2).unwrap();
            let buffer: Vec<(u64, Slots)> =
                digests.iter().map(|d| (*d, filter.slots(*d))).collect();
            let (ok, plan) = filter.map(&buffer);
            assert!(ok);
            assert_eq!(plan.len(), 40);
            for (d, slot) in &plan {
                let s = filter.slots(*d);
                assert!(s.h0 == *slot || s.h1 == *slot || s.h2 == *slot);
            }
            filter.assign(plan);
            for key in &keys {
                assert!(filter.contains(key));
                assert!(built.contains(key));
            }
            break;
        }
        round += 1;
        assert!(round < 10_000);
    }
}

#[test]
fn fuse_same_seeds_give_the_same_filter() {
    let keys: Vec<u64> = (0..2000).collect();
    let digests = digest_all(&keys);
    let mut round: u64 = 0;
    loop {
        let (r0, r1, r2) = raw_seeds(round);
        let a = BFFilter::with_seeds(&digests, 700, r0, r1, r2);
        let b = BFFilter::with_seeds(&digests, 700, r0, r1, r2);
        assert_eq!(a.is_some(), b.is_some());
        if let (Some(a), Some(b)) = (a, b) {
            for probe in 0u64..50_000 {
                assert_eq!(a.contains(&probe), b.contains(&probe));
            }
            break;
        }
        round += 1;
        assert!(round < 1000);
    }
}

#[test]
fn fuse_false_positive_rate_is_bounded() {
    let keys: Vec<u32> = (0..5000).collect();
    let filter = BFFilter::with_blocks(&keys, 1800, 1000).unwrap();
    assert_eq!(filter.capacity(), 7200);
    let mut false_positives = 0;
    for probe in 5000u32..1_005_000 {
        if filter.contains(&probe) {
            false_positives += 1;
        }
    }
    let fpr = false_positives as f64 / 1_000_000.0;
    assert!(fpr <= 2.0 * 0.0078, "fpr = {}", fpr);
}

#[test]
fn fuse_standard_run() {
    let t = test_bff().expect("peelable");
    assert_eq!(t.items, 996_147);
    assert_eq!(t.bits, 8 * 1_128_114);
    assert_eq!(t.true_positives, 996_147);
    assert!(t.bits as f64 / t.items as f64 <= 9.1);
    let fpr = t.false_positives as f64 / t.items as f64;
    assert!(fpr > 0.004 && fpr < 0.012, "fpr = {}", fpr);
}
