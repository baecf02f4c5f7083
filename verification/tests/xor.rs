use amq_filters::hashing::{digest_all, index, odd_seed, FilterKey};
use amq_filters::xor_filter::{test_xor_filters, XorFilter};

/// A sequence of raw seeds that looks random enough and is the same each
/// time.
fn raw_seeds(round: u64) -> (u64, u64, u64) {
    let a = round.wrapping_mul(0x9e37_79b9_7f4a_7c15).wrapping_add(0x1234_5678_9abc_def1);
    let b = a.wrapping_mul(0xbf58_476d_1ce4_e5b9).rotate_left(31);
    let c = b.wrapping_mul(0x94d0_49bb_1331_11eb).rotate_left(27);
    (a, b, c)
}

#[test]
fn xor_capacity_follows_the_formula() {
    let none: Vec<u64> = Vec::new();
    assert_eq!(XorFilter::new(&none, 1).unwrap().capacity(), 32);
    let one: Vec<u64> = vec![5];
    assert_eq!(XorFilter::new(&one, 100).unwrap().capacity(), 33);
    let hundred: Vec<u64> = (0..100).collect();
    assert_eq!(XorFilter::new(&hundred, 100).unwrap().capacity(), 155);
    let many: Vec<u64> = (0..1001).collect();
    assert_eq!(XorFilter::new(&many, 100).unwrap().capacity(), 1263);
}

#[test]
fn xor_small_set_has_no_false_negatives() {
    let keys: Vec<u64> = (1..=1000).collect();
    let filter = XorFilter::new(&keys, 100).expect("peelable within 100 attempts");
    for key in &keys {
        assert!(filter.contains(key));
    }
}

#[test]
fn xor_cells_lie_in_the_three_thirds() {
    let keys: Vec<u32> = (0..300).collect();
    let digests = digest_all(&keys);
    let filter = XorFilter::new(&keys, 100).unwrap();
    assert_eq!(digests.len(), 300);
    let third = filter.capacity() / 3;
    assert_eq!(filter.capacity(), 401);
    assert_eq!(third, 133);
    for key in 0u32..2000 {
        let (h0, h1, h2) = (filter.h0(&key), filter.h1(&key), filter.h2(&key));
        assert!(h0 < third);
        assert!(third <= h1 && h1 < 2 * third);
        assert!(2 * third <= h2 && h2 < 3 * third);
        let s = filter.slots(key.digest());
        assert_eq!((s.h0, s.h1, s.h2), (h0, h1, h2));
    }
}

#[test]
fn xor_positions_are_the_indices_of_the_digest() {
    let digests: Vec<u64> = Vec::new();
    let filter = XorFilter::with_seeds(&digests, 4, 6, 8).unwrap();
    let key: u64 = 1234;
    let d = key.digest();
    assert_eq!(filter.capacity(), 32);
    assert_eq!(filter.h0(&key), index(d, odd_seed(4), 10));
    assert_eq!(filter.h1(&key), index(d, odd_seed(6), 10) + 10);
    assert_eq!(filter.h2(&key), index(d, odd_seed(8), 10) + 20);
}

#[test]
fn xor_fingerprint_is_the_top_seven_bits_of_the_digest() {
    let none: Vec<u64> = Vec::new();
    let filter = XorFilter::new(&none, 1).unwrap();
    for key in 0u64..1000 {
        let fp = filter.fingerprint(&key);
        assert_eq!(fp as u64, key.digest() >> 57);
        assert!(fp < 128);
    }
}

#[test]
fn xor_empty_filter_holds_keys_of_fingerprint_zero_only() {
    let none: Vec<u64> = Vec::new();
    let filter = XorFilter::new(&none, 1).unwrap();
    for key in 0u64..5000 {
        assert_eq!(filter.contains(&key), filter.fingerprint(&key) == 0);
    }
}

#[test]
fn xor_without_attempts_nothing_is_built() {
    let keys: Vec<u64> = (1..=10).collect();
    assert!(XorFilter::new(&keys, 0).is_none());
}

#[test]
fn xor_a_key_given_twice_cannot_be_peeled() {
    let keys: Vec<u64> = vec![1, 2, 3, 2];
    assert!(XorFilter::new(&keys, 50).is_none());
    let digests = digest_all(&keys);
    assert!(XorFilter::with_seeds(&digests, 1, 2, 3).is_none());
}

#[test]
fn xor_map_and_assign_build_the_table() {
    let keys: Vec<u64> = (0..50).collect();
    let digests = digest_all(&keys);
    let none: Vec<u64> = Vec::new();
    let mut round: u64 = 0;
    loop {
        let (r0, r1, r2) = raw_seeds(round);
        let built = XorFilter::with_seeds(&digests, r0, r1, r2);
        let empty = XorFilter::with_seeds(&none, r0, r1, r2).unwrap();
        assert_eq!(empty.capacity(), 32);
        if let Some(mut filter) = built {
            let again = XorFilter::with_seeds(&digests, r0, r1, r2).unwrap();
            let (ok, plan) = again.map(&digests);
            assert!(ok);
            assert_eq!(plan.len(), 50);
            for (d, slot) in &plan {
                let s = filter.slots(*d);
                assert!(s.h0 == *slot || s.h1 == *slot || s.h2 == *slot);
                assert!(digests.contains(d));
            }
            for t in 0..plan.len() {
                for u in t + 1..plan.len() {
                    let s = filter.slots(plan[t].0);
                    assert!(s.h0 != plan[u].1 && s.h1 != plan[u].1 && s.h2 != plan[u].1);
                }
            }
            filter.assign(plan);
            for key in &keys {
                assert!(filter.contains(key));
                assert_eq!(filter.contains(key), again.contains(key));
            }
            break;
        }
        round += 1;
        assert!(round < 1000);
    }
}

#[test]
fn xor_same_seeds_give_the_same_filter() {
    let keys: Vec<u64> = (0..2000).collect();
    let digests = digest_all(&keys);
    let mut round: u64 = 0;
    loop {
        let (r0, r1, r2) = raw_seeds(round);
        let a = XorFilter::with_seeds(&digests, r0, r1, r2);
        let b = XorFilter::with_seeds(&digests, r0, r1, r2);
        assert_eq!(a.is_some(), b.is_some());
        if let (Some(a), Some(b)) = (a, b) {
            for probe in 0u64..50_000 {
                assert_eq!(a.contains(&probe), b.contains(&probe));
            }
            break;
        }
        round += 1;
        assert!(round < 1000);
    }
}

#[test]
fn xor_keys_of_other_types() {
    let words: Vec<Vec<u8>> = vec![b"alpha".to_vec(), b"beta".to_vec(), b"gamma".to_vec()];
    let filter = XorFilter::new(&words, 100).unwrap();
    for word in &words {
        assert!(filter.contains(word));
    }
    let numbers: Vec<i32> = vec![-5, 0, 5, i32::MIN, i32::MAX];
    let filter = XorFilter::new(&numbers, 100).unwrap();
    for number in &numbers {
        assert!(filter.contains(number));
    }
}

#[test]
fn xor_false_positive_rate_is_bounded() {
    let keys: Vec<u32> = (0..100_000).collect();
    let filter = XorFilter::new(&keys, 100).unwrap();
    let mut false_positives = 0;
    for probe in 100_000u32..1_100_000 {
        if filter.contains(&probe) {
            false_positives += 1;
        }
    }
    let fpr = false_positives as f64 / 1_000_000.0;
    assert!(fpr <= 2.0 * 0.0078, "fpr = {}", fpr);
}

#[test]
fn xor_standard_run() {
    let t = test_xor_filters().expect("peelable");
    assert_eq!(t.items, 1_000_000);
    assert_eq!(t.bits, 8 * 1_230_032);
    assert_eq!(t.true_positives, 1_000_000);
    let fpr = t.false_positives as f64 / t.items as f64;
    assert!(fpr > 0.004 && fpr < 0.012, "fpr = {}", fpr);
}
