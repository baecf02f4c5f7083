use std::collections::hash_map::DefaultHasher;
use std::hash::Hasher;

use amq_filters::hashing::{digest_all, digest_bytes, index, mix, odd_seed, reduce, FilterKey};

fn std_digest(bytes: &[u8]) -> u64 {
    let mut hasher = DefaultHasher::new();
    hasher.write(bytes);
    hasher.finish()
}

#[test]
fn mix_is_a_wrapping_product() {
    assert_eq!(mix(3, 5), 15);
    assert_eq!(mix(u64::MAX, 2), u64::MAX - 1);
    assert_eq!(mix(0x8000_0000_0000_0001, 2), 2);
    assert_eq!(mix(7, 0), 0);
}

#[test]
fn reduce_takes_the_upper_half_modulo_the_range() {
    assert_eq!(reduce(0x0000_0007_0000_0000, 4), 3);
    assert_eq!(reduce(0x0000_0007_ffff_ffff, 4), 3);
    assert_eq!(reduce(0xffff_ffff_0000_0000, 1000), 0xffff_ffffusize % 1000);
    assert_eq!(reduce(0x0000_0000_ffff_ffff, 10), 0);
    assert_eq!(reduce(u64::MAX, 1), 0);
}

#[test]
fn index_is_reduce_after_mix() {
    assert_eq!(index(0x0000_0003_0000_0000, 1, 2), 1);
    let d: u64 = 0x1234_5678_9abc_def0;
    let seed: u64 = 0x0fed_cba9_8765_4321;
    let expected = ((seed.wrapping_mul(d) >> 32) % 1_000_003) as usize;
    assert_eq!(index(d, seed, 1_000_003), expected);
    for range in [1usize, 2, 3, 1024, 10_172_424] {
        assert!(index(d, seed, range) < range);
    }
}

#[test]
fn odd_seed_sets_the_lowest_bit() {
    assert_eq!(odd_seed(4), 5);
    assert_eq!(odd_seed(7), 7);
    assert_eq!(odd_seed(0), 1);
    assert_eq!(odd_seed(u64::MAX - 1), u64::MAX);
}

#[test]
fn digest_is_that_of_the_standard_hasher_on_the_key_bytes() {
    assert_eq!(digest_bytes(b"filter"), std_digest(b"filter"));
    assert_eq!(digest_bytes(b""), std_digest(b""));
    assert_eq!(5u64.digest(), std_digest(&5u64.to_le_bytes()));
    assert_eq!(5usize.digest(), std_digest(&5u64.to_le_bytes()));
    assert_eq!(5u32.digest(), std_digest(&5u32.to_le_bytes()));
    assert_eq!(5i32.digest(), std_digest(&5u32.to_le_bytes()));
    assert_eq!((-1i32).digest(), std_digest(&u32::MAX.to_le_bytes()));
    assert_eq!(vec![1u8, 2, 3].digest(), std_digest(&[1, 2, 3]));
}

#[test]
fn digest_is_the_same_each_time() {
    let key: u64 = 0xdead_beef;
    assert_eq!(key.digest(), key.digest());
    assert_ne!(1u64.digest(), 2u64.digest());
}

#[test]
fn digest_all_keeps_the_order_of_the_keys() {
    let keys: Vec<u32> = vec![9, 8, 7];
    let digests = digest_all(&keys);
    assert_eq!(digests, vec![9u32.digest(), 8u32.digest(), 7u32.digest()]);
    let none: Vec<u32> = Vec::new();
    assert!(digest_all(&none).is_empty());
}
