use amq_filters::binary_fuse_filter::BFFilter;
use amq_filters::blocked_bloom_filter::BlockedBloomFilter;
use amq_filters::bloom_filter::BloomFilter;
use amq_filters::cuckoo_filter::CuckooFilter;
use amq_filters::membership::{DeletingFilter, IncrementalFilter, MembershipFilter};
use amq_filters::xor_filter::XorFilter;

fn holds_all<F: MembershipFilter>(filter: &F, keys: &[u64]) -> bool {
    keys.iter().all(|key| filter.query(key))
}

fn fill<F: IncrementalFilter>(filter: &mut F, keys: &[u64]) -> bool {
    let mut all = true;
    for key in keys {
        if !IncrementalFilter::insert(filter, key) {
            all = false;
        }
    }
    all
}

#[test]
fn every_filter_holds_its_keys() {
    let keys: Vec<u64> = (0..1000).collect();

    let mut bloom = BloomFilter::new(1000);
    assert!(fill(&mut bloom, &keys));
    assert!(holds_all(&bloom, &keys));

    let mut blocked = BlockedBloomFilter::new(1000);
    assert!(fill(&mut blocked, &keys));
    assert!(holds_all(&blocked, &keys));

    let mut cuckoo = CuckooFilter::new(512);
    assert!(fill(&mut cuckoo, &keys));
    assert!(holds_all(&cuckoo, &keys));

    let xor = XorFilter::new(&keys, 100).unwrap();
    assert!(holds_all(&xor, &keys));

    let fuse = BFFilter::new(&keys, 1000).unwrap();
    assert!(holds_all(&fuse, &keys));
}

#[test]
fn query_is_the_filters_own_query() {
    let keys: Vec<u64> = (0..500).collect();
    let xor = XorFilter::new(&keys, 100).unwrap();
    let mut bloom = BloomFilter::new(500);
    let mut cuckoo = CuckooFilter::new(256);
    for key in &keys {
        bloom.add(key);
        assert!(cuckoo.insert(key));
    }
    for probe in 0u64..5000 {
        assert_eq!(xor.query(&probe), xor.contains(&probe));
        assert_eq!(bloom.query(&probe), bloom.contains(&probe));
        assert_eq!(cuckoo.query(&probe), cuckoo.lookup(&probe));
    }
}

fn empty_out<F: DeletingFilter>(filter: &mut F, keys: &[u64]) -> bool {
    let mut all = true;
    for key in keys {
        if !DeletingFilter::delete(filter, key) {
            all = false;
        }
    }
    all
}

#[test]
fn deleting_filter_gives_its_keys_back() {
    let keys: Vec<u64> = (0..1000).collect();
    let mut cuckoo = CuckooFilter::new(512);
    assert!(fill(&mut cuckoo, &keys));
    assert!(empty_out(&mut cuckoo, &keys));
    for key in &keys {
        assert!(!cuckoo.query(key));
    }
    assert!(!empty_out(&mut cuckoo, &keys[..1]));
}

#[test]
fn storage_is_counted_in_bits() {
    let keys: Vec<u64> = (0..1000).collect();
    assert_eq!(BloomFilter::new(1000).storage_bits(), 10_212);
    assert_eq!(BlockedBloomFilter::new(1000).storage_bits(), 10_416);
    assert_eq!(CuckooFilter::new(512).storage_bits(), 512 * 4 * 10);
    assert_eq!(XorFilter::new(&keys, 100).unwrap().storage_bits(), 8 * 1262);
    assert_eq!(BFFilter::new(&keys, 1000).unwrap().storage_bits(), 8 * 1315);
}
