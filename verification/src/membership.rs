//! The contract that the five filters share: a query that answers for the
//! digest of a key; for the filters that grow, an insertion after which the
//! key is held; and for the one that shrinks, a deletion.

use crate::binary_fuse_filter::BFFilter;
use crate::blocked_bloom_filter::BlockedBloomFilter;
use crate::bloom_filter::BloomFilter;
use crate::cuckoo_filter::{
    lemma_contains_iff_item, lost_one, CuckooFilter, BUCKET_SIZE, FINGERPRINT_SIZE,
};
use crate::hashing::{digest_spec, FilterKey};
use crate::arithmetic::lemma_product_bound;
use crate::xor_filter::XorFilter;
use vstd::prelude::*;

verus! {

/// A filter that can be asked whether it holds a key.
pub trait MembershipFilter {
    /// The representation invariant of the filter.
    spec fn valid(&self) -> bool;

    /// Whether the filter answers "present" for a key with digest `d`.
    spec fn holds(&self, d: u64) -> bool;

    /// The storage of the filter in bits.
    spec fn bit_count(&self) -> nat;

    /// Asks for a key.
    fn query<K: FilterKey>(&self, key: &K) -> (found: bool)
        requires
            self.valid(),
        ensures
            found == self.holds(digest_spec(key.key_bytes())),
    ;

    /// The storage of the filter in bits. Divided by the number of keys it
    /// gives the bits per key.
    fn storage_bits(&self) -> (bits: u128)
        requires
            self.valid(),
        ensures
            bits == self.bit_count(),
    ;
}

/// A filter to which keys can be added one by one.
pub trait IncrementalFilter: MembershipFilter {
    /// Adds a key and says whether that succeeded. A key that was added
    /// with success is held.
    fn insert<K: FilterKey>(&mut self, key: &K) -> (ok: bool)
        requires
            old(self).valid(),
        ensures
            final(self).valid(),
            ok ==> final(self).holds(digest_spec(key.key_bytes())),
    ;
}

/// A filter from which keys can be taken out again.
pub trait DeletingFilter: IncrementalFilter {
    /// Takes a key out and says whether the filter held it.
    fn delete<K: FilterKey>(&mut self, key: &K) -> (found: bool)
        requires
            old(self).valid(),
        ensures
            final(self).valid(),
            found == old(self).holds(digest_spec(key.key_bytes())),
    ;
}

impl MembershipFilter for BloomFilter {
    open spec fn valid(&self) -> bool {
        self.wf()
    }

    open spec fn holds(&self, d: u64) -> bool {
        self@.contains(d)
    }

    open spec fn bit_count(&self) -> nat {
        self@.bits.len()
    }

    fn query<K: FilterKey>(&self, key: &K) -> (found: bool) {
        self.contains(key)
    }

    fn storage_bits(&self) -> (bits: u128) {
        self.size() as u128
    }
}

impl IncrementalFilter for BloomFilter {
    fn insert<K: FilterKey>(&mut self, key: &K) -> (ok: bool)
        ensures
            ok,
    {
        self.add(key);
        true
    }
}

impl MembershipFilter for BlockedBloomFilter {
    open spec fn valid(&self) -> bool {
        self.wf()
    }

    open spec fn holds(&self, d: u64) -> bool {
        self@.contains(d)
    }

    open spec fn bit_count(&self) -> nat {
        self.budget() as nat
    }

    fn query<K: FilterKey>(&self, key: &K) -> (found: bool) {
        self.check(key)
    }

    fn storage_bits(&self) -> (bits: u128) {
        self.total_size() as u128
    }
}

impl IncrementalFilter for BlockedBloomFilter {
    fn insert<K: FilterKey>(&mut self, key: &K) -> (ok: bool)
        ensures
            ok,
    {
        self.add(key);
        true
    }
}

impl MembershipFilter for CuckooFilter {
    open spec fn valid(&self) -> bool {
        self.wf()
    }

    open spec fn holds(&self, d: u64) -> bool {
        self@.contains(d)
    }

    open spec fn bit_count(&self) -> nat {
        self@.buckets.len() * BUCKET_SIZE as nat * FINGERPRINT_SIZE as nat
    }

    fn query<K: FilterKey>(&self, key: &K) -> (found: bool) {
        self.lookup(key)
    }

    fn storage_bits(&self) -> (bits: u128) {
        let buckets: u128 = self.size() as u128;
        proof {
            lemma_product_bound(
                buckets * BUCKET_SIZE,
                FINGERPRINT_SIZE as int,
                u64::MAX * 4,
                10,
            );
        }
        buckets * BUCKET_SIZE as u128 * FINGERPRINT_SIZE as u128
    }
}

impl IncrementalFilter for CuckooFilter {
    /// Inserts a key as `CuckooFilter::insert` does: into the first of the
    /// key's two buckets that has room, and else by evictions. Success is
    /// owed where one of the two buckets has room.
    fn insert<K: FilterKey>(&mut self, key: &K) -> (ok: bool)
        ensures
            final(self)@.buckets.len() == old(self)@.buckets.len(),
            final(self)@.seed == old(self)@.seed,
            final(self)@.seed1 == old(self)@.seed1,
            ok ==> final(self)@.items() == old(self)@.items().insert(
                old(self)@.item_of(digest_spec(key.key_bytes())),
            ),
            !ok ==> lost_one(
                old(self)@.items().insert(old(self)@.item_of(digest_spec(key.key_bytes()))),
                final(self)@.items(),
            ),
            ({
                let d = digest_spec(key.key_bytes());
                let f = old(self)@.fingerprint(d);
                let i1 = old(self)@.primary(d);
                let i2 = old(self)@.alternate(i1, f);
                let first = old(self)@.buckets[i1 as int];
                let second = old(self)@.buckets[i2 as int];
                &&& first.len() < BUCKET_SIZE ==> ok && final(self)@ == old(self)@.with_bucket(
                    i1 as int,
                    first.push(f),
                )
                &&& first.len() >= BUCKET_SIZE && second.len() < BUCKET_SIZE ==> ok && final(self)@
                    == old(self)@.with_bucket(i2 as int, second.push(f))
            }),
    {
        let ok = CuckooFilter::insert(self, key);
        proof {
            self.lemma_view_wf();
            lemma_contains_iff_item(self@, digest_spec(key.key_bytes()));
        }
        ok
    }
}

impl DeletingFilter for CuckooFilter {
    fn delete<K: FilterKey>(&mut self, key: &K) -> (found: bool) {
        CuckooFilter::delete(self, key)
    }
}

impl MembershipFilter for XorFilter {
    open spec fn valid(&self) -> bool {
        self.wf()
    }

    open spec fn holds(&self, d: u64) -> bool {
        self@.contains(d)
    }

    open spec fn bit_count(&self) -> nat {
        8 * self@.cells.len()
    }

    fn query<K: FilterKey>(&self, key: &K) -> (found: bool) {
        self.contains(key)
    }

    fn storage_bits(&self) -> (bits: u128) {
        8 * (self.capacity() as u128)
    }
}

impl MembershipFilter for BFFilter {
    open spec fn valid(&self) -> bool {
        self.wf()
    }

    open spec fn holds(&self, d: u64) -> bool {
        self@.contains(d)
    }

    open spec fn bit_count(&self) -> nat {
        8 * self@.cells.len()
    }

    fn query<K: FilterKey>(&self, key: &K) -> (found: bool) {
        self.contains(key)
    }

    fn storage_bits(&self) -> (bits: u128) {
        8 * (self.capacity() as u128)
    }
}

} // verus!
