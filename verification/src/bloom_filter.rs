//! The classical Bloom filter: one bit array and several seeded hashes.

use crate::arithmetic::ceil_div;
use crate::entropy::random_u64;
use crate::hashing::{
    digest_spec, index, index_spec, is_odd, odd_seed, odd_seed_spec, usize_digest, FilterKey,
};
use crate::tally::{Tally, STANDARD_RUN_ITEMS};
use vstd::prelude::*;

verus! {

/// Numerator of the bits-per-key constant `-ln(0.0074) / ln(2)^2`, taken to
/// eighteen decimal places and rounded down.
pub const BITS_PER_KEY_NUM: u64 = 10_211_769_177_510_708_992;

/// Numerator of `ln 2`, taken to eighteen decimal places and rounded down.
pub const LN2_NUM: u64 = 693_147_180_559_945_309;

/// Denominator of the two constants above: 10^18.
pub const FIXED_POINT_DEN: u64 = 1_000_000_000_000_000_000;

/// Length of the bit array for `n` expected keys at the target
/// false-positive rate 0.0074: the least integer not below
/// `n * BITS_PER_KEY_NUM / 10^18`.
pub open spec fn bloom_bits(n: int) -> int {
    ceil_div(n * BITS_PER_KEY_NUM as int, FIXED_POINT_DEN as int)
}

/// Number of hash functions for `m` bits and `n` expected keys: the least
/// integer not below `(m / n) * ln 2`, and zero when `n` is zero.
pub open spec fn bloom_hashes(m: int, n: int) -> int {
    if n <= 0 {
        0
    } else {
        ceil_div(m * LN2_NUM as int, n * FIXED_POINT_DEN as int)
    }
}

/// The mathematical content of a Bloom filter.
pub struct BloomView {
    pub bits: Seq<bool>,
    pub seeds: Seq<u64>,
}

impl BloomView {
    /// The bit that hash number `i` assigns to digest `d`.
    pub open spec fn slot(self, i: int, d: u64) -> int {
        index_spec(d, self.seeds[i], self.bits.len() as int)
    }

    /// Whether some hash of `d` points at bit `j`.
    pub open spec fn touches(self, d: u64, j: int) -> bool {
        exists|i: int| 0 <= i < self.seeds.len() && self.slot(i, d) == j
    }

    /// The filter after the key with digest `d` has been added: every bit
    /// that a hash of `d` points at is set, and no other bit changes.
    pub open spec fn insert(self, d: u64) -> BloomView {
        BloomView {
            bits: Seq::new(self.bits.len(), |j: int| self.bits[j] || self.touches(d, j)),
            seeds: self.seeds,
        }
    }

    /// Whether every bit that a hash of `d` points at is set.
    pub open spec fn contains(self, d: u64) -> bool {
        forall|i: int| 0 <= i < self.seeds.len() ==> self.bits[#[trigger] self.slot(i, d)]
    }

    /// The filter after all of `ds` have been added, first to last.
    pub open spec fn insert_all(self, ds: Seq<u64>) -> BloomView
        decreases ds.len(),
    {
        if ds.len() == 0 {
            self
        } else {
            self.insert(ds[0]).insert_all(ds.drop_first())
        }
    }

    /// Whether every bit set in `self` is set in `later`, over the same seeds.
    pub open spec fn grows_to(self, later: BloomView) -> bool {
        &&& later.seeds == self.seeds
        &&& later.bits.len() == self.bits.len()
        &&& forall|j: int| 0 <= j < self.bits.len() && self.bits[j] ==> later.bits[j]
    }

    /// Where there are hashes there are bits, and the seeds are odd.
    pub open spec fn wf(self) -> bool {
        &&& self.seeds.len() > 0 ==> self.bits.len() > 0
        &&& forall|i: int| 0 <= i < self.seeds.len() ==> is_odd(#[trigger] self.seeds[i])
    }
}

/// Adding a key only sets bits.
pub proof fn lemma_insert_grows(v: BloomView, d: u64)
    ensures
        v.grows_to(v.insert(d)),
        v.wf() ==> v.insert(d).wf(),
{
}

/// A key that a filter contains is contained in every filter it grows to:
/// a query never turns from true to false.
pub proof fn lemma_contains_monotone(a: BloomView, b: BloomView, d: u64)
    requires
        a.wf(),
        a.grows_to(b),
        a.contains(d),
    ensures
        b.contains(d),
{
    assert forall|i: int| 0 <= i < b.seeds.len() implies b.bits[#[trigger] b.slot(i, d)] by {
        assert(a.slot(i, d) == b.slot(i, d));
    }
}

/// A key is contained right after it has been added.
pub proof fn lemma_insert_contains(v: BloomView, d: u64)
    requires
        v.wf(),
    ensures
        v.insert(d).contains(d),
{
    let w = v.insert(d);
    assert forall|i: int| 0 <= i < w.seeds.len() implies w.bits[#[trigger] w.slot(i, d)] by {
        assert(w.slot(i, d) == v.slot(i, d));
    }
}

/// Adding any number of keys only sets bits.
pub proof fn lemma_insert_all_grows(v: BloomView, ds: Seq<u64>)
    requires
        v.wf(),
    ensures
        v.grows_to(v.insert_all(ds)),
        v.insert_all(ds).wf(),
    decreases ds.len(),
{
    if ds.len() > 0 {
        lemma_insert_all_grows(v.insert(ds[0]), ds.drop_first());
    }
}

/// No false negatives: whatever was added to a filter, in whatever order and
/// however often, each added key is contained afterwards.
pub proof fn lemma_no_false_negatives(v: BloomView, ds: Seq<u64>, k: int)
    requires
        v.wf(),
        0 <= k < ds.len(),
    ensures
        v.insert_all(ds).contains(ds[k]),
    decreases ds.len(),
{
    lemma_insert_grows(v, ds[0]);
    if k == 0 {
        lemma_insert_contains(v, ds[0]);
        lemma_insert_all_grows(v.insert(ds[0]), ds.drop_first());
        lemma_contains_monotone(v.insert(ds[0]), v.insert_all(ds), ds[0]);
    } else {
        lemma_no_false_negatives(v.insert(ds[0]), ds.drop_first(), k - 1);
    }
}

/// Monotonicity of queries: a key that is contained stays contained after
/// any further additions.
pub proof fn lemma_query_never_reverts(v: BloomView, d: u64, more: Seq<u64>)
    requires
        v.wf(),
        v.contains(d),
    ensures
        v.insert_all(more).contains(d),
{
    lemma_insert_all_grows(v, more);
    lemma_contains_monotone(v, v.insert_all(more), d);
}

/// Determinism given the seeds: two fresh filters of the same length over
/// the same seeds, to which the same keys are added in the same order, end
/// with the same bits, and so answer every query alike.
pub proof fn lemma_seeds_fix_bits(a: BloomView, b: BloomView, ds: Seq<u64>)
    requires
        a.seeds == b.seeds,
        a.bits.len() == b.bits.len(),
        forall|j: int| 0 <= j < a.bits.len() ==> !a.bits[j] && !b.bits[j],
    ensures
        a.insert_all(ds) == b.insert_all(ds),
        forall|d: u64| a.insert_all(ds).contains(d) == b.insert_all(ds).contains(d),
{
    assert(a.bits =~= b.bits);
}

/// Computes `bloom_bits`.
pub fn bloom_size(expected_items: usize) -> (m: usize)
    requires
        bloom_bits(expected_items as int) <= usize::MAX,
    ensures
        m == bloom_bits(expected_items as int),
{
    let n: u128 = expected_items as u128;
    let scaled: u128 = n * (BITS_PER_KEY_NUM as u128);
    let m: u128 = (scaled + (FIXED_POINT_DEN as u128 - 1)) / (FIXED_POINT_DEN as u128);
    m as usize
}

/// Computes `bloom_hashes`.
pub fn bloom_hash_count(size: usize, expected_items: usize) -> (k: usize)
    ensures
        k == bloom_hashes(size as int, expected_items as int),
        k <= size,
{
    if expected_items == 0 {
        return 0;
    }
    let m: u128 = size as u128;
    let n: u128 = expected_items as u128;
    let num: u128 = m * (LN2_NUM as u128);
    let den: u128 = n * (FIXED_POINT_DEN as u128);
    let k: u128 = (num + (den - 1)) / den;
    assert(k <= m) by (nonlinear_arith)
        requires
            n >= 1,
            m >= 0,
            num == m * LN2_NUM,
            den == n * FIXED_POINT_DEN,
            LN2_NUM <= FIXED_POINT_DEN,
            k == (num + (den - 1)) / (den as int),
    ;
    k as usize
}

/// A Bloom filter over keys of any type that has a digest.
pub struct BloomFilter {
    bit_vec: Vec<bool>,
    seeds: Vec<u64>,
    size: usize,
}

impl View for BloomFilter {
    type V = BloomView;

    closed spec fn view(&self) -> BloomView {
        BloomView { bits: self.bit_vec@, seeds: self.seeds@ }
    }
}

impl BloomFilter {
    /// The representation invariant: the bit array has the recorded length,
    /// and the view is well formed.
    pub closed spec fn wf(&self) -> bool {
        &&& self.bit_vec@.len() == self.size
        &&& self@.wf()
    }

    /// An empty filter of `size` bits whose seeds are the given raw values,
    /// each made odd.
    pub fn with_seeds(size: usize, raw_seeds: &Vec<u64>) -> (f: BloomFilter)
        requires
            raw_seeds@.len() > 0 ==> size > 0,
        ensures
            f.wf(),
            f@.wf(),
            f@.bits == Seq::new(size as nat, |j: int| false),
            f@.seeds == Seq::new(raw_seeds@.len(), |i: int| odd_seed_spec(raw_seeds@[i])),
    {
        let mut bit_vec: Vec<bool> = Vec::new();
        let mut j: usize = 0;
        while j < size
            invariant
                j <= size,
                bit_vec@ == Seq::new(j as nat, |j: int| false),
            decreases size - j,
        {
            bit_vec.push(false);
            j += 1;
        }
        let mut seeds: Vec<u64> = Vec::new();
        let mut i: usize = 0;
        while i < raw_seeds.len()
            invariant
                i <= raw_seeds@.len(),
                seeds@ == Seq::new(i as nat, |i: int| odd_seed_spec(raw_seeds@[i])),
                forall|t: int| 0 <= t < i ==> is_odd(#[trigger] seeds@[t]),
            decreases raw_seeds@.len() - i,
        {
            seeds.push(odd_seed(raw_seeds[i]));
            i += 1;
        }
        BloomFilter { bit_vec, seeds, size }
    }

    /// An empty filter sized for `expected_items` keys at the target
    /// false-positive rate, with freshly drawn seeds.
    pub fn new(expected_items: usize) -> (f: BloomFilter)
        requires
            bloom_bits(expected_items as int) <= usize::MAX,
        ensures
            f.wf(),
            f@.wf(),
            f@.bits == Seq::new(bloom_bits(expected_items as int) as nat, |j: int| false),
            f@.seeds.len() == bloom_hashes(
                bloom_bits(expected_items as int),
                expected_items as int,
            ),
    {
        let size = bloom_size(expected_items);
        let num_hashes = bloom_hash_count(size, expected_items);
        let mut raw: Vec<u64> = Vec::new();
        let mut i: usize = 0;
        while i < num_hashes
            invariant
                i <= num_hashes,
                raw@.len() == i,
            decreases num_hashes - i,
        {
            raw.push(random_u64());
            i += 1;
        }
        BloomFilter::with_seeds(size, &raw)
    }

    /// Length of the bit array.
    pub fn size(&self) -> (m: usize)
        requires
            self.wf(),
        ensures
            m == self@.bits.len(),
    {
        self.size
    }

    /// Number of hash functions.
    pub fn num_hashes(&self) -> (k: usize)
        ensures
            k == self@.seeds.len(),
    {
        self.seeds.len()
    }

    /// The bit that `seed` assigns to `item` in this filter's bit array.
    pub fn hash<K: FilterKey>(&self, item: &K, seed: u64) -> (i: usize)
        requires
            self.wf(),
            self@.bits.len() > 0,
        ensures
            i == index_spec(digest_spec(item.key_bytes()), seed, self@.bits.len() as int),
            i < self@.bits.len(),
    {
        index(item.digest(), seed, self.size)
    }

    /// Adds a key: sets the bit of each hash. Never fails.
    pub fn add<K: FilterKey>(&mut self, item: &K)
        requires
            old(self).wf(),
        ensures
            final(self).wf(),
            final(self)@ == old(self)@.insert(digest_spec(item.key_bytes())),
            final(self)@.contains(digest_spec(item.key_bytes())),
    {
        let d = item.digest();
        let ghost before = self@;
        proof {
            lemma_insert_contains(before, d);
        }
        let mut i: usize = 0;
        while i < self.seeds.len()
            invariant
                i <= self.seeds@.len(),
                self.wf(),
                before.wf(),
                self.seeds@ == before.seeds,
                self.bit_vec@.len() == before.bits.len(),
                forall|j: int|
                    0 <= j < before.bits.len() ==> (#[trigger] self.bit_vec@[j] == (before.bits[j]
                        || exists|t: int| 0 <= t < i && before.slot(t, d) == j)),
            decreases self.seeds@.len() - i,
        {
            let idx = index(d, self.seeds[i], self.size);
            self.bit_vec[idx] = true;
            assert(before.slot(i as int, d) == idx);
            i += 1;
        }
        assert(self@.bits =~= before.insert(d).bits);
    }

    /// Queries a key: true iff the bit of each hash is set.
    pub fn contains<K: FilterKey>(&self, item: &K) -> (found: bool)
        requires
            self.wf(),
        ensures
            found == self@.contains(digest_spec(item.key_bytes())),
    {
        let d = item.digest();
        let mut i: usize = 0;
        while i < self.seeds.len()
            invariant
                i <= self.seeds@.len(),
                self.wf(),
                d == digest_spec(item.key_bytes()),
                forall|t: int| 0 <= t < i ==> self@.bits[#[trigger] self@.slot(t, d)],
            decreases self.seeds@.len() - i,
        {
            let idx = index(d, self.seeds[i], self.size);
            assert(self@.slot(i as int, d) == idx);
            if !self.bit_vec[idx] {
                return false;
            }
            i += 1;
        }
        true
    }
}

/// Builds a filter for `expected_items` keys, adds the integers
/// `1..=expected_items`, then queries them and the next `expected_items`
/// integers, and counts the positive answers.
pub fn test_bloom_f_with_specified_num_of_items(expected_items: usize) -> (t: Tally)
    requires
        bloom_bits(expected_items as int) <= usize::MAX,
    ensures
        t.items == expected_items,
        t.bits == bloom_bits(expected_items as int),
        t.true_positives == expected_items,
        t.false_positives <= expected_items,
{
    let mut filter = BloomFilter::new(expected_items);
    let bits = filter.size();
    let mut item: usize = 1;
    while item <= expected_items
        invariant
            1 <= item <= expected_items + 1,
            2 * expected_items <= usize::MAX,
            filter.wf(),
            filter@.wf(),
            filter@.bits.len() == bits,
            forall|j: usize| 1 <= j < item ==> filter@.contains(#[trigger] usize_digest(j)),
        decreases expected_items + 1 - item,
    {
        let ghost before = filter@;
        filter.add(&item);
        proof {
            let d = usize_digest(item);
            lemma_insert_contains(before, d);
            assert forall|j: usize| 1 <= j < item implies filter@.contains(
                #[trigger] usize_digest(j),
            ) by {
                lemma_contains_monotone(before, filter@, usize_digest(j));
            }
        }
        item += 1;
    }
    let mut false_positives: usize = 0;
    let mut probe: usize = expected_items + 1;
    while probe <= expected_items + expected_items
        invariant
            expected_items + 1 <= probe <= 2 * expected_items + 1,
            2 * expected_items <= usize::MAX,
            filter.wf(),
            false_positives <= probe - (expected_items + 1),
        decreases 2 * expected_items + 1 - probe,
    {
        if filter.contains(&probe) {
            false_positives += 1;
        }
        if probe == usize::MAX {
            break;
        }
        probe += 1;
    }
    let mut true_positives: usize = 0;
    let mut item: usize = 1;
    while item <= expected_items
        invariant
            1 <= item <= expected_items + 1,
            2 * expected_items <= usize::MAX,
            filter.wf(),
            true_positives == item - 1,
            forall|j: usize| 1 <= j <= expected_items ==> filter@.contains(#[trigger] usize_digest(j)),
        decreases expected_items + 1 - item,
    {
        let found = filter.contains(&item);
        assert(found == filter@.contains(usize_digest(item)));
        if found {
            true_positives += 1;
        }
        item += 1;
    }
    Tally { items: expected_items, bits, true_positives, false_positives }
}

/// The standard run: 996 147 keys in 10 172 424 bits. Every added key is
/// found again.
pub fn test_bloom_filters() -> (t: Tally)
    ensures
        t.items == 996_147,
        t.bits == 10_172_424,
        t.true_positives == t.items,
        t.false_positives <= t.items,
{
    test_bloom_f_with_specified_num_of_items(STANDARD_RUN_ITEMS)
}

} // verus!
