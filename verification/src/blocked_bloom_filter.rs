//! The blocked Bloom filter: the bits are split into blocks of one cache
//! line each. One hash picks the block of a key, the others pick bits inside
//! that block, so every operation stays within a single block.

use crate::arithmetic::{ceil_div, lemma_product_bound};
use crate::bloom_filter::{bloom_bits, bloom_size, FIXED_POINT_DEN, LN2_NUM};
use crate::entropy::random_u64;
use crate::hashing::{
    digest_spec, index, index_spec, is_odd, odd_seed, odd_seed_spec, usize_digest, FilterKey,
};
use crate::tally::{Tally, STANDARD_RUN_ITEMS};
use vstd::prelude::*;

verus! {

/// Width of a block in bits: a cache line of 128 bytes.
pub const CACHE_LINE_SIZE_BITS: usize = 1024;

/// Bit budget for `n` expected keys: the plain Bloom sizing plus two percent,
/// rounded down.
pub open spec fn blocked_total_bits(n: int) -> int {
    bloom_bits(n) * 102 / 100
}

/// Number of blocks for a bit budget: enough blocks to hold it, and at least
/// one.
pub open spec fn blocked_block_count(total: int) -> int {
    if total <= CACHE_LINE_SIZE_BITS as int {
        1
    } else {
        ceil_div(total, CACHE_LINE_SIZE_BITS as int)
    }
}

/// Number of seeds for a bit budget and `n >= 1` expected keys: the least
/// integer not below `floor(total / n) * ln 2`, plus one. The first seed
/// picks the block.
pub open spec fn blocked_hashes(total: int, n: int) -> int {
    ceil_div((total / n) * LN2_NUM as int, FIXED_POINT_DEN as int) + 1
}

/// The mathematical content of a blocked Bloom filter.
pub struct BlockedView {
    pub blocks: Seq<Seq<bool>>,
    pub seeds: Seq<u64>,
    pub width: nat,
}

impl BlockedView {
    /// There is a block, every block has the same width, and there is a
    /// seed to pick the block; the seeds are odd.
    pub open spec fn wf(self) -> bool {
        &&& self.blocks.len() > 0
        &&& self.width > 0
        &&& self.seeds.len() > 0
        &&& forall|b: int| 0 <= b < self.blocks.len() ==> (#[trigger] self.blocks[b]).len() == self.width
        &&& forall|i: int| 0 <= i < self.seeds.len() ==> is_odd(#[trigger] self.seeds[i])
    }

    /// The block of the key with digest `d`, picked by the first seed.
    pub open spec fn block_of(self, d: u64) -> int {
        index_spec(d, self.seeds[0], self.blocks.len() as int)
    }

    /// The bit inside a block that hash number `i` assigns to digest `d`.
    pub open spec fn slot(self, i: int, d: u64) -> int {
        index_spec(d, self.seeds[i], self.width as int)
    }

    /// Whether one of the in-block hashes of `d` points at bit `j`.
    pub open spec fn touches(self, d: u64, j: int) -> bool {
        exists|i: int| 1 <= i < self.seeds.len() && self.slot(i, d) == j
    }

    /// The filter after the key with digest `d` has been added: inside the
    /// key's block every bit that an in-block hash points at is set; nothing
    /// else changes.
    pub open spec fn insert(self, d: u64) -> BlockedView {
        let b = self.block_of(d);
        BlockedView {
            blocks: self.blocks.update(
                b,
                Seq::new(self.width, |j: int| self.blocks[b][j] || self.touches(d, j)),
            ),
            seeds: self.seeds,
            width: self.width,
        }
    }

    /// Whether every bit of the key's block that an in-block hash of `d`
    /// points at is set.
    pub open spec fn contains(self, d: u64) -> bool {
        forall|i: int|
            1 <= i < self.seeds.len() ==> self.blocks[self.block_of(d)][#[trigger] self.slot(i, d)]
    }

    /// The filter after all of `ds` have been added, first to last.
    pub open spec fn insert_all(self, ds: Seq<u64>) -> BlockedView
        decreases ds.len(),
    {
        if ds.len() == 0 {
            self
        } else {
            self.insert(ds[0]).insert_all(ds.drop_first())
        }
    }

    /// Whether every bit set in `self` is set in `later`, over the same
    /// seeds and the same layout.
    pub open spec fn grows_to(self, later: BlockedView) -> bool {
        &&& later.seeds == self.seeds
        &&& later.width == self.width
        &&& later.blocks.len() == self.blocks.len()
        &&& forall|b: int, j: int|
            0 <= b < self.blocks.len() && 0 <= j < self.width && self.blocks[b][j]
                ==> #[trigger] later.blocks[b][j]
    }
}

/// Adding a key only sets bits, and keeps the layout.
pub proof fn lemma_blocked_insert_grows(v: BlockedView, d: u64)
    requires
        v.wf(),
    ensures
        v.grows_to(v.insert(d)),
        v.insert(d).wf(),
{
    let w = v.insert(d);
}

/// Block locality of an addition: every block but the key's own is left as
/// it was.
pub proof fn lemma_blocked_insert_local(v: BlockedView, d: u64, b: int)
    requires
        v.wf(),
        0 <= b < v.blocks.len(),
        b != v.block_of(d),
    ensures
        v.insert(d).blocks[b] == v.blocks[b],
{
}

/// Block locality of a query: two filters over the same seeds that agree on
/// the key's block give the same answer.
pub proof fn lemma_blocked_query_local(v: BlockedView, w: BlockedView, d: u64)
    requires
        v.wf(),
        w.wf(),
        v.seeds == w.seeds,
        v.width == w.width,
        v.blocks.len() == w.blocks.len(),
        v.blocks[v.block_of(d)] == w.blocks[v.block_of(d)],
    ensures
        v.contains(d) == w.contains(d),
{
    if v.contains(d) {
        assert forall|i: int| 1 <= i < w.seeds.len() implies w.blocks[w.block_of(d)][#[trigger] w.slot(
            i,
            d,
        )] by {
            assert(v.slot(i, d) == w.slot(i, d));
        }
    }
    if w.contains(d) {
        assert forall|i: int| 1 <= i < v.seeds.len() implies v.blocks[v.block_of(d)][#[trigger] v.slot(
            i,
            d,
        )] by {
            assert(v.slot(i, d) == w.slot(i, d));
        }
    }
}

/// A key that a filter contains is contained in every filter it grows to:
/// a query never turns from true to false.
pub proof fn lemma_blocked_contains_monotone(a: BlockedView, b: BlockedView, d: u64)
    requires
        a.wf(),
        a.grows_to(b),
        a.contains(d),
    ensures
        b.contains(d),
{
    assert forall|i: int| 1 <= i < b.seeds.len() implies b.blocks[b.block_of(d)][#[trigger] b.slot(
        i,
        d,
    )] by {
        assert(a.slot(i, d) == b.slot(i, d));
    }
}

/// A key is contained right after it has been added.
pub proof fn lemma_blocked_insert_contains(v: BlockedView, d: u64)
    requires
        v.wf(),
    ensures
        v.insert(d).contains(d),
{
    let w = v.insert(d);
    assert forall|i: int| 1 <= i < w.seeds.len() implies w.blocks[w.block_of(d)][#[trigger] w.slot(
        i,
        d,
    )] by {
        assert(w.slot(i, d) == v.slot(i, d));
    }
}

/// Adding any number of keys only sets bits.
pub proof fn lemma_blocked_insert_all_grows(v: BlockedView, ds: Seq<u64>)
    requires
        v.wf(),
    ensures
        v.grows_to(v.insert_all(ds)),
        v.insert_all(ds).wf(),
    decreases ds.len(),
{
    if ds.len() > 0 {
        lemma_blocked_insert_all_grows(v.insert(ds[0]), ds.drop_first());
    }
}

/// No false negatives: whatever was added to a filter, in whatever order and
/// however often, each added key is contained afterwards.
pub proof fn lemma_blocked_no_false_negatives(v: BlockedView, ds: Seq<u64>, k: int)
    requires
        v.wf(),
        0 <= k < ds.len(),
    ensures
        v.insert_all(ds).contains(ds[k]),
    decreases ds.len(),
{
    lemma_blocked_insert_grows(v, ds[0]);
    if k == 0 {
        lemma_blocked_insert_contains(v, ds[0]);
        lemma_blocked_insert_all_grows(v.insert(ds[0]), ds.drop_first());
        lemma_blocked_contains_monotone(v.insert(ds[0]), v.insert_all(ds), ds[0]);
    } else {
        lemma_blocked_no_false_negatives(v.insert(ds[0]), ds.drop_first(), k - 1);
    }
}

/// Monotonicity of queries: a key that is contained stays contained after
/// any further additions.
pub proof fn lemma_blocked_query_never_reverts(v: BlockedView, d: u64, more: Seq<u64>)
    requires
        v.wf(),
        v.contains(d),
    ensures
        v.insert_all(more).contains(d),
{
    lemma_blocked_insert_all_grows(v, more);
    lemma_blocked_contains_monotone(v, v.insert_all(more), d);
}

/// Determinism given the seeds: two fresh filters of the same layout over
/// the same seeds, to which the same keys are added in the same order, end
/// with the same bits, and so answer every query alike.
pub proof fn lemma_blocked_seeds_fix_bits(a: BlockedView, b: BlockedView, ds: Seq<u64>)
    requires
        a.wf(),
        b.wf(),
        a.seeds == b.seeds,
        a.width == b.width,
        a.blocks.len() == b.blocks.len(),
        forall|k: int, j: int|
            0 <= k < a.blocks.len() && 0 <= j < a.width ==> !a.blocks[k][j] && !b.blocks[k][j],
    ensures
        a.insert_all(ds) == b.insert_all(ds),
        forall|d: u64| a.insert_all(ds).contains(d) == b.insert_all(ds).contains(d),
{
    assert forall|k: int| 0 <= k < a.blocks.len() implies a.blocks[k] == b.blocks[k] by {
    }
    assert(a.blocks =~= b.blocks);
}

/// A blocked Bloom filter over keys of any type that has a digest.
pub struct BlockedBloomFilter {
    blocks: Vec<Vec<bool>>,
    num_blocks: usize,
    num_hashes: usize,
    block_size: usize,
    seeds: Vec<u64>,
    total_size: usize,
}

impl View for BlockedBloomFilter {
    type V = BlockedView;

    closed spec fn view(&self) -> BlockedView {
        BlockedView {
            blocks: Seq::new(self.blocks@.len(), |b: int| self.blocks@[b]@),
            seeds: self.seeds@,
            width: self.block_size as nat,
        }
    }
}

impl BlockedBloomFilter {
    /// The representation invariant: the recorded counts are those of the
    /// stored blocks and seeds, and the view is well formed.
    pub closed spec fn wf(&self) -> bool {
        &&& self.blocks@.len() == self.num_blocks
        &&& self.seeds@.len() == self.num_hashes
        &&& self.block_size == CACHE_LINE_SIZE_BITS
        &&& self@.wf()
    }

    /// The bit budget this filter was sized for.
    pub closed spec fn budget(&self) -> int {
        self.total_size as int
    }

    /// An empty filter of `num_blocks` blocks whose seeds are the given raw
    /// values, each made odd. The first seed picks the block of a key.
    pub fn with_seeds(num_blocks: usize, raw_seeds: &Vec<u64>, total_size: usize) -> (f:
        BlockedBloomFilter)
        requires
            num_blocks > 0,
            raw_seeds@.len() > 0,
        ensures
            f.wf(),
            f@.wf(),
            f@.width == CACHE_LINE_SIZE_BITS,
            f@.blocks == Seq::new(
                num_blocks as nat,
                |b: int| Seq::new(CACHE_LINE_SIZE_BITS as nat, |j: int| false),
            ),
            f@.seeds == Seq::new(raw_seeds@.len(), |i: int| odd_seed_spec(raw_seeds@[i])),
            f.budget() == total_size,
    {
        let block_size = CACHE_LINE_SIZE_BITS;
        let mut blocks: Vec<Vec<bool>> = Vec::new();
        let mut b: usize = 0;
        while b < num_blocks
            invariant
                b <= num_blocks,
                block_size == CACHE_LINE_SIZE_BITS,
                blocks@.len() == b,
                forall|t: int|
                    0 <= t < b ==> (#[trigger] blocks@[t])@ == Seq::new(
                        CACHE_LINE_SIZE_BITS as nat,
                        |j: int| false,
                    ),
            decreases num_blocks - b,
        {
            let mut block: Vec<bool> = Vec::new();
            let mut j: usize = 0;
            while j < block_size
                invariant
                    j <= block_size,
                    block@ == Seq::new(j as nat, |j: int| false),
                decreases block_size - j,
            {
                block.push(false);
                j += 1;
            }
            blocks.push(block);
            b += 1;
        }
        let mut seeds: Vec<u64> = Vec::new();
        let mut i: usize = 0;
        while i < raw_seeds.len()
            invariant
                i <= raw_seeds@.len(),
                seeds@ == Seq::new(i as nat, |i: int| odd_seed_spec(raw_seeds@[i])),
                forall|t: int| 0 <= t < i ==> is_odd(#[trigger] seeds@[t]),
            decreases raw_seeds@.len() - i,
        {
            seeds.push(odd_seed(raw_seeds[i]));
            i += 1;
        }
        let num_hashes = seeds.len();
        let f = BlockedBloomFilter { blocks, num_blocks, num_hashes, block_size, seeds, total_size };
        f
    }

    /// An empty filter sized for `num_elements` keys, with freshly drawn
    /// seeds.
    pub fn new(num_elements: usize) -> (f: BlockedBloomFilter)
        requires
            num_elements > 0,
            blocked_total_bits(num_elements as int) <= usize::MAX,
        ensures
            f.wf(),
            f@.wf(),
            f@.width == CACHE_LINE_SIZE_BITS,
            f.budget() == blocked_total_bits(num_elements as int),
            f@.blocks == Seq::new(
                blocked_block_count(f.budget()) as nat,
                |b: int| Seq::new(CACHE_LINE_SIZE_BITS as nat, |j: int| false),
            ),
            f@.seeds.len() == blocked_hashes(f.budget(), num_elements as int),
    {
        let plain: u128 = bloom_size(num_elements) as u128;
        let total_size: usize = (plain * 102 / 100) as usize;
        let num_blocks: usize = if total_size <= CACHE_LINE_SIZE_BITS {
            1
        } else {
            (total_size - 1) / CACHE_LINE_SIZE_BITS + 1
        };
        let per_key: u128 = (total_size / num_elements) as u128;
        proof {
            lemma_product_bound(per_key as int, LN2_NUM as int, u64::MAX as int, u64::MAX as int);
        }
        let scaled: u128 = per_key * (LN2_NUM as u128);
        let rounded: u128 = (scaled + (FIXED_POINT_DEN as u128 - 1)) / (FIXED_POINT_DEN as u128);
        let num_hashes: usize = rounded as usize + 1;
        let mut raw: Vec<u64> = Vec::new();
        let mut i: usize = 0;
        while i < num_hashes
            invariant
                i <= num_hashes,
                raw@.len() == i,
            decreases num_hashes - i,
        {
            raw.push(random_u64());
            i += 1;
        }
        BlockedBloomFilter::with_seeds(num_blocks, &raw, total_size)
    }

    /// The bit budget this filter was sized for.
    pub fn total_size(&self) -> (bits: usize)
        ensures
            bits == self.budget(),
    {
        self.total_size
    }

    /// Number of blocks.
    pub fn num_blocks(&self) -> (n: usize)
        requires
            self.wf(),
        ensures
            n == self@.blocks.len(),
    {
        self.num_blocks
    }

    /// Number of seeds, the block-picking seed included.
    pub fn num_hashes(&self) -> (k: usize)
        requires
            self.wf(),
        ensures
            k == self@.seeds.len(),
    {
        self.num_hashes
    }

    /// The block that `seed` assigns to `item`.
    pub fn hash_block_index<K: FilterKey>(&self, item: &K, seed: u64) -> (b: usize)
        requires
            self.wf(),
        ensures
            b == index_spec(digest_spec(item.key_bytes()), seed, self@.blocks.len() as int),
            b < self@.blocks.len(),
    {
        index(item.digest(), seed, self.num_blocks)
    }

    /// The bits inside a block that the in-block hashes assign to `item`,
    /// one for each seed but the first.
    pub fn hash_inside_blocks<K: FilterKey>(&self, item: &K) -> (hashes: Vec<usize>)
        requires
            self.wf(),
        ensures
            hashes@.len() == self@.seeds.len() - 1,
            forall|t: int|
                0 <= t < hashes@.len() ==> #[trigger] hashes@[t] == self@.slot(
                    t + 1,
                    digest_spec(item.key_bytes()),
                ),
            forall|t: int| 0 <= t < hashes@.len() ==> #[trigger] hashes@[t] < self@.width,
    {
        let d = item.digest();
        let mut hashes: Vec<usize> = Vec::new();
        let mut i: usize = 1;
        while i < self.num_hashes
            invariant
                self.wf(),
                1 <= i <= self.num_hashes,
                hashes@.len() == i - 1,
                forall|t: int| 0 <= t < hashes@.len() ==> #[trigger] hashes@[t] == self@.slot(t + 1, d),
                forall|t: int| 0 <= t < hashes@.len() ==> #[trigger] hashes@[t] < self@.width,
            decreases self.num_hashes - i,
        {
            let hashed_value = index(d, self.seeds[i], self.block_size);
            hashes.push(hashed_value);
            i += 1;
        }
        hashes
    }

    /// Adds a key: sets the bit of each in-block hash inside the key's
    /// block. Never fails, and touches no other block.
    pub fn add<K: FilterKey>(&mut self, item: &K)
        requires
            old(self).wf(),
        ensures
            final(self).wf(),
            final(self).budget() == old(self).budget(),
            final(self)@ == old(self)@.insert(digest_spec(item.key_bytes())),
            final(self)@.contains(digest_spec(item.key_bytes())),
    {
        proof {
            lemma_blocked_insert_contains(self@, digest_spec(item.key_bytes()));
        }
        let hashes = self.hash_inside_blocks(item);
        let block_index = self.hash_block_index(item, self.seeds[0]);
        let ghost before = self@;
        let ghost d = digest_spec(item.key_bytes());
        let mut i: usize = 0;
        while i < hashes.len()
            invariant
                i <= hashes@.len(),
                self.wf(),
                before.wf(),
                self.total_size == old(self).total_size,
                hashes@.len() == before.seeds.len() - 1,
                block_index == before.block_of(d),
                forall|t: int| 0 <= t < hashes@.len() ==> #[trigger] hashes@[t] == before.slot(t + 1, d),
                forall|t: int| 0 <= t < hashes@.len() ==> #[trigger] hashes@[t] < before.width,
                self@.seeds == before.seeds,
                self@.width == before.width,
                self@.blocks.len() == before.blocks.len(),
                forall|b: int|
                    0 <= b < before.blocks.len() && b != block_index ==> #[trigger] self@.blocks[b]
                        == before.blocks[b],
                forall|j: int|
                    0 <= j < before.width ==> (#[trigger] self@.blocks[block_index as int][j] == (
                    before.blocks[block_index as int][j] || exists|t: int|
                        1 <= t < i + 1 && before.slot(t, d) == j)),
            decreases hashes@.len() - i,
        {
            let hash = hashes[i];
            let ghost prev = self@;
            assert(prev.blocks[block_index as int] == self.blocks@[block_index as int]@);
            self.blocks[block_index][hash] = true;
            assert(self@.blocks =~= prev.blocks.update(
                block_index as int,
                prev.blocks[block_index as int].update(hash as int, true),
            ));
            i += 1;
        }
        assert(self@.blocks[block_index as int] =~= before.insert(d).blocks[block_index as int]);
        assert(self@.blocks =~= before.insert(d).blocks);
    }

    /// Queries a key: true iff the bit of each in-block hash is set inside
    /// the key's block.
    pub fn check<K: FilterKey>(&self, item: &K) -> (found: bool)
        requires
            self.wf(),
        ensures
            found == self@.contains(digest_spec(item.key_bytes())),
    {
        let hashes = self.hash_inside_blocks(item);
        let block_index = self.hash_block_index(item, self.seeds[0]);
        let ghost d = digest_spec(item.key_bytes());
        let mut i: usize = 0;
        while i < hashes.len()
            invariant
                i <= hashes@.len(),
                self.wf(),
                d == digest_spec(item.key_bytes()),
                hashes@.len() == self@.seeds.len() - 1,
                block_index == self@.block_of(d),
                forall|t: int| 0 <= t < hashes@.len() ==> #[trigger] hashes@[t] == self@.slot(t + 1, d),
                forall|t: int| 0 <= t < hashes@.len() ==> #[trigger] hashes@[t] < self@.width,
                forall|t: int| 1 <= t < i + 1 ==> self@.blocks[block_index as int][#[trigger] self@.slot(t, d)],
            decreases hashes@.len() - i,
        {
            let hash = hashes[i];
            assert(self@.blocks[block_index as int] == self.blocks@[block_index as int]@);
            if !self.blocks[block_index][hash] {
                return false;
            }
            i += 1;
        }
        true
    }
}

/// Builds a filter for `expected_items` keys, adds the integers
/// `1..=expected_items`, then queries them and the next `expected_items`
/// integers, and counts the positive answers.
pub fn test_blocked_bloom_f_with_specified_num_of_items(expected_items: usize) -> (t: Tally)
    requires
        expected_items > 0,
        blocked_total_bits(expected_items as int) <= usize::MAX,
    ensures
        t.items == expected_items,
        t.bits == blocked_total_bits(expected_items as int),
        t.true_positives == expected_items,
        t.false_positives <= expected_items,
{
    let mut filter = BlockedBloomFilter::new(expected_items);
    let bits = filter.total_size();
    let mut item: usize = 1;
    while item <= expected_items
        invariant
            1 <= item <= expected_items + 1,
            2 * expected_items <= usize::MAX,
            filter.wf(),
            filter@.wf(),
            filter.budget() == bits,
            forall|j: usize| 1 <= j < item ==> filter@.contains(#[trigger] usize_digest(j)),
        decreases expected_items + 1 - item,
    {
        let ghost before = filter@;
        filter.add(&item);
        proof {
            assert forall|j: usize| 1 <= j < item implies filter@.contains(
                #[trigger] usize_digest(j),
            ) by {
                lemma_blocked_contains_monotone(before, filter@, usize_digest(j));
            }
        }
        item += 1;
    }
    let mut false_positives: usize = 0;
    let mut probe: usize = expected_items + 1;
    while probe <= expected_items + expected_items
        invariant
            expected_items + 1 <= probe <= 2 * expected_items + 1,
            2 * expected_items <= usize::MAX,
            filter.wf(),
            false_positives <= probe - (expected_items + 1),
        decreases 2 * expected_items + 1 - probe,
    {
        if filter.check(&probe) {
            false_positives += 1;
        }
        if probe == usize::MAX {
            break;
        }
        probe += 1;
    }
    let mut true_positives: usize = 0;
    let mut item: usize = 1;
    while item <= expected_items
        invariant
            1 <= item <= expected_items + 1,
            2 * expected_items <= usize::MAX,
            filter.wf(),
            true_positives == item - 1,
            forall|j: usize| 1 <= j <= expected_items ==> filter@.contains(#[trigger] usize_digest(j)),
        decreases expected_items + 1 - item,
    {
        let found = filter.check(&item);
        assert(found == filter@.contains(usize_digest(item)));
        if found {
            true_positives += 1;
        }
        item += 1;
    }
    Tally { items: expected_items, bits, true_positives, false_positives }
}

/// The standard run: 996 147 keys with a budget of 10 375 872 bits. Every
/// added key is found again.
pub fn test_blocked_bloom_filters() -> (t: Tally)
    ensures
        t.items == 996_147,
        t.bits == 10_375_872,
        t.true_positives == t.items,
        t.false_positives <= t.items,
{
    test_blocked_bloom_f_with_specified_num_of_items(STANDARD_RUN_ITEMS)
}

} // verus!
