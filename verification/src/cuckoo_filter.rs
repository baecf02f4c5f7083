//! The cuckoo filter: fingerprints in a table of small buckets. A key has
//! two candidate buckets, each of which can be found from the other and
//! the fingerprint alone, so a stored fingerprint can be moved to make
//! room, and a key can be deleted again.

use crate::entropy::{random_below, random_bool, random_u64};
use crate::hashing::{
    digest_spec, index, index_spec, is_odd, mix, mix_spec, odd_seed, odd_seed_spec, FilterKey,
};
use crate::tally::DeletionTally;
use vstd::multiset::Multiset;
use vstd::prelude::*;

verus! {

/// Number of fingerprints a bucket can hold.
pub const BUCKET_SIZE: usize = 4;

/// Width of a fingerprint in bits.
pub const FINGERPRINT_SIZE: usize = 10;

/// Number of evictions after which an insertion gives up.
pub const MAX_NUM_KICKS: usize = 500;

/// Whether `size` is a power of two.
pub open spec fn is_power_of_two(size: usize) -> bool {
    size > 0 && size & ((size - 1) as usize) == 0
}

/// Computes `is_power_of_two`.
pub fn power_of_two(size: usize) -> (yes: bool)
    ensures
        yes == is_power_of_two(size),
{
    size > 0 && size & (size - 1) == 0
}

/// The fingerprint of a key with digest `d` under `seed1`: the upper ten
/// bits of the mixed digest.
pub open spec fn cuckoo_fingerprint(seed1: u64, d: u64) -> u16 {
    ((mix_spec(seed1, d) >> 54) & 0x3ff) as u16
}

/// The digest of a fingerprint taken as a key.
pub open spec fn fingerprint_digest(f: u16) -> u64 {
    digest_spec((f as i32).key_bytes())
}

/// What the filter stores for a key: its fingerprint, and the lower of its
/// two candidate buckets, which stands for the pair.
pub struct Item {
    pub bucket: usize,
    pub fingerprint: u16,
}

/// The mathematical content of a cuckoo filter.
pub struct CuckooView {
    pub buckets: Seq<Seq<u16>>,
    pub seed: u64,
    pub seed1: u64,
}

impl CuckooView {
    /// The number of buckets is a power of two, no bucket holds more than
    /// `BUCKET_SIZE` fingerprints, and the seeds are odd.
    pub open spec fn wf(self) -> bool {
        &&& self.buckets.len() <= usize::MAX
        &&& is_power_of_two(self.buckets.len() as usize)
        &&& forall|b: int|
            0 <= b < self.buckets.len() ==> (#[trigger] self.buckets[b]).len() <= BUCKET_SIZE
        &&& is_odd(self.seed)
        &&& is_odd(self.seed1)
    }

    /// The fingerprint of the key with digest `d`.
    pub open spec fn fingerprint(self, d: u64) -> u16 {
        cuckoo_fingerprint(self.seed1, d)
    }

    /// The first candidate bucket of the key with digest `d`.
    pub open spec fn primary(self, d: u64) -> usize {
        index_spec(d, self.seed, self.buckets.len() as int) as usize
    }

    /// The other candidate bucket of a fingerprint that has `i` as one.
    pub open spec fn alternate(self, i: usize, f: u16) -> usize {
        i ^ (index_spec(fingerprint_digest(f), self.seed, self.buckets.len() as int) as usize)
    }

    /// The item that fingerprint `f` makes in bucket `i`, or in the
    /// alternate of `i`.
    pub open spec fn item_at(self, i: usize, f: u16) -> Item {
        let j = self.alternate(i, f);
        Item { bucket: if i <= j { i } else { j }, fingerprint: f }
    }

    /// The item of the key with digest `d`.
    pub open spec fn item_of(self, d: u64) -> Item {
        self.item_at(self.primary(d), self.fingerprint(d))
    }

    /// The items of bucket `b`.
    pub open spec fn bucket_items(self, b: int) -> Multiset<Item> {
        self.buckets[b].map_values(|f: u16| self.item_at(b as usize, f)).to_multiset()
    }

    /// The items of the first `n` buckets.
    pub open spec fn items_upto(self, n: nat) -> Multiset<Item>
        decreases n,
    {
        if n == 0 {
            Multiset::empty()
        } else {
            self.items_upto((n - 1) as nat).add(self.bucket_items(n - 1))
        }
    }

    /// Everything the filter stores: one item for each stored fingerprint.
    pub open spec fn items(self) -> Multiset<Item> {
        self.items_upto(self.buckets.len())
    }

    /// Whether the fingerprint of the key lies in one of its two buckets.
    pub open spec fn contains(self, d: u64) -> bool {
        let f = self.fingerprint(d);
        let i1 = self.primary(d);
        let i2 = self.alternate(i1, f);
        self.buckets[i1 as int].contains(f) || self.buckets[i2 as int].contains(f)
    }

    /// The filter with bucket `b` replaced.
    pub open spec fn with_bucket(self, b: int, bucket: Seq<u16>) -> CuckooView {
        CuckooView { buckets: self.buckets.update(b, bucket), ..self }
    }
}

/// The XOR of two bucket numbers is a bucket number.
pub proof fn lemma_xor_in_range(a: usize, b: usize, size: usize)
    by (bit_vector)
    requires
        size > 0,
        size & ((size - 1) as usize) == 0,
        a < size,
        b < size,
    ensures
        a ^ b < size,
{
}

/// Taking the alternate twice leads back.
pub proof fn lemma_xor_twice(a: usize, b: usize)
    by (bit_vector)
    ensures
        (a ^ b) ^ b == a,
{
}

/// The two candidate buckets of a fingerprint exist, each is the alternate
/// of the other, and both make the same item.
pub proof fn lemma_alternate(v: CuckooView, i: usize, f: u16)
    requires
        v.wf(),
        i < v.buckets.len(),
    ensures
        v.alternate(i, f) < v.buckets.len(),
        v.alternate(v.alternate(i, f), f) == i,
        v.item_at(v.alternate(i, f), f) == v.item_at(i, f),
        v.item_at(i, f).bucket < v.buckets.len(),
{
    let size = v.buckets.len() as usize;
    let h = index_spec(fingerprint_digest(f), v.seed, size as int) as usize;
    lemma_xor_in_range(i, h, size);
    lemma_xor_twice(i, h);
}

/// Replacing bucket `b` leaves the items of the other buckets alone.
proof fn lemma_items_frame(v: CuckooView, b: int, bucket: Seq<u16>, n: nat)
    requires
        0 <= b < v.buckets.len(),
        n <= v.buckets.len(),
    ensures
        n <= b ==> v.with_bucket(b, bucket).items_upto(n) == v.items_upto(n),
        n > b ==> v.with_bucket(b, bucket).items_upto(n).add(v.bucket_items(b)) == v.items_upto(
            n,
        ).add(v.with_bucket(b, bucket).bucket_items(b)),
    decreases n,
{
    let w = v.with_bucket(b, bucket);
    if n > 0 {
        lemma_items_frame(v, b, bucket, (n - 1) as nat);
        let k = n - 1;
        if k != b {
            assert(w.buckets[k].map_values(|f: u16| w.item_at(k as usize, f))
                =~= v.buckets[k].map_values(|f: u16| v.item_at(k as usize, f)));
        }
        if n > b {
            assert forall|x: Item|
                w.items_upto(n).add(v.bucket_items(b)).count(x) == v.items_upto(n).add(
                    w.bucket_items(b),
                ).count(x) by {
                if k != b {
                    assert(w.items_upto(k as nat).add(v.bucket_items(b)).count(x)
                        == v.items_upto(k as nat).add(w.bucket_items(b)).count(x));
                }
            }
        }
    }
}

/// Whatever a bucket holds, the filter holds.
proof fn lemma_bucket_counted(v: CuckooView, b: int, x: Item, n: nat)
    requires
        0 <= b < n <= v.buckets.len(),
    ensures
        v.bucket_items(b).count(x) <= v.items_upto(n).count(x),
    decreases n,
{
    if b < n - 1 {
        lemma_bucket_counted(v, b, x, (n - 1) as nat);
    }
}

proof fn lemma_bucket_within(v: CuckooView, b: int, x: Item)
    requires
        0 <= b < v.buckets.len(),
    ensures
        v.bucket_items(b).count(x) <= v.items().count(x),
{
    lemma_bucket_counted(v, b, x, v.buckets.len());
}

/// Appending a fingerprint to a bucket adds its item.
pub proof fn lemma_items_push(v: CuckooView, b: usize, f: u16)
    requires
        b < v.buckets.len(),
    ensures
        v.with_bucket(b as int, v.buckets[b as int].push(f)).items() == v.items().insert(
            v.item_at(b, f),
        ),
{
    let bucket = v.buckets[b as int].push(f);
    let w = v.with_bucket(b as int, bucket);
    lemma_items_frame(v, b as int, bucket, v.buckets.len());
    let before = v.buckets[b as int].map_values(|f: u16| v.item_at(b, f));
    let after = w.buckets[b as int].map_values(|f: u16| w.item_at(b, f));
    assert(after =~= before.push(v.item_at(b, f)));
    vstd::seq_lib::to_multiset_build(before, v.item_at(b, f));
    assert forall|x: Item| w.items().count(x) == v.items().insert(v.item_at(b, f)).count(x) by {
        assert(w.items().add(v.bucket_items(b as int)).count(x) == v.items().add(
            w.bucket_items(b as int),
        ).count(x));
    }
}

/// Overwriting a fingerprint in a bucket adds the item of the new one and
/// takes away the item of the old one.
pub proof fn lemma_items_update(v: CuckooView, b: usize, j: int, f: u16)
    requires
        b < v.buckets.len(),
        0 <= j < v.buckets[b as int].len(),
    ensures
        v.with_bucket(b as int, v.buckets[b as int].update(j, f)).items() == v.items().insert(
            v.item_at(b, f),
        ).remove(v.item_at(b, v.buckets[b as int][j])),
        v.items().contains(v.item_at(b, v.buckets[b as int][j])),
{
    let bucket = v.buckets[b as int].update(j, f);
    let w = v.with_bucket(b as int, bucket);
    lemma_items_frame(v, b as int, bucket, v.buckets.len());
    let before = v.buckets[b as int].map_values(|f: u16| v.item_at(b, f));
    let after = w.buckets[b as int].map_values(|f: u16| w.item_at(b, f));
    let old_item = v.item_at(b, v.buckets[b as int][j]);
    assert(after =~= before.update(j, v.item_at(b, f)));
    vstd::seq_lib::to_multiset_update(before, j, v.item_at(b, f));
    before.to_multiset_ensures();
    assert forall|x: Item|
        w.items().count(x) == v.items().insert(v.item_at(b, f)).remove(old_item).count(x)
        && (x == old_item ==> v.items().count(x) > 0) by {
        assert(w.items().add(v.bucket_items(b as int)).count(x) == v.items().add(
            w.bucket_items(b as int),
        ).count(x));
        lemma_bucket_within(v, b as int, x);
    }
    lemma_bucket_within(v, b as int, old_item);
}

/// Taking a fingerprint out of a bucket takes away its item.
pub proof fn lemma_items_remove(v: CuckooView, b: usize, j: int)
    requires
        b < v.buckets.len(),
        0 <= j < v.buckets[b as int].len(),
    ensures
        v.with_bucket(b as int, v.buckets[b as int].remove(j)).items() == v.items().remove(
            v.item_at(b, v.buckets[b as int][j]),
        ),
        v.items().contains(v.item_at(b, v.buckets[b as int][j])),
{
    let bucket = v.buckets[b as int].remove(j);
    let w = v.with_bucket(b as int, bucket);
    lemma_items_frame(v, b as int, bucket, v.buckets.len());
    let before = v.buckets[b as int].map_values(|f: u16| v.item_at(b, f));
    let after = w.buckets[b as int].map_values(|f: u16| w.item_at(b, f));
    let old_item = v.item_at(b, v.buckets[b as int][j]);
    assert(after =~= before.remove(j));
    before.to_multiset_ensures();
    assert forall|x: Item|
        w.items().count(x) == v.items().remove(old_item).count(x) && (x == old_item
            ==> v.items().count(x) > 0) by {
        assert(w.items().add(v.bucket_items(b as int)).count(x) == v.items().add(
            w.bucket_items(b as int),
        ).count(x));
        lemma_bucket_within(v, b as int, x);
    }
    lemma_bucket_within(v, b as int, old_item);
}

proof fn lemma_count_somewhere(v: CuckooView, x: Item, n: nat) -> (b: int)
    requires
        n <= v.buckets.len(),
        v.items_upto(n).count(x) > 0,
    ensures
        0 <= b < n,
        v.bucket_items(b).count(x) > 0,
    decreases n,
{
    if v.bucket_items(n - 1).count(x) > 0 {
        n - 1
    } else {
        lemma_count_somewhere(v, x, (n - 1) as nat)
    }
}

/// A fingerprint that lies in a bucket is counted among the items.
pub proof fn lemma_entry_is_item(v: CuckooView, b: usize, j: int)
    requires
        b < v.buckets.len(),
        0 <= j < v.buckets[b as int].len(),
    ensures
        v.items().contains(v.item_at(b, v.buckets[b as int][j])),
{
    let mapped = v.buckets[b as int].map_values(|f: u16| v.item_at(b, f));
    let x = v.item_at(b, v.buckets[b as int][j]);
    assert(mapped[j] == x);
    mapped.to_multiset_ensures();
    lemma_bucket_within(v, b as int, x);
}

/// A query looks for the item of the key: the fingerprint lies in one of
/// the key's two buckets exactly when the filter holds the key's item.
pub proof fn lemma_contains_iff_item(v: CuckooView, d: u64)
    requires
        v.wf(),
    ensures
        v.contains(d) == v.items().contains(v.item_of(d)),
{
    let f = v.fingerprint(d);
    let i1 = v.primary(d);
    let i2 = v.alternate(i1, f);
    lemma_alternate(v, i1, f);
    if v.buckets[i1 as int].contains(f) {
        let j = choose|j: int| 0 <= j < v.buckets[i1 as int].len() && v.buckets[i1 as int][j] == f;
        lemma_entry_is_item(v, i1, j);
    }
    if v.buckets[i2 as int].contains(f) {
        let j = choose|j: int| 0 <= j < v.buckets[i2 as int].len() && v.buckets[i2 as int][j] == f;
        lemma_entry_is_item(v, i2, j);
    }
    if v.items().contains(v.item_of(d)) {
        let x = v.item_of(d);
        let b = lemma_count_somewhere(v, x, v.buckets.len());
        let mapped = v.buckets[b].map_values(|f: u16| v.item_at(b as usize, f));
        mapped.to_multiset_ensures();
        lemma_alternate(v, b as usize, f);
    }
}

/// Determinism given the seeds: two filters of the same size over the same
/// seeds that hold the same items answer every query alike, wherever the
/// evictions, which are drawn at random, have put the fingerprints.
pub proof fn lemma_seeds_fix_answers(a: CuckooView, b: CuckooView, d: u64)
    requires
        a.wf(),
        b.wf(),
        a.seed == b.seed,
        a.seed1 == b.seed1,
        a.buckets.len() == b.buckets.len(),
        a.items() == b.items(),
    ensures
        a.item_of(d) == b.item_of(d),
        a.contains(d) == b.contains(d),
{
    lemma_contains_iff_item(a, d);
    lemma_contains_iff_item(b, d);
}

/// A filter without items has nothing in any bucket.
pub proof fn lemma_no_items_no_entries(v: CuckooView)
    requires
        v.wf(),
        v.items().len() == 0,
    ensures
        forall|b: int| 0 <= b < v.buckets.len() ==> (#[trigger] v.buckets[b]).len() == 0,
{
    assert forall|b: int| 0 <= b < v.buckets.len() implies (#[trigger] v.buckets[b]).len() == 0 by {
        if v.buckets[b].len() > 0 {
            lemma_entry_is_item(v, b as usize, 0);
        }
    }
}

/// Deleting a key right after it was inserted leaves the items as they
/// were.
pub proof fn lemma_insert_then_delete(items: Multiset<Item>, x: Item)
    ensures
        items.insert(x).contains(x),
        items.insert(x).remove(x) == items,
{
}

/// The position of the first occurrence of `f` in a bucket that holds it.
pub open spec fn first_position(bucket: Seq<u16>, f: u16) -> int {
    choose|p: int|
        0 <= p < bucket.len() && bucket[p] == f && forall|q: int| 0 <= q < p ==> bucket[q] != f
}

/// A bucket without the first occurrence of `f`.
pub open spec fn without_first(bucket: Seq<u16>, f: u16) -> Seq<u16> {
    bucket.remove(first_position(bucket, f))
}

/// Whether `after` is `before` with one of its items taken away.
pub open spec fn lost_one(before: Multiset<Item>, after: Multiset<Item>) -> bool {
    exists|victim: Item| #[trigger] before.contains(victim) && after == before.remove(victim)
}

/// A filter whose buckets are all empty holds no items.
pub proof fn lemma_empty_items(v: CuckooView, n: nat)
    requires
        n <= v.buckets.len(),
        forall|b: int| 0 <= b < v.buckets.len() ==> (#[trigger] v.buckets[b]).len() == 0,
    ensures
        v.items_upto(n) == Multiset::<Item>::empty(),
    decreases n,
{
    if n > 0 {
        lemma_empty_items(v, (n - 1) as nat);
        let mapped = v.buckets[n - 1].map_values(|f: u16| v.item_at((n - 1) as usize, f));
        mapped.to_multiset_ensures();
    }
}

/// A cuckoo filter over keys of any type that has a digest.
pub struct CuckooFilter {
    buckets: Vec<Vec<u16>>,
    size: usize,
    seed: u64,
    seed1: u64,
}

impl View for CuckooFilter {
    type V = CuckooView;

    closed spec fn view(&self) -> CuckooView {
        CuckooView {
            buckets: Seq::new(self.buckets@.len(), |b: int| self.buckets@[b]@),
            seed: self.seed,
            seed1: self.seed1,
        }
    }
}

impl CuckooFilter {
    /// The representation invariant: the table has the recorded number of
    /// buckets, and the view is well formed.
    pub closed spec fn wf(&self) -> bool {
        &&& self.buckets@.len() == self.size
        &&& self@.wf()
    }

    /// The view of a well-formed filter is well formed.
    pub proof fn lemma_view_wf(&self)
        requires
            self.wf(),
        ensures
            self@.wf(),
    {
    }

    /// An empty filter of `size` buckets whose two seeds are the given raw
    /// values, each made odd: the first for buckets, the second for
    /// fingerprints. `size` must be a power of two.
    pub fn with_seeds(size: usize, raw_seed: u64, raw_seed1: u64) -> (f: CuckooFilter)
        requires
            is_power_of_two(size),
        ensures
            f.wf(),
            f@.buckets == Seq::new(size as nat, |b: int| Seq::<u16>::empty()),
            f@.seed == odd_seed_spec(raw_seed),
            f@.seed1 == odd_seed_spec(raw_seed1),
            f@.items() == Multiset::<Item>::empty(),
    {
        let mut buckets: Vec<Vec<u16>> = Vec::new();
        let mut b: usize = 0;
        while b < size
            invariant
                b <= size,
                buckets@.len() == b,
                forall|t: int| 0 <= t < b ==> (#[trigger] buckets@[t])@ == Seq::<u16>::empty(),
            decreases size - b,
        {
            let bucket: Vec<u16> = Vec::with_capacity(BUCKET_SIZE);
            buckets.push(bucket);
            b += 1;
        }
        let f = CuckooFilter { buckets, size, seed: odd_seed(raw_seed), seed1: odd_seed(raw_seed1) };
        proof {
            lemma_empty_items(f@, size as nat);
        }
        f
    }

    /// An empty filter of `size` buckets with freshly drawn seeds. `size`
    /// must be a power of two.
    pub fn new(size: usize) -> (f: CuckooFilter)
        requires
            is_power_of_two(size),
        ensures
            f.wf(),
            f@.buckets == Seq::new(size as nat, |b: int| Seq::<u16>::empty()),
            f@.items() == Multiset::<Item>::empty(),
    {
        let seed = random_u64();
        let seed1 = random_u64();
        CuckooFilter::with_seeds(size, seed, seed1)
    }

    /// Number of buckets.
    pub fn size(&self) -> (size: usize)
        requires
            self.wf(),
        ensures
            size == self@.buckets.len(),
    {
        self.size
    }

    /// The fingerprint of the key with digest `d`.
    pub fn fingerprint_of(&self, d: u64) -> (f: u16)
        ensures
            f == self@.fingerprint(d),
            f < 1024,
    {
        let hashed = mix(self.seed1, d);
        let shifted: u64 = hashed >> 54;
        let masked: u64 = shifted & 0x3ff;
        assert(masked < 1024) by (bit_vector)
            requires
                masked == shifted & 0x3ff,
        ;
        masked as u16
    }

    /// The fingerprint of a key.
    pub fn fingerprint<K: FilterKey>(&self, x: &K) -> (f: u16)
        ensures
            f == self@.fingerprint(digest_spec(x.key_bytes())),
            f < 1024,
    {
        self.fingerprint_of(x.digest())
    }

    /// The bucket that `seed` assigns to `item`.
    pub fn hash<K: FilterKey>(&self, item: &K, seed: u64) -> (i: usize)
        requires
            self.wf(),
        ensures
            i == index_spec(digest_spec(item.key_bytes()), seed, self@.buckets.len() as int),
            i < self@.buckets.len(),
    {
        index(item.digest(), seed, self.size)
    }

    /// The first candidate bucket of a key.
    pub fn hash1<K: FilterKey>(&self, x: &K) -> (i: usize)
        requires
            self.wf(),
        ensures
            i == self@.primary(digest_spec(x.key_bytes())),
            i < self@.buckets.len(),
    {
        self.hash(x, self.seed)
    }

    /// The other candidate bucket of a fingerprint that has `i1` as one.
    pub fn hash2(&self, i1: usize, f: u16) -> (i2: usize)
        requires
            self.wf(),
            i1 < self@.buckets.len(),
        ensures
            i2 == self@.alternate(i1, f),
            i2 < self@.buckets.len(),
    {
        let fingerprint_as_i32: i32 = f as i32;
        proof {
            lemma_alternate(self@, i1, f);
        }
        i1 ^ self.hash(&fingerprint_as_i32, self.seed)
    }

    /// Number of fingerprints in bucket `i`.
    pub fn bucket_len(&self, i: usize) -> (len: usize)
        requires
            self.wf(),
            i < self@.buckets.len(),
        ensures
            len == self@.buckets[i as int].len(),
            len <= BUCKET_SIZE,
    {
        self.buckets[i].len()
    }

    /// Appends fingerprint `f` to bucket `i`, which must have room.
    pub fn store(&mut self, i: usize, f: u16)
        requires
            old(self).wf(),
            i < old(self)@.buckets.len(),
            old(self)@.buckets[i as int].len() < BUCKET_SIZE,
        ensures
            final(self).wf(),
            final(self)@ == old(self)@.with_bucket(i as int, old(self)@.buckets[i as int].push(f)),
            final(self)@.items() == old(self)@.items().insert(old(self)@.item_at(i, f)),
    {
        let ghost before = self@;
        self.buckets[i].push(f);
        proof {
            assert(self@.buckets =~= before.buckets.update(
                i as int,
                before.buckets[i as int].push(f),
            ));
            lemma_items_push(before, i, f);
        }
    }

    /// One eviction: puts fingerprint `f` in the place of entry number
    /// `entry` of bucket `i`. Returns the fingerprint that was there, and
    /// its other bucket, where it has to go.
    pub fn evict(&mut self, i: usize, entry: usize, f: u16) -> (res: (u16, usize))
        requires
            old(self).wf(),
            i < old(self)@.buckets.len(),
            entry < old(self)@.buckets[i as int].len(),
        ensures
            final(self).wf(),
            final(self)@ == old(self)@.with_bucket(
                i as int,
                old(self)@.buckets[i as int].update(entry as int, f),
            ),
            res.0 == old(self)@.buckets[i as int][entry as int],
            res.1 == old(self)@.alternate(i, res.0),
            res.1 < old(self)@.buckets.len(),
            final(self)@.items().insert(final(self)@.item_at(res.1, res.0)) == old(
                self,
            )@.items().insert(old(self)@.item_at(i, f)),
    {
        let ghost before = self@;
        let evicted = self.buckets[i][entry];
        let next = self.hash2(i, evicted);
        self.buckets[i][entry] = f;
        proof {
            assert(self@.buckets =~= before.buckets.update(
                i as int,
                before.buckets[i as int].update(entry as int, f),
            ));
            lemma_items_update(before, i, entry as int, f);
            lemma_alternate(before, i, evicted);
        }
        (evicted, next)
    }

    /// Inserts a key.
    ///
    /// Where one of the key's two buckets has room, the fingerprint is
    /// appended there, to the first bucket if it has room, and the result is
    /// true. Otherwise stored fingerprints are moved to their other buckets,
    /// starting at a bucket and with entries picked at random, until one
    /// finds room; then the result is true and the filter holds one item
    /// more, that of the key. After `MAX_NUM_KICKS` evictions in vain the
    /// result is false: the fingerprint carried last is dropped, so that the
    /// filter has gained the key's item and lost one item, which may be that
    /// of another key.
    pub fn insert<K: FilterKey>(&mut self, x: &K) -> (ok: bool)
        requires
            old(self).wf(),
        ensures
            final(self).wf(),
            final(self)@.buckets.len() == old(self)@.buckets.len(),
            final(self)@.seed == old(self)@.seed,
            final(self)@.seed1 == old(self)@.seed1,
            ok ==> final(self)@.items() == old(self)@.items().insert(
                old(self)@.item_of(digest_spec(x.key_bytes())),
            ),
            !ok ==> lost_one(
                old(self)@.items().insert(old(self)@.item_of(digest_spec(x.key_bytes()))),
                final(self)@.items(),
            ),
            ({
                let d = digest_spec(x.key_bytes());
                let f = old(self)@.fingerprint(d);
                let i1 = old(self)@.primary(d);
                let i2 = old(self)@.alternate(i1, f);
                let first = old(self)@.buckets[i1 as int];
                let second = old(self)@.buckets[i2 as int];
                &&& first.len() < BUCKET_SIZE ==> ok && final(self)@ == old(self)@.with_bucket(
                    i1 as int,
                    first.push(f),
                )
                &&& first.len() >= BUCKET_SIZE && second.len() < BUCKET_SIZE ==> ok && final(self)@
                    == old(self)@.with_bucket(i2 as int, second.push(f))
            }),
    {
        let d = x.digest();
        let f = self.fingerprint_of(d);
        let i1 = index(d, self.seed, self.size);
        let i2 = self.hash2(i1, f);
        let ghost start = self@;
        let ghost item = start.item_of(d);
        proof {
            lemma_alternate(start, i1, f);
        }
        if self.bucket_len(i1) < BUCKET_SIZE {
            self.store(i1, f);
            return true;
        }
        if self.bucket_len(i2) < BUCKET_SIZE {
            self.store(i2, f);
            return true;
        }
        let mut i = if random_bool() { i1 } else { i2 };
        let mut current_fingerprint = f;
        let mut kicks: usize = 0;
        while kicks < MAX_NUM_KICKS
            invariant
                self.wf(),
                start.wf(),
                start == old(self)@,
                d == digest_spec(x.key_bytes()),
                item == start.item_of(d),
                start.buckets[start.primary(d) as int].len() >= BUCKET_SIZE,
                start.buckets[start.alternate(start.primary(d), start.fingerprint(d)) as int].len()
                    >= BUCKET_SIZE,
                self@.buckets.len() == start.buckets.len(),
                self@.seed == start.seed,
                self@.seed1 == start.seed1,
                i < self@.buckets.len(),
                self@.buckets[i as int].len() == BUCKET_SIZE,
                self@.items().insert(self@.item_at(i, current_fingerprint))
                    == start.items().insert(item),
            decreases MAX_NUM_KICKS - kicks,
        {
            let entry = random_below(self.bucket_len(i));
            let (evicted, next) = self.evict(i, entry, current_fingerprint);
            current_fingerprint = evicted;
            i = next;
            if self.bucket_len(i) < BUCKET_SIZE {
                self.store(i, current_fingerprint);
                return true;
            }
            kicks += 1;
        }
        proof {
            let victim = self@.item_at(i, current_fingerprint);
            lemma_insert_then_delete(self@.items(), victim);
        }
        false
    }

    /// Whether bucket `i` holds fingerprint `f`.
    pub fn bucket_has(&self, i: usize, f: u16) -> (found: bool)
        requires
            self.wf(),
            i < self@.buckets.len(),
        ensures
            found == self@.buckets[i as int].contains(f),
    {
        let len = self.buckets[i].len();
        let mut p: usize = 0;
        while p < len
            invariant
                i < self.buckets@.len(),
                len == self.buckets@[i as int]@.len(),
                self@.buckets[i as int] == self.buckets@[i as int]@,
                p <= len,
                forall|q: int| 0 <= q < p ==> self.buckets@[i as int]@[q] != f,
            decreases len - p,
        {
            if self.buckets[i][p] == f {
                return true;
            }
            p += 1;
        }
        false
    }

    /// Queries a key: true iff its fingerprint lies in one of its two
    /// buckets, which is the case exactly when the filter holds the key's
    /// item.
    pub fn lookup<K: FilterKey>(&self, x: &K) -> (found: bool)
        requires
            self.wf(),
        ensures
            found == self@.contains(digest_spec(x.key_bytes())),
            found == self@.items().contains(self@.item_of(digest_spec(x.key_bytes()))),
    {
        let d = x.digest();
        let f = self.fingerprint_of(d);
        let i1 = index(d, self.seed, self.size);
        let i2 = self.hash2(i1, f);
        proof {
            lemma_contains_iff_item(self@, d);
        }
        self.bucket_has(i1, f) || self.bucket_has(i2, f)
    }

    /// Takes the first occurrence of `f` out of bucket `i`, if there is one,
    /// and says whether there was.
    pub fn remove_from(&mut self, i: usize, f: u16) -> (found: bool)
        requires
            old(self).wf(),
            i < old(self)@.buckets.len(),
        ensures
            final(self).wf(),
            found == old(self)@.buckets[i as int].contains(f),
            found ==> final(self)@ == old(self)@.with_bucket(
                i as int,
                without_first(old(self)@.buckets[i as int], f),
            ),
            found ==> final(self)@.items() == old(self)@.items().remove(old(self)@.item_at(i, f)),
            found ==> old(self)@.items().contains(old(self)@.item_at(i, f)),
            !found ==> final(self)@ == old(self)@,
    {
        let ghost before = self@;
        let ghost bucket = before.buckets[i as int];
        let len = self.buckets[i].len();
        let mut p: usize = 0;
        while p < len && self.buckets[i][p] != f
            invariant
                i < self.buckets@.len(),
                self@ == before,
                self.wf(),
                bucket == self.buckets@[i as int]@,
                len == bucket.len(),
                p <= len,
                forall|q: int| 0 <= q < p ==> bucket[q] != f,
            decreases len - p,
        {
            p += 1;
        }
        if p < len {
            self.buckets[i].remove(p);
            proof {
                assert(self@.buckets =~= before.buckets.update(i as int, bucket.remove(p as int)));
                lemma_items_remove(before, i, p as int);
            }
            true
        } else {
            false
        }
    }

    /// Deletes a key: takes one occurrence of its fingerprint out of its
    /// first bucket, or else out of its second, and says whether there was
    /// one. The filter then holds the key's item once less.
    ///
    /// Deleting a key that was never inserted may take away the item of
    /// another key that has the same fingerprint and the same buckets.
    pub fn delete<K: FilterKey>(&mut self, x: &K) -> (found: bool)
        requires
            old(self).wf(),
        ensures
            final(self).wf(),
            final(self)@.buckets.len() == old(self)@.buckets.len(),
            final(self)@.seed == old(self)@.seed,
            final(self)@.seed1 == old(self)@.seed1,
            found == old(self)@.contains(digest_spec(x.key_bytes())),
            found ==> final(self)@.items() == old(self)@.items().remove(
                old(self)@.item_of(digest_spec(x.key_bytes())),
            ),
            !found ==> final(self)@ == old(self)@,
            ({
                let d = digest_spec(x.key_bytes());
                let f = old(self)@.fingerprint(d);
                let i1 = old(self)@.primary(d);
                let i2 = old(self)@.alternate(i1, f);
                let first = old(self)@.buckets[i1 as int];
                let second = old(self)@.buckets[i2 as int];
                &&& first.contains(f) ==> final(self)@ == old(self)@.with_bucket(
                    i1 as int,
                    without_first(first, f),
                )
                &&& !first.contains(f) && second.contains(f) ==> final(self)@ == old(
                    self,
                )@.with_bucket(i2 as int, without_first(second, f))
            }),
    {
        let d = x.digest();
        let f = self.fingerprint_of(d);
        let i1 = index(d, self.seed, self.size);
        let i2 = self.hash2(i1, f);
        proof {
            lemma_alternate(self@, i1, f);
        }
        if self.remove_from(i1, f) {
            return true;
        }
        if self.remove_from(i2, f) {
            return true;
        }
        false
    }
}

/// A change to what a filter holds: an item gained by a successful
/// insertion, or an item lost by a deletion.
pub enum Change {
    Gain(Item),
    Loss(Item),
}

/// The items after a sequence of changes, first to last.
pub open spec fn changed(items: Multiset<Item>, changes: Seq<Change>) -> Multiset<Item>
    decreases changes.len(),
{
    if changes.len() == 0 {
        items
    } else {
        let next = match changes[0] {
            Change::Gain(x) => items.insert(x),
            Change::Loss(x) => items.remove(x),
        };
        changed(next, changes.drop_first())
    }
}

/// No false negatives: an item that the filter holds is held after any
/// sequence of successful insertions and of deletions, as long as none of
/// the deletions is of that item.
pub proof fn lemma_held_until_deleted(items: Multiset<Item>, x: Item, changes: Seq<Change>)
    requires
        items.contains(x),
        forall|t: int| 0 <= t < changes.len() ==> #[trigger] changes[t] != Change::Loss(x),
    ensures
        changed(items, changes).contains(x),
    decreases changes.len(),
{
    if changes.len() > 0 {
        let next = match changes[0] {
            Change::Gain(y) => items.insert(y),
            Change::Loss(y) => items.remove(y),
        };
        let rest = changes.drop_first();
        lemma_held_until_deleted(next, x, rest);
    }
}

/// The items after each of `xs` has been gained.
pub open spec fn gain_all(items: Multiset<Item>, xs: Seq<Item>) -> Multiset<Item>
    decreases xs.len(),
{
    if xs.len() == 0 {
        items
    } else {
        gain_all(items.insert(xs[0]), xs.drop_first())
    }
}

/// The items after each of `xs` has been lost.
pub open spec fn lose_all(items: Multiset<Item>, xs: Seq<Item>) -> Multiset<Item>
    decreases xs.len(),
{
    if xs.len() == 0 {
        items
    } else {
        lose_all(items.remove(xs[0]), xs.drop_first())
    }
}

proof fn lemma_gain_all(items: Multiset<Item>, xs: Seq<Item>)
    ensures
        gain_all(items, xs) == items.add(xs.to_multiset()),
    decreases xs.len(),
{
    xs.to_multiset_ensures();
    if xs.len() > 0 {
        let rest = xs.drop_first();
        lemma_gain_all(items.insert(xs[0]), rest);
        assert(rest =~= xs.remove(0));
    }
}

proof fn lemma_lose_all(items: Multiset<Item>, xs: Seq<Item>)
    ensures
        lose_all(items, xs) == items.sub(xs.to_multiset()),
    decreases xs.len(),
{
    xs.to_multiset_ensures();
    if xs.len() > 0 {
        let rest = xs.drop_first();
        lemma_lose_all(items.remove(xs[0]), rest);
        assert(rest =~= xs.remove(0));
    }
}

/// Deleting every inserted key empties the filter again: where the items
/// `xs` were gained and the same items, in any order, were lost, the filter
/// holds what it held before. Starting from an empty filter, it ends with
/// nothing in any bucket (see `lemma_no_items_no_entries`).
pub proof fn lemma_delete_everything(items: Multiset<Item>, xs: Seq<Item>, ys: Seq<Item>)
    requires
        ys.to_multiset() == xs.to_multiset(),
    ensures
        lose_all(gain_all(items, xs), ys) == items,
{
    lemma_gain_all(items, xs);
    lemma_lose_all(items.add(xs.to_multiset()), ys);
}

/// The item of the integer key `j` in a filter of the shape of `shape`.
pub open spec fn key_item(shape: CuckooView, j: int) -> Item {
    shape.item_of(digest_spec((j as i32).key_bytes()))
}

/// The items of the integer keys from `lo` up to, but without, `hi`.
pub open spec fn range_items(shape: CuckooView, lo: int, hi: int) -> Multiset<Item>
    decreases hi - lo,
{
    if lo >= hi {
        Multiset::empty()
    } else {
        range_items(shape, lo, hi - 1).insert(key_item(shape, hi - 1))
    }
}

proof fn lemma_range_items_front(shape: CuckooView, lo: int, hi: int)
    requires
        lo < hi,
    ensures
        range_items(shape, lo, hi) == range_items(shape, lo + 1, hi).insert(key_item(shape, lo)),
    decreases hi - lo,
{
    if lo + 1 < hi {
        lemma_range_items_front(shape, lo, hi - 1);
    } else {
        assert(range_items(shape, lo, hi - 1) =~= Multiset::<Item>::empty());
    }
}

proof fn lemma_range_items_holds(shape: CuckooView, lo: int, hi: int, j: int)
    requires
        lo <= j < hi,
    ensures
        range_items(shape, lo, hi).contains(key_item(shape, j)),
    decreases hi - lo,
{
    if j < hi - 1 {
        lemma_range_items_holds(shape, lo, hi - 1, j);
    }
}

/// Number of buckets of the standard run.
pub const STANDARD_RUN_BUCKETS: usize = 262_144;

/// Number of keys of the standard run: a load of about 0.95.
pub const STANDARD_RUN_KEYS: i32 = 996_147;

/// The standard run: inserts the integers `1..=996_147` into a filter of
/// 262 144 buckets, queries them and the next 996 147 integers, deletes the
/// first again and queries them once more, and counts the positive answers.
///
/// Where every insertion succeeded, every inserted key is found, and after
/// the deletions the filter is empty and none is found any more.
pub fn test_cuckoo_filters() -> (t: DeletionTally)
    ensures
        t.items == 996_147,
        t.bits == 10_485_760,
        t.inserted <= t.items,
        t.false_positives <= t.items,
        t.inserted == t.items ==> t.true_positives == t.items && t.positives_after_delete == 0,
{
    let n: i32 = STANDARD_RUN_KEYS;
    assert(is_power_of_two(262_144usize)) by {
        assert(262_144usize & 262_143usize == 0) by (bit_vector);
    }
    let mut filter = CuckooFilter::new(STANDARD_RUN_BUCKETS);
    let ghost shape = filter@;
    let bits: usize = filter.size() * BUCKET_SIZE * FINGERPRINT_SIZE;
    let mut inserted: usize = 0;
    let mut i: i32 = 1;
    while i <= n
        invariant
            n == 996_147,
            1 <= i <= n + 1,
            filter.wf(),
            filter@.buckets.len() == shape.buckets.len(),
            filter@.seed == shape.seed,
            filter@.seed1 == shape.seed1,
            inserted <= i - 1,
            inserted == i - 1 ==> filter@.items() == range_items(shape, 1, i as int),
        decreases n + 1 - i,
    {
        let ok = filter.insert(&i);
        if ok {
            inserted += 1;
        }
        i += 1;
    }
    let mut true_positives: usize = 0;
    let mut i: i32 = 1;
    while i <= n
        invariant
            n == 996_147,
            1 <= i <= n + 1,
            filter.wf(),
            filter@.buckets.len() == shape.buckets.len(),
            filter@.seed == shape.seed,
            filter@.seed1 == shape.seed1,
            true_positives <= i - 1,
            inserted == n ==> filter@.items() == range_items(shape, 1, n + 1),
            inserted == n ==> true_positives == i - 1,
        decreases n + 1 - i,
    {
        let found = filter.lookup(&i);
        proof {
            lemma_range_items_holds(shape, 1, n + 1, i as int);
        }
        if found {
            true_positives += 1;
        }
        i += 1;
    }
    let mut false_positives: usize = 0;
    let mut i: i32 = n + 1;
    while i <= 2 * n
        invariant
            n == 996_147,
            n + 1 <= i <= 2 * n + 1,
            filter.wf(),
            false_positives <= i - (n + 1),
        decreases 2 * n + 1 - i,
    {
        if filter.lookup(&i) {
            false_positives += 1;
        }
        i += 1;
    }
    let mut i: i32 = 1;
    while i <= n
        invariant
            n == 996_147,
            1 <= i <= n + 1,
            filter.wf(),
            filter@.buckets.len() == shape.buckets.len(),
            filter@.seed == shape.seed,
            filter@.seed1 == shape.seed1,
            inserted == n ==> filter@.items() == range_items(shape, i as int, n + 1),
        decreases n + 1 - i,
    {
        let ghost before = filter@;
        proof {
            lemma_range_items_front(shape, i as int, n + 1);
            lemma_contains_iff_item(before, digest_spec(i.key_bytes()));
        }
        filter.delete(&i);
        i += 1;
    }
    let mut positives_after_delete: usize = 0;
    let mut i: i32 = 1;
    while i <= n
        invariant
            n == 996_147,
            1 <= i <= n + 1,
            filter.wf(),
            positives_after_delete <= i - 1,
            inserted == n ==> filter@.items() == Multiset::<Item>::empty(),
            inserted == n ==> positives_after_delete == 0,
        decreases n + 1 - i,
    {
        if filter.lookup(&i) {
            positives_after_delete += 1;
        }
        i += 1;
    }
    DeletionTally {
        items: n as usize,
        bits,
        inserted,
        true_positives,
        false_positives,
        positives_after_delete,
    }
}

} // verus!
