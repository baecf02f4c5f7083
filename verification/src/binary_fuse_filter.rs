//! The Binary Fuse filter (3-wise): a static table of fingerprints built
//! from a complete key set. The table is cut into blocks of equal length; a
//! key owns one cell in each of three consecutive blocks, and the three
//! cells of a key of the set XOR to its fingerprint.

use crate::arithmetic::{
    at_most, ceil_div, lemma_power_grows, lemma_power_of_power, lemma_power_of_product,
    lemma_power_of_sum, lemma_power_positive, one, power, times_power, value,
};
use crate::entropy::random_u64;
use crate::hashing::{
    digest_all, digest_spec, digests_of, index, index_spec, is_odd, odd_seed, odd_seed_spec,
    FilterKey,
};
use crate::peeling::{
    is_rearrangement, lemma_peelable_rearranged, peel, peel_order, peelable, Slots,
};
use crate::table::{
    assigned, fingerprint_of, fingerprint_spec, is_plan, lemma_assigned_holds,
    lemma_plan_of_peeling, place_cell, plan_covers, plan_of, reverse_plan, xor3,
};
use crate::tally::{run_keys, Tally, STANDARD_RUN_ATTEMPTS};
use vstd::prelude::*;

verus! {

/// Number of cells for `n` keys and blocks of `block` cells: the least
/// multiple of `block` that is not below `1.125 * n`.
pub open spec fn fuse_capacity(n: int, block: int) -> int {
    ceil_div(9 * n, 8 * block) * block
}

/// Whether a table for `n` keys can be laid out in blocks of `block` cells:
/// the block is not empty, the table has at least three blocks, and its
/// length is one that a vector can have.
pub open spec fn fuse_layout_ok(n: int, block: int) -> bool {
    block > 0 && 3 * block <= fuse_capacity(n, block) <= usize::MAX
}

/// Whether blocks of `b` cells are at most `4.8 * n^0.58` cells long, which
/// is to say that `(5 * b)^50 <= 24^50 * n^29`.
pub open spec fn block_fits(n: nat, b: nat) -> bool {
    power(5 * b, 50) <= power(24, 50) * power(n, 29)
}

/// Whether `b` is the block length for `n` keys: `floor(4.8 * n^0.58)`, the
/// greatest length that fits.
pub open spec fn is_fuse_block(n: nat, b: nat) -> bool {
    block_fits(n, b) && !block_fits(n, b + 1)
}

/// Every block length lies below this limit: 2^60.
pub const BLOCK_LIMIT: u64 = 0x1000_0000_0000_0000;

/// The mathematical content of a Binary Fuse filter.
pub struct FuseView {
    pub cells: Seq<u8>,
    pub seed0: u64,
    pub seed1: u64,
    pub seed2: u64,
    /// Length of a block.
    pub block: nat,
}

impl FuseView {
    /// The table is made of at least three whole blocks, and the seeds are
    /// odd.
    pub open spec fn wf(self) -> bool {
        &&& self.block > 0
        &&& self.cells.len() % self.block == 0
        &&& self.cells.len() >= 3 * self.block
        &&& self.cells.len() <= usize::MAX
        &&& is_odd(self.seed0)
        &&& is_odd(self.seed1)
        &&& is_odd(self.seed2)
    }

    /// The key's first cell: anywhere but in the last two blocks.
    pub open spec fn h0(self, d: u64) -> int {
        index_spec(d, self.seed0, self.cells.len() - 2 * self.block)
    }

    /// The block of the key's first cell.
    pub open spec fn block_of(self, d: u64) -> int {
        self.h0(d) / self.block as int
    }

    /// The key's second cell, in the block after that of the first.
    pub open spec fn h1(self, d: u64) -> int {
        index_spec(d, self.seed1, self.block as int) + (self.block_of(d) + 1) * self.block
    }

    /// The key's third cell, two blocks after that of the first.
    pub open spec fn h2(self, d: u64) -> int {
        index_spec(d, self.seed2, self.block as int) + (self.block_of(d) + 2) * self.block
    }

    /// The three cells of the key with digest `d`.
    pub open spec fn slots_of(self, d: u64) -> Slots {
        Slots { h0: self.h0(d) as usize, h1: self.h1(d) as usize, h2: self.h2(d) as usize }
    }

    /// The slots of a sequence of keys.
    pub open spec fn all_slots(self, digests: Seq<u64>) -> Seq<Slots> {
        Seq::new(digests.len(), |k: int| self.slots_of(digests[k]))
    }

    /// Whether the three cells of the key XOR to its fingerprint.
    pub open spec fn contains(self, d: u64) -> bool {
        xor3(self.cells, self.slots_of(d)) == fingerprint_spec(d)
    }

    /// Whether `plan` is a plan of assignment under this filter's hashes.
    pub open spec fn is_plan(self, plan: Seq<(u64, usize)>) -> bool {
        is_plan(plan, |d: u64| self.slots_of(d), self.cells.len() as int)
    }

    /// The cells after the keys of `plan` have been placed in order.
    pub open spec fn assigned(self, plan: Seq<(u64, usize)>) -> Seq<u8> {
        assigned(self.cells, plan, |d: u64| self.slots_of(d), plan.len())
    }

    /// The plan by which the keys with the given digests are assigned: the
    /// keys are listed block by block and peeled, and the plan holds them in
    /// reverse order of peeling.
    pub open spec fn plan(self, digests: Seq<u64>) -> Seq<(u64, usize)> {
        let all = self.all_slots(digests);
        let perm = block_order(all, self.block as int);
        plan_of(
            peel_order(Seq::new(perm.len(), |t: int| all[perm[t] as int]), self.cells.len()),
            Seq::new(perm.len(), |t: int| digests[perm[t] as int]),
        )
    }

    /// The cells after the keys with the given digests have been peeled and
    /// assigned.
    pub open spec fn built(self, digests: Seq<u64>) -> Seq<u8> {
        self.assigned(self.plan(digests))
    }

    /// The empty table for `n` keys in blocks of `block` cells, under the
    /// seeds made of three raw values.
    pub open spec fn empty(n: int, block: int, raw0: u64, raw1: u64, raw2: u64) -> FuseView {
        FuseView {
            cells: Seq::new(fuse_capacity(n, block) as nat, |j: int| 0u8),
            seed0: odd_seed_spec(raw0),
            seed1: odd_seed_spec(raw1),
            seed2: odd_seed_spec(raw2),
            block: block as nat,
        }
    }
}

/// Whether the keys with the given digests are peelable in the table for
/// them under the seeds made of three raw values.
pub open spec fn fuse_peelable(
    digests: Seq<u64>,
    block: int,
    raw0: u64,
    raw1: u64,
    raw2: u64,
) -> bool {
    peelable(FuseView::empty(digests.len() as int, block, raw0, raw1, raw2).all_slots(digests))
}

/// The filter that is built for the keys with the given digests in blocks of
/// `block` cells, under the seeds made of three raw values, where the table
/// can be laid out and the keys are peelable.
pub open spec fn fuse_built(
    digests: Seq<u64>,
    block: int,
    raw0: u64,
    raw1: u64,
    raw2: u64,
) -> FuseView {
    let empty = FuseView::empty(digests.len() as int, block, raw0, raw1, raw2);
    FuseView { cells: empty.built(digests), ..empty }
}

/// The three cells of a key lie in three consecutive blocks of the table,
/// one in each.
pub proof fn lemma_fuse_slots(v: FuseView, d: u64)
    requires
        v.wf(),
    ensures
        0 <= v.h0(d) < v.cells.len() - 2 * v.block,
        v.block_of(d) * v.block <= v.h0(d) < (v.block_of(d) + 1) * v.block,
        (v.block_of(d) + 1) * v.block <= v.h1(d) < (v.block_of(d) + 2) * v.block,
        (v.block_of(d) + 2) * v.block <= v.h2(d) < (v.block_of(d) + 3) * v.block,
        (v.block_of(d) + 3) * v.block <= v.cells.len(),
        v.slots_of(d).wf(v.cells.len() as int),
        v.slots_of(d).h0 == v.h0(d),
        v.slots_of(d).h1 == v.h1(d),
        v.slots_of(d).h2 == v.h2(d),
{
    let len = v.cells.len() as int;
    let b = v.block as int;
    let h0 = v.h0(d);
    let blk = v.block_of(d);
    assert(blk * b <= h0 < (blk + 1) * b && blk >= 0) by (nonlinear_arith)
        requires
            b > 0,
            h0 >= 0,
            blk == h0 / b,
    ;
    assert((blk + 3) * b <= len) by (nonlinear_arith)
        requires
            b > 0,
            blk >= 0,
            blk * b <= h0,
            h0 < len - 2 * b,
            len % b == 0,
    ;
    assert((blk + 2) * b == (blk + 1) * b + b && (blk + 3) * b == (blk + 2) * b + b) by (nonlinear_arith);
}

/// The order of pairs of integers: by the first component, then by the
/// second.
pub open spec fn pair_le(a: (usize, usize), b: (usize, usize)) -> bool {
    a.0 < b.0 || (a.0 == b.0 && a.1 <= b.1)
}

/// Calls `sort` of the standard library on a vector of pairs of integers.
/// Trusted, as the library documents it: afterwards the vector holds the
/// same pairs as before, each as often as before, in rising order, where
/// pairs are ordered by their first component and then by their second.
#[verifier::external_body]
fn sort_pairs(pairs: &mut Vec<(usize, usize)>)
    ensures
        final(pairs)@.to_multiset() == old(pairs)@.to_multiset(),
        forall|i: int, j: int|
            0 <= i < j < final(pairs)@.len() ==> pair_le(
                #[trigger] final(pairs)@[i],
                #[trigger] final(pairs)@[j],
            ),
{
    pairs.sort();
}

proof fn lemma_sorted_pairs(tagged: Seq<(usize, usize)>, sorted: Seq<(usize, usize)>)
    requires
        forall|k: int| 0 <= k < tagged.len() ==> (#[trigger] tagged[k]).1 == k,
        sorted.to_multiset() == tagged.to_multiset(),
    ensures
        sorted.len() == tagged.len(),
        sorted.no_duplicates(),
        forall|t: int|
            0 <= t < sorted.len() ==> (#[trigger] sorted[t]).1 < tagged.len() && sorted[t]
                == tagged[sorted[t].1 as int],
        forall|k: int| 0 <= k < tagged.len() ==> sorted.contains(#[trigger] tagged[k]),
{
    tagged.to_multiset_ensures();
    sorted.to_multiset_ensures();
    tagged.lemma_multiset_has_no_duplicates();
    sorted.lemma_multiset_has_no_duplicates_conv();
    assert forall|t: int| 0 <= t < sorted.len() implies (#[trigger] sorted[t]).1 < tagged.len()
        && sorted[t] == tagged[sorted[t].1 as int] by {
        assert(sorted.to_multiset().count(sorted[t]) > 0);
    }
    assert forall|k: int| 0 <= k < tagged.len() implies sorted.contains(#[trigger] tagged[k]) by {
        assert(tagged.to_multiset().count(tagged[k]) > 0);
    }
}

/// A Binary Fuse filter over keys of any type that has a digest.
pub struct BFFilter {
    b: Vec<u8>,
    h0_seed: u64,
    h1_seed: u64,
    h2_seed: u64,
    c: usize,
    block_size: usize,
}

impl View for BFFilter {
    type V = FuseView;

    closed spec fn view(&self) -> FuseView {
        FuseView {
            cells: self.b@,
            seed0: self.h0_seed,
            seed1: self.h1_seed,
            seed2: self.h2_seed,
            block: self.block_size as nat,
        }
    }
}

/// Computes `fuse_capacity`.
pub fn fuse_size(n: usize, block_size: usize) -> (c: usize)
    requires
        block_size > 0,
        fuse_capacity(n as int, block_size as int) <= usize::MAX,
    ensures
        c == fuse_capacity(n as int, block_size as int),
        c % block_size == 0,
{
    let num: u128 = 9 * (n as u128);
    let den: u128 = 8 * (block_size as u128);
    let blocks: u128 = (num + (den - 1)) / den;
    let width: u128 = block_size as u128;
    assert(blocks * width <= num + den) by (nonlinear_arith)
        requires
            den == 8 * width,
            width > 0,
            num >= 0,
            blocks == (num + (den - 1)) / (den as int),
    ;
    let c: u128 = blocks * width;
    assert(c % width == 0) by (nonlinear_arith)
        requires
            c == blocks * width,
            width > 0,
            blocks >= 0,
    ;
    c as usize
}

/// Whether `perm` lists the keys block by block: by the block of their
/// first cell, and within a block in their given order.
pub open spec fn is_block_order(perm: Seq<usize>, all: Seq<Slots>, block: int) -> bool {
    &&& is_rearrangement(perm, all.len() as int)
    &&& forall|i: int, j: int|
        0 <= i < j < perm.len() ==> pair_le(
            (all[#[trigger] perm[i] as int].h0 / (block as usize), perm[i]),
            (all[#[trigger] perm[j] as int].h0 / (block as usize), perm[j]),
        )
}

/// The keys listed block by block.
pub open spec fn block_order(all: Seq<Slots>, block: int) -> Seq<usize> {
    choose|perm: Seq<usize>| is_block_order(perm, all, block)
}

proof fn lemma_block_order_prefix(
    p: Seq<usize>,
    q: Seq<usize>,
    all: Seq<Slots>,
    block: int,
    upto: int,
)
    requires
        is_block_order(p, all, block),
        is_block_order(q, all, block),
        0 <= upto <= all.len(),
    ensures
        forall|t: int| 0 <= t < upto ==> p[t] == q[t],
    decreases upto,
{
    if upto > 0 {
        lemma_block_order_prefix(p, q, all, block, upto - 1);
        let t = upto - 1;
        if p[t] != q[t] {
            assert(q.contains(p[t]));
            assert(p.contains(q[t]));
        }
    }
}

/// There is one way only to list the keys block by block.
pub proof fn lemma_block_order_unique(perm: Seq<usize>, all: Seq<Slots>, block: int)
    requires
        is_block_order(perm, all, block),
    ensures
        perm == block_order(all, block),
{
    let other = block_order(all, block);
    lemma_block_order_prefix(perm, other, all, block, all.len() as int);
}

proof fn lemma_small_powers_of_two()
    ensures
        power(2, 5) == 32,
        power(2, 6) == 64,
        power(2, 29) == 0x2000_0000,
        power(2, 58) == 0x400_0000_0000_0000,
{
    reveal_with_fuel(power, 30);
    lemma_power_of_sum(2, 29, 29);
}

/// Blocks of `BLOCK_LIMIT` cells fit no number of keys that a machine
/// integer can hold: `(5 * 2^60)^50` is greater than `24^50 * n^29` for every
/// `n` below `2^64`.
pub proof fn lemma_block_limit(n: nat)
    requires
        n <= u64::MAX,
    ensures
        !block_fits(n, BLOCK_LIMIT as nat),
{
    // With a = 2^58: 5 * 2^60 = 20 * a, and n <= 64 * a.
    let a: nat = 0x400_0000_0000_0000;
    let a29 = power(a, 29);
    let a21 = power(a, 21);
    lemma_power_grows(n, 64 * a, 29);
    lemma_power_of_product(64, a, 29);
    lemma_power_of_product(20, a, 50);
    lemma_power_of_sum(a, 29, 21);
    lemma_power_of_sum(a, 8, 13);
    lemma_power_grows(24, 32, 50);
    lemma_power_positive(20, 50);
    lemma_power_positive(a, 13);
    lemma_power_positive(a, 29);
    // 32^50 * 64^29 = 2^424 is less than a^8 = 2^464.
    lemma_small_powers_of_two();
    lemma_power_of_power(2, 5, 50);
    lemma_power_of_power(2, 6, 29);
    lemma_power_of_power(2, 58, 8);
    lemma_power_of_sum(2, 250, 174);
    lemma_power_of_sum(2, 424, 40);
    lemma_power_positive(2, 39);
    lemma_power_positive(2, 424);
    let low = power(2, 424);
    assert(low < low * power(2, 40)) by (nonlinear_arith)
        requires
            low >= 1,
            power(2, 40) == 2 * power(2, 39),
            power(2, 39) >= 1,
    ;
    let small = power(24, 50) * power(64, 29);
    let big = power(20, 50) * a21;
    assert(small < big) by (nonlinear_arith)
        requires
            small == power(24, 50) * power(64, 29),
            big == power(20, 50) * a21,
            power(24, 50) <= power(32, 50),
            power(32, 50) * power(64, 29) < power(a, 8),
            a21 == power(a, 8) * power(a, 13),
            power(a, 13) >= 1,
            power(20, 50) >= 1,
            power(a, 8) >= 0,
            power(64, 29) >= 0,
    ;
    assert(power(24, 50) * power(n, 29) < power(20 * a, 50)) by (nonlinear_arith)
        requires
            power(n, 29) <= power(64, 29) * a29,
            power(20 * a, 50) == power(20, 50) * (a29 * a21),
            small == power(24, 50) * power(64, 29),
            big == power(20, 50) * a21,
            small < big,
            a29 >= 1,
            power(24, 50) >= 0,
    ;
}

/// Shorter blocks than blocks that fit do fit.
pub proof fn lemma_block_fits_below(n: nat, a: nat, b: nat)
    requires
        a <= b,
        block_fits(n, b),
    ensures
        block_fits(n, a),
{
    lemma_power_grows(5 * a, 5 * b, 50);
}

/// There is one block length only for a number of keys.
pub proof fn lemma_fuse_block_unique(n: nat, b: nat)
    requires
        is_fuse_block(n, b),
    ensures
        forall|other: nat| is_fuse_block(n, other) ==> other == b,
{
    assert forall|other: nat| is_fuse_block(n, other) implies other == b by {
        if other < b {
            lemma_block_fits_below(n, other + 1, b);
        }
        if b < other {
            lemma_block_fits_below(n, b + 1, other);
        }
    }
}

/// Whether `(5 * b)^50` is at most the number `bound`.
fn fits(bound: &Vec<u64>, b: u64) -> (yes: bool)
    requires
        b <= BLOCK_LIMIT,
    ensures
        yes == (power(5 * b as nat, 50) <= value(bound@)),
{
    let raised = times_power(one(), 5 * b, 50);
    at_most(&raised, bound)
}

/// The block length for `n` keys: `floor(4.8 * n^0.58)`, computed exactly,
/// in whole numbers.
pub fn fuse_block_size(n: usize) -> (b: u64)
    ensures
        is_fuse_block(n as nat, b as nat),
        b < BLOCK_LIMIT,
{
    let scale = times_power(one(), 24, 50);
    let bound = times_power(scale, n as u64, 29);
    let mut lo: u64 = 0;
    let mut hi: u64 = 1;
    while hi < BLOCK_LIMIT && fits(&bound, hi)
        invariant
            value(bound@) == power(24, 50) * power(n as nat, 29),
            lo < hi <= BLOCK_LIMIT,
            block_fits(n as nat, lo as nat),
        decreases BLOCK_LIMIT - hi,
    {
        lo = hi;
        hi = if hi > BLOCK_LIMIT / 2 { BLOCK_LIMIT } else { 2 * hi };
    }
    proof {
        lemma_block_limit(n as nat);
    }
    while hi - lo > 1
        invariant
            value(bound@) == power(24, 50) * power(n as nat, 29),
            lo < hi <= BLOCK_LIMIT,
            block_fits(n as nat, lo as nat),
            !block_fits(n as nat, hi as nat),
        decreases hi - lo,
    {
        let mid = lo + (hi - lo) / 2;
        if fits(&bound, mid) {
            lo = mid;
        } else {
            hi = mid;
        }
    }
    lo
}

/// The number of cells of the table for `n` keys in blocks of `block_size`
/// cells, if such a table can be laid out.
pub fn fuse_layout(n: usize, block_size: usize) -> (c: Option<usize>)
    ensures
        c is Some <==> fuse_layout_ok(n as int, block_size as int),
        c matches Some(cells) ==> cells == fuse_capacity(n as int, block_size as int) && cells
            % block_size == 0,
{
    if block_size == 0 {
        return None;
    }
    let num: u128 = 9 * (n as u128);
    let den: u128 = 8 * (block_size as u128);
    let blocks: u128 = (num + (den - 1)) / den;
    let width: u128 = block_size as u128;
    assert(blocks * width <= num + den) by (nonlinear_arith)
        requires
            den == 8 * width,
            width > 0,
            num >= 0,
            blocks == (num + (den - 1)) / (den as int),
    ;
    if blocks * width > usize::MAX as u128 {
        return None;
    }
    let c = fuse_size(n, block_size);
    if c / block_size < 3 {
        assert(c < 3 * block_size) by (nonlinear_arith)
            requires
                block_size > 0,
                c / block_size < 3,
        ;
        return None;
    }
    assert(c >= 3 * block_size) by (nonlinear_arith)
        requires
            block_size > 0,
            c / block_size >= 3,
    ;
    Some(c)
}

/// Lists the keys block by block: by the block of their first cell, and
/// within a block in their given order.
pub fn order_by_block(all: &Vec<Slots>, block_size: usize) -> (perm: Vec<usize>)
    requires
        block_size > 0,
    ensures
        is_block_order(perm@, all@, block_size as int),
        perm@ == block_order(all@, block_size as int),
{
    let n = all.len();
    let mut tagged: Vec<(usize, usize)> = Vec::new();
    let mut k: usize = 0;
    while k < n
        invariant
            n == all@.len(),
            block_size > 0,
            k <= n,
            tagged@.len() == k,
            forall|j: int|
                0 <= j < k ==> #[trigger] tagged@[j] == (all@[j].h0 / block_size, j as usize),
        decreases n - k,
    {
        tagged.push((all[k].h0 / block_size, k));
        k += 1;
    }
    let ghost given = tagged@;
    sort_pairs(&mut tagged);
    proof {
        lemma_sorted_pairs(given, tagged@);
    }
    let mut perm: Vec<usize> = Vec::new();
    let mut t: usize = 0;
    while t < n
        invariant
            n == all@.len(),
            n == tagged@.len(),
            t <= n,
            perm@.len() == t,
            forall|j: int| 0 <= j < t ==> #[trigger] perm@[j] == tagged@[j].1,
        decreases n - t,
    {
        perm.push(tagged[t].1);
        t += 1;
    }
    proof {
        assert forall|k: usize| k < n implies #[trigger] perm@.contains(k) by {
            let t = choose|t: int| 0 <= t < tagged@.len() && tagged@[t] == given[k as int];
            assert(perm@[t] == k);
        }
        lemma_block_order_unique(perm@, all@, block_size as int);
    }
    perm
}

impl BFFilter {
    /// Builds the filter for the keys with the given digests, in blocks of
    /// `block_size` cells, under the seeds made of three raw values. The
    /// build succeeds exactly when the table can be laid out and the keys
    /// are peelable under these seeds; the filter then contains every key.
    pub fn with_seeds(
        digests: &Vec<u64>,
        block_size: usize,
        raw0: u64,
        raw1: u64,
        raw2: u64,
    ) -> (res: Option<BFFilter>)
        ensures
            res is Some <==> fuse_layout_ok(digests@.len() as int, block_size as int)
                && fuse_peelable(digests@, block_size as int, raw0, raw1, raw2),
            res matches Some(f) ==> {
                &&& f.wf()
                &&& f@ == fuse_built(digests@, block_size as int, raw0, raw1, raw2)
                &&& f@.cells.len() == fuse_capacity(digests@.len() as int, block_size as int)
                &&& forall|k: int| 0 <= k < digests@.len() ==> f@.contains(#[trigger] digests@[k])
            },
    {
        let c = match fuse_layout(digests.len(), block_size) {
            Some(c) => c,
            None => {
                return None;
            },
        };
        let mut b: Vec<u8> = Vec::new();
        let mut j: usize = 0;
        while j < c
            invariant
                j <= c,
                b@ == Seq::new(j as nat, |j: int| 0u8),
            decreases c - j,
        {
            b.push(0);
            j += 1;
        }
        let mut filter = BFFilter {
            b,
            h0_seed: odd_seed(raw0),
            h1_seed: odd_seed(raw1),
            h2_seed: odd_seed(raw2),
            c,
            block_size,
        };
        let mut all: Vec<Slots> = Vec::new();
        let mut k: usize = 0;
        while k < digests.len()
            invariant
                filter.wf(),
                k <= digests@.len(),
                all@.len() == k,
                forall|j: int| 0 <= j < k ==> #[trigger] all@[j] == filter@.slots_of(digests@[j]),
            decreases digests@.len() - k,
        {
            all.push(filter.slots(digests[k]));
            k += 1;
        }
        assert(all@ =~= filter@.all_slots(digests@));
        let perm = order_by_block(&all, block_size);
        let mut buffer: Vec<(u64, Slots)> = Vec::new();
        let mut t: usize = 0;
        while t < perm.len()
            invariant
                t <= perm@.len(),
                buffer@.len() == t,
                all@.len() == digests@.len(),
                is_rearrangement(perm@, all@.len() as int),
                forall|j: int|
                    0 <= j < t ==> #[trigger] buffer@[j] == (
                        digests@[perm@[j] as int],
                        all@[perm@[j] as int],
                    ),
            decreases perm@.len() - t,
        {
            let k = perm[t];
            buffer.push((digests[k], all[k]));
            t += 1;
        }
        let ghost moved = Seq::new(buffer@.len(), |t: int| buffer@[t].1);
        proof {
            lemma_peelable_rearranged(all@, perm@, moved);
            assert(moved =~= Seq::new(perm@.len(), |t: int| all@[perm@[t] as int]));
            assert(Seq::new(buffer@.len(), |t: int| buffer@[t].0) =~= Seq::new(
                perm@.len(),
                |t: int| digests@[perm@[t] as int],
            ));
        }
        let (success, stack) = filter.map(&buffer);
        if success {
            filter.assign(stack);
            proof {
                assert forall|k: int| 0 <= k < digests@.len() implies filter@.contains(
                    #[trigger] digests@[k],
                ) by {
                    assert(perm@.contains(k as usize));
                    let t = choose|t: int| 0 <= t < perm@.len() && perm@[t] == k as usize;
                    assert(buffer@[t].0 == digests@[k]);
                }
            }
            Some(filter)
        } else {
            None
        }
    }

    /// Builds the filter for `keys` in blocks of `floor(4.8 * n^0.58)`
    /// cells, where `n` is the number of keys, drawing fresh seeds until the
    /// keys are peelable, at most `max_attempts` times. A filter that is
    /// returned contains every key. Nothing is returned where the table
    /// cannot be laid out in such blocks.
    pub fn new<K: FilterKey>(keys: &[K], max_attempts: usize) -> (res: Option<BFFilter>)
        ensures
            res matches Some(f) ==> {
                &&& f.wf()
                &&& is_fuse_block(keys@.len(), f@.block)
                &&& f@.cells.len() == fuse_capacity(keys@.len() as int, f@.block as int)
                &&& forall|k: int|
                    0 <= k < keys@.len() ==> f@.contains(
                        digest_spec((#[trigger] keys@[k]).key_bytes()),
                    )
                &&& exists|raw0: u64, raw1: u64, raw2: u64|
                    f@ == #[trigger] fuse_built(
                        digests_of(keys@),
                        f@.block as int,
                        raw0,
                        raw1,
                        raw2,
                    )
            },
            max_attempts == 0 ==> res is None,
            (forall|b: nat|
                is_fuse_block(keys@.len(), b) ==> !fuse_layout_ok(keys@.len() as int, b as int))
                ==> res is None,
            forall|b: nat|
                max_attempts > 0 && res is None && #[trigger] is_fuse_block(keys@.len(), b)
                    && fuse_layout_ok(keys@.len() as int, b as int) ==> exists|
                    raw0: u64,
                    raw1: u64,
                    raw2: u64,
                | !#[trigger] fuse_peelable(digests_of(keys@), b as int, raw0, raw1, raw2),
    {
        let block = fuse_block_size(keys.len());
        proof {
            lemma_fuse_block_unique(keys@.len(), block as nat);
        }
        if block > usize::MAX as u64 {
            return None;
        }
        BFFilter::with_blocks(keys, block as usize, max_attempts)
    }

    /// Builds the filter for `keys` in blocks of `block_size` cells, drawing
    /// fresh seeds until the keys are peelable, at most `max_attempts`
    /// times. A filter that is returned contains every key. Nothing is
    /// returned where the table cannot be laid out.
    pub fn with_blocks<K: FilterKey>(keys: &[K], block_size: usize, max_attempts: usize) -> (res:
        Option<BFFilter>)
        ensures
            res matches Some(f) ==> {
                &&& f.wf()
                &&& f@.block == block_size
                &&& f@.cells.len() == fuse_capacity(keys@.len() as int, block_size as int)
                &&& forall|k: int|
                    0 <= k < keys@.len() ==> f@.contains(
                        digest_spec((#[trigger] keys@[k]).key_bytes()),
                    )
                &&& exists|raw0: u64, raw1: u64, raw2: u64|
                    f@ == #[trigger] fuse_built(
                        digests_of(keys@),
                        block_size as int,
                        raw0,
                        raw1,
                        raw2,
                    )
            },
            max_attempts == 0 ==> res is None,
            !fuse_layout_ok(keys@.len() as int, block_size as int) ==> res is None,
            max_attempts > 0 && fuse_layout_ok(keys@.len() as int, block_size as int)
                && res is None ==> exists|raw0: u64, raw1: u64, raw2: u64|
                !#[trigger] fuse_peelable(digests_of(keys@), block_size as int, raw0, raw1, raw2),
    {
        if fuse_layout(keys.len(), block_size).is_none() {
            return None;
        }
        let digests = digest_all(keys);
        let mut attempt: usize = 0;
        while attempt < max_attempts
            invariant
                attempt <= max_attempts,
                digests@ == digests_of(keys@),
                fuse_layout_ok(keys@.len() as int, block_size as int),
                attempt > 0 ==> exists|raw0: u64, raw1: u64, raw2: u64|
                    !#[trigger] fuse_peelable(
                        digests_of(keys@),
                        block_size as int,
                        raw0,
                        raw1,
                        raw2,
                    ),
            decreases max_attempts - attempt,
        {
            let raw0 = random_u64();
            let raw1 = random_u64();
            let raw2 = random_u64();
            match BFFilter::with_seeds(&digests, block_size, raw0, raw1, raw2) {
                Some(filter) => {
                    proof {
                        assert forall|k: int| 0 <= k < keys@.len() implies filter@.contains(
                            digest_spec((#[trigger] keys@[k]).key_bytes()),
                        ) by {
                            assert(digests@[k] == digest_spec(keys@[k].key_bytes()));
                        }
                    }
                    return Some(filter);
                },
                None => {},
            }
            attempt += 1;
        }
        None
    }

    /// The representation invariant: the table has the recorded length, and
    /// the view is well formed.
    pub closed spec fn wf(&self) -> bool {
        &&& self.b@.len() == self.c
        &&& self@.wf()
    }

    /// Number of cells of the table.
    pub fn capacity(&self) -> (c: usize)
        requires
            self.wf(),
        ensures
            c == self@.cells.len(),
    {
        self.c
    }

    /// Length of a block.
    pub fn block_size(&self) -> (block: usize)
        ensures
            block == self@.block,
    {
        self.block_size
    }

    /// The fingerprint of a key.
    pub fn fingerprint<K: FilterKey>(&self, x: &K) -> (fp: u8)
        ensures
            fp == fingerprint_spec(digest_spec(x.key_bytes())),
            fp < 128,
    {
        fingerprint_of(x.digest())
    }

    /// The three cells of the key with digest `d`.
    pub fn slots(&self, d: u64) -> (s: Slots)
        requires
            self.wf(),
        ensures
            s == self@.slots_of(d),
            s.wf(self@.cells.len() as int),
    {
        proof {
            lemma_fuse_slots(self@, d);
        }
        let h0 = index(d, self.h0_seed, self.c - 2 * self.block_size);
        let block = h0 / self.block_size;
        let ghost width = self.block_size as int;
        assert((block + 1) * width <= (block + 3) * width && (block + 2) * width <= (block + 3)
            * width) by (nonlinear_arith)
            requires
                width > 0,
                block >= 0,
        ;
        let h1 = index(d, self.h1_seed, self.block_size) + (block + 1) * self.block_size;
        let h2 = index(d, self.h2_seed, self.block_size) + (block + 2) * self.block_size;
        Slots { h0, h1, h2 }
    }

    /// The three cells of a key, in three consecutive blocks.
    pub fn hash<K: FilterKey>(&self, item: &K) -> (h: (usize, usize, usize))
        requires
            self.wf(),
        ensures
            h.0 == self@.h0(digest_spec(item.key_bytes())),
            h.1 == self@.h1(digest_spec(item.key_bytes())),
            h.2 == self@.h2(digest_spec(item.key_bytes())),
            h.0 < h.1 < h.2 < self@.cells.len(),
    {
        let d = item.digest();
        proof {
            lemma_fuse_slots(self@, d);
        }
        let s = self.slots(d);
        (s.h0, s.h1, s.h2)
    }

    /// The peeling phase of the construction, on keys given by digest with
    /// their cells.
    ///
    /// Returns whether every key was peeled, which is the case exactly when
    /// the keys are peelable, and the plan of assignment: the peeled keys,
    /// last peeled first, each with the cell at which it was peeled.
    pub fn map(&self, buffer: &Vec<(u64, Slots)>) -> (res: (bool, Vec<(u64, usize)>))
        requires
            self.wf(),
            forall|t: int|
                0 <= t < buffer@.len() ==> (#[trigger] buffer@[t]).1 == self@.slots_of(buffer@[t].0),
        ensures
            res.0 == peelable(Seq::new(buffer@.len(), |t: int| buffer@[t].1)),
            res.0 == (res.1@.len() == buffer@.len()),
            res.1@ == plan_of(
                peel_order(Seq::new(buffer@.len(), |t: int| buffer@[t].1), self@.cells.len()),
                Seq::new(buffer@.len(), |t: int| buffer@[t].0),
            ),
            self@.is_plan(res.1@),
            res.0 ==> forall|t: int|
                0 <= t < buffer@.len() ==> plan_covers(res.1@, (#[trigger] buffer@[t]).0),
    {
        let mut slots: Vec<Slots> = Vec::new();
        let mut digests: Vec<u64> = Vec::new();
        let mut k: usize = 0;
        while k < buffer.len()
            invariant
                self.wf(),
                k <= buffer@.len(),
                slots@.len() == k,
                digests@.len() == k,
                forall|t: int|
                    0 <= t < buffer@.len() ==> (#[trigger] buffer@[t]).1 == self@.slots_of(
                        buffer@[t].0,
                    ),
                forall|j: int| 0 <= j < k ==> #[trigger] slots@[j] == buffer@[j].1,
                forall|j: int| 0 <= j < k ==> #[trigger] digests@[j] == buffer@[j].0,
                forall|j: int| 0 <= j < k ==> (#[trigger] slots@[j]).wf(self@.cells.len() as int),
            decreases buffer@.len() - k,
        {
            let (d, s) = buffer[k];
            proof {
                lemma_fuse_slots(self@, d);
            }
            slots.push(s);
            digests.push(d);
            k += 1;
        }
        assert(slots@ =~= Seq::new(buffer@.len(), |t: int| buffer@[t].1));
        let (complete, order) = peel(&slots, self.c);
        let plan = reverse_plan(&order, &digests);
        proof {
            lemma_plan_of_peeling(
                order@,
                digests@,
                slots@,
                |d: u64| self@.slots_of(d),
                self@.cells.len() as int,
            );
            if complete {
                assert forall|t: int| 0 <= t < buffer@.len() implies plan_covers(
                    plan@,
                    (#[trigger] buffer@[t]).0,
                ) by {
                    assert(digests@[t] == buffer@[t].0);
                }
            }
        }
        (complete, plan)
    }

    /// The assignment phase of the construction: places the keys of the plan
    /// in order. Afterwards the three cells of each of them XOR to its
    /// fingerprint.
    pub fn assign(&mut self, stack: Vec<(u64, usize)>)
        requires
            old(self).wf(),
            old(self)@.is_plan(stack@),
        ensures
            final(self).wf(),
            final(self)@ == (FuseView { cells: old(self)@.assigned(stack@), ..old(self)@ }),
            final(self)@.cells.len() == old(self)@.cells.len(),
            forall|t: int| 0 <= t < stack@.len() ==> final(self)@.contains((#[trigger] stack@[t]).0),
    {
        let ghost start = self@;
        let ghost slots_of = |d: u64| start.slots_of(d);
        let mut t: usize = 0;
        while t < stack.len()
            invariant
                t <= stack@.len(),
                self.wf(),
                start.wf(),
                slots_of == |d: u64| start.slots_of(d),
                start.is_plan(stack@),
                self@ == (FuseView {
                    cells: assigned(start.cells, stack@, slots_of, t as nat),
                    ..start
                }),
            decreases stack@.len() - t,
        {
            let (d, slot) = stack[t];
            let s = self.slots(d);
            let fp = fingerprint_of(d);
            proof {
                lemma_assigned_holds(start.cells, stack@, slots_of, t as nat);
            }
            place_cell(&mut self.b, s, fp, slot);
            t += 1;
        }
        proof {
            lemma_assigned_holds(start.cells, stack@, slots_of, stack@.len());
        }
    }

    /// Queries a key: true iff its three cells XOR to its fingerprint.
    pub fn contains<K: FilterKey>(&self, key: &K) -> (found: bool)
        requires
            self.wf(),
        ensures
            found == self@.contains(digest_spec(key.key_bytes())),
    {
        let d = key.digest();
        let fp = fingerprint_of(d);
        let s = self.slots(d);
        let computed_fp: u8 = self.b[s.h0] ^ self.b[s.h1] ^ self.b[s.h2];
        computed_fp == fp
    }
}

/// Block length of the standard run: `floor(4.8 * 996147^0.58)`.
pub const STANDARD_RUN_BLOCK: usize = 14_463;

/// The standard run: builds a filter for the integers `1..=996_147` in 78
/// blocks of 14 463 cells, then queries them and the next 996 147 integers,
/// and counts the positive answers. Returns nothing if no seeds were found
/// for which the keys are peelable. Every key of the set is found again.
///
/// The run fails only where seeds were drawn under which the keys are not
/// peelable: were they peelable under all seeds, it would succeed.
pub fn test_bff() -> (res: Option<Tally>)
    ensures
        res matches Some(t) ==> {
            &&& t.items == 996_147
            &&& t.bits == 8 * 1_128_114
            &&& t.true_positives == t.items
            &&& t.false_positives <= t.items
        },
        res is None ==> exists|raw0: u64, raw1: u64, raw2: u64|
            !#[trigger] fuse_peelable(digests_of(run_keys(996_147)), 14_463, raw0, raw1, raw2),
{
    let n: u32 = 996_147;
    let mut pos_keys: Vec<u32> = Vec::new();
    let mut key: u32 = 1;
    while key <= n
        invariant
            n == 996_147,
            1 <= key <= n + 1,
            pos_keys@.len() == key - 1,
            forall|j: int| 0 <= j < pos_keys@.len() ==> #[trigger] pos_keys@[j] == j + 1,
        decreases n + 1 - key,
    {
        pos_keys.push(key);
        key += 1;
    }
    assert(pos_keys@ =~= run_keys(996_147));
    let filter = match BFFilter::with_blocks(
        pos_keys.as_slice(),
        STANDARD_RUN_BLOCK,
        STANDARD_RUN_ATTEMPTS,
    ) {
        Some(filter) => filter,
        None => {
            return None;
        },
    };
    let bits: usize = filter.capacity() * 8;
    let mut true_positives: usize = 0;
    let mut key: u32 = 1;
    while key <= n
        invariant
            n == 996_147,
            1 <= key <= n + 1,
            filter.wf(),
            true_positives == key - 1,
            pos_keys@.len() == n,
            forall|j: int| 0 <= j < pos_keys@.len() ==> #[trigger] pos_keys@[j] == j + 1,
            forall|k: int|
                0 <= k < pos_keys@.len() ==> filter@.contains(
                    digest_spec((#[trigger] pos_keys@[k]).key_bytes()),
                ),
        decreases n + 1 - key,
    {
        let found = filter.contains(&key);
        assert(pos_keys@[key - 1] == key);
        if found {
            true_positives += 1;
        }
        key += 1;
    }
    let mut false_positives: usize = 0;
    let mut probe: u32 = n + 1;
    while probe <= 2 * n
        invariant
            n == 996_147,
            n + 1 <= probe <= 2 * n + 1,
            filter.wf(),
            false_positives <= probe - (n + 1),
        decreases 2 * n + 1 - probe,
    {
        if filter.contains(&probe) {
            false_positives += 1;
        }
        probe += 1;
    }
    Some(Tally { items: n as usize, bits, true_positives, false_positives })
}

} // verus!
