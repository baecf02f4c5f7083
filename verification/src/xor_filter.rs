//! The Xor filter: a static table of fingerprints built from a complete key
//! set. Each key owns one cell in each third of the table, and the three
//! cells of a key of the set XOR to its fingerprint.

use crate::entropy::random_u64;
use crate::hashing::{
    digest_all, digest_spec, digests_of, index, index_spec, is_odd, odd_seed, odd_seed_spec,
    FilterKey,
};
use crate::peeling::{lemma_peelable_empty, peel, peel_order, peelable, Slots};
use crate::table::{
    assigned, fingerprint_of, fingerprint_spec, is_plan, lemma_assigned_holds,
    lemma_plan_of_peeling, place_cell, plan_covers, plan_of, reverse_plan, xor3,
};
use crate::tally::{run_keys, Tally, STANDARD_RUN_ATTEMPTS};
use vstd::prelude::*;

verus! {

/// Number of cells for `n` keys: `floor(1.23 * n) + 32`.
pub open spec fn xor_capacity(n: int) -> int {
    n * 123 / 100 + 32
}

/// The mathematical content of an Xor filter.
pub struct XorView {
    pub cells: Seq<u8>,
    pub seed0: u64,
    pub seed1: u64,
    pub seed2: u64,
    /// Length of a third of the table.
    pub segment: nat,
}

impl XorView {
    /// The table has three thirds that are not empty, and the seeds are
    /// odd.
    pub open spec fn wf(self) -> bool {
        &&& self.segment > 0
        &&& self.segment == self.cells.len() / 3
        &&& self.cells.len() <= usize::MAX
        &&& is_odd(self.seed0)
        &&& is_odd(self.seed1)
        &&& is_odd(self.seed2)
    }

    /// The key's cell in the first third.
    pub open spec fn h0(self, d: u64) -> int {
        index_spec(d, self.seed0, self.segment as int)
    }

    /// The key's cell in the second third.
    pub open spec fn h1(self, d: u64) -> int {
        index_spec(d, self.seed1, self.segment as int) + self.segment
    }

    /// The key's cell in the last third.
    pub open spec fn h2(self, d: u64) -> int {
        index_spec(d, self.seed2, self.segment as int) + 2 * self.segment
    }

    /// The three cells of the key with digest `d`.
    pub open spec fn slots_of(self, d: u64) -> Slots {
        Slots { h0: self.h0(d) as usize, h1: self.h1(d) as usize, h2: self.h2(d) as usize }
    }

    /// The slots of a sequence of keys.
    pub open spec fn all_slots(self, digests: Seq<u64>) -> Seq<Slots> {
        Seq::new(digests.len(), |k: int| self.slots_of(digests[k]))
    }

    /// Whether the three cells of the key XOR to its fingerprint.
    pub open spec fn contains(self, d: u64) -> bool {
        xor3(self.cells, self.slots_of(d)) == fingerprint_spec(d)
    }

    /// Whether `plan` is a plan of assignment under this filter's hashes.
    pub open spec fn is_plan(self, plan: Seq<(u64, usize)>) -> bool {
        is_plan(plan, |d: u64| self.slots_of(d), self.cells.len() as int)
    }

    /// The cells after the keys of `plan` have been placed in order.
    pub open spec fn assigned(self, plan: Seq<(u64, usize)>) -> Seq<u8> {
        assigned(self.cells, plan, |d: u64| self.slots_of(d), plan.len())
    }

    /// The plan by which the keys with the given digests are assigned: the
    /// keys in reverse order of peeling.
    pub open spec fn plan(self, digests: Seq<u64>) -> Seq<(u64, usize)> {
        plan_of(peel_order(self.all_slots(digests), self.cells.len()), digests)
    }

    /// The cells after the keys with the given digests have been peeled and
    /// assigned.
    pub open spec fn built(self, digests: Seq<u64>) -> Seq<u8> {
        self.assigned(self.plan(digests))
    }

    /// The empty table for `n` keys under the seeds made of three raw values.
    pub open spec fn empty(n: int, raw0: u64, raw1: u64, raw2: u64) -> XorView {
        XorView {
            cells: Seq::new(xor_capacity(n) as nat, |j: int| 0u8),
            seed0: odd_seed_spec(raw0),
            seed1: odd_seed_spec(raw1),
            seed2: odd_seed_spec(raw2),
            segment: (xor_capacity(n) / 3) as nat,
        }
    }
}

/// Whether the keys with the given digests are peelable in the table for
/// them under the seeds made of three raw values.
pub open spec fn xor_peelable(digests: Seq<u64>, raw0: u64, raw1: u64, raw2: u64) -> bool {
    peelable(XorView::empty(digests.len() as int, raw0, raw1, raw2).all_slots(digests))
}

/// The filter that is built for the keys with the given digests under the
/// seeds made of three raw values, where they are peelable.
pub open spec fn xor_built(digests: Seq<u64>, raw0: u64, raw1: u64, raw2: u64) -> XorView {
    let empty = XorView::empty(digests.len() as int, raw0, raw1, raw2);
    XorView { cells: empty.built(digests), ..empty }
}

/// The three cells of a key lie in the three thirds of the table, one in
/// each.
pub proof fn lemma_xor_slots(v: XorView, d: u64)
    requires
        v.wf(),
    ensures
        0 <= v.h0(d) < v.segment,
        v.segment <= v.h1(d) < 2 * v.segment,
        2 * v.segment <= v.h2(d) < 3 * v.segment,
        3 * v.segment <= v.cells.len(),
        v.slots_of(d).wf(v.cells.len() as int),
        v.slots_of(d).h0 == v.h0(d),
        v.slots_of(d).h1 == v.h1(d),
        v.slots_of(d).h2 == v.h2(d),
{
}

/// An Xor filter over keys of any type that has a digest.
pub struct XorFilter {
    b: Vec<u8>,
    h0_seed: u64,
    h1_seed: u64,
    h2_seed: u64,
    c: usize,
    block_size: usize,
}

impl View for XorFilter {
    type V = XorView;

    closed spec fn view(&self) -> XorView {
        XorView {
            cells: self.b@,
            seed0: self.h0_seed,
            seed1: self.h1_seed,
            seed2: self.h2_seed,
            segment: self.block_size as nat,
        }
    }
}

impl XorFilter {
    /// The representation invariant: the table has the recorded length, and
    /// the view is well formed.
    pub closed spec fn wf(&self) -> bool {
        &&& self.b@.len() == self.c
        &&& self@.wf()
    }

    /// Number of cells of the table.
    pub fn capacity(&self) -> (c: usize)
        requires
            self.wf(),
        ensures
            c == self@.cells.len(),
    {
        self.c
    }

    /// The fingerprint of a key.
    pub fn fingerprint<K: FilterKey>(&self, x: &K) -> (fp: u8)
        ensures
            fp == fingerprint_spec(digest_spec(x.key_bytes())),
            fp < 128,
    {
        fingerprint_of(x.digest())
    }

    /// The key's cell in the first third of the table.
    pub fn h0<K: FilterKey>(&self, item: &K) -> (i: usize)
        requires
            self.wf(),
        ensures
            i == self@.h0(digest_spec(item.key_bytes())),
            i < self@.segment,
    {
        index(item.digest(), self.h0_seed, self.block_size)
    }

    /// The key's cell in the second third of the table.
    pub fn h1<K: FilterKey>(&self, item: &K) -> (i: usize)
        requires
            self.wf(),
        ensures
            i == self@.h1(digest_spec(item.key_bytes())),
            self@.segment <= i < 2 * self@.segment,
    {
        index(item.digest(), self.h1_seed, self.block_size) + self.block_size
    }

    /// The key's cell in the last third of the table.
    pub fn h2<K: FilterKey>(&self, item: &K) -> (i: usize)
        requires
            self.wf(),
        ensures
            i == self@.h2(digest_spec(item.key_bytes())),
            2 * self@.segment <= i < 3 * self@.segment,
    {
        index(item.digest(), self.h2_seed, self.block_size) + 2 * self.block_size
    }

    /// The three cells of the key with digest `d`.
    pub fn slots(&self, d: u64) -> (s: Slots)
        requires
            self.wf(),
        ensures
            s == self@.slots_of(d),
            s.wf(self@.cells.len() as int),
    {
        Slots {
            h0: index(d, self.h0_seed, self.block_size),
            h1: index(d, self.h1_seed, self.block_size) + self.block_size,
            h2: index(d, self.h2_seed, self.block_size) + 2 * self.block_size,
        }
    }

    /// Builds the filter for the keys with the given digests under the
    /// seeds made of three raw values. The build succeeds exactly when the
    /// keys are peelable under these seeds; the filter then contains every
    /// key.
    pub fn with_seeds(digests: &Vec<u64>, raw0: u64, raw1: u64, raw2: u64) -> (res: Option<
        XorFilter,
    >)
        ensures
            res is Some <==> xor_capacity(digests@.len() as int) <= usize::MAX && xor_peelable(
                digests@,
                raw0,
                raw1,
                raw2,
            ),
            res matches Some(f) ==> {
                &&& f.wf()
                &&& f@ == xor_built(digests@, raw0, raw1, raw2)
                &&& f@.cells.len() == xor_capacity(digests@.len() as int)
                &&& forall|k: int| 0 <= k < digests@.len() ==> f@.contains(#[trigger] digests@[k])
            },
    {
        let n: u128 = digests.len() as u128;
        if n * 123 / 100 + 32 > usize::MAX as u128 {
            return None;
        }
        let c: usize = (n * 123 / 100) as usize + 32;
        let block_size = c / 3;
        let mut b: Vec<u8> = Vec::new();
        let mut j: usize = 0;
        while j < c
            invariant
                j <= c,
                b@ == Seq::new(j as nat, |j: int| 0u8),
            decreases c - j,
        {
            b.push(0);
            j += 1;
        }
        let mut filter = XorFilter {
            b,
            h0_seed: odd_seed(raw0),
            h1_seed: odd_seed(raw1),
            h2_seed: odd_seed(raw2),
            c,
            block_size,
        };
        let (success, stack) = filter.map(digests);
        if success {
            filter.assign(stack);
            Some(filter)
        } else {
            None
        }
    }

    /// Builds the filter for `keys`, drawing fresh seeds until the keys are
    /// peelable, at most `max_attempts` times. A filter that is returned
    /// contains every key. Nothing is returned where the table would be
    /// longer than a vector can be.
    pub fn new<K: FilterKey>(keys: &[K], max_attempts: usize) -> (res: Option<XorFilter>)
        ensures
            res matches Some(f) ==> {
                &&& f.wf()
                &&& f@.cells.len() == xor_capacity(keys@.len() as int)
                &&& forall|k: int|
                    0 <= k < keys@.len() ==> f@.contains(
                        digest_spec((#[trigger] keys@[k]).key_bytes()),
                    )
                &&& exists|raw0: u64, raw1: u64, raw2: u64|
                    f@ == #[trigger] xor_built(digests_of(keys@), raw0, raw1, raw2)
            },
            max_attempts == 0 ==> res is None,
            xor_capacity(keys@.len() as int) > usize::MAX ==> res is None,
            max_attempts > 0 && keys@.len() == 0 ==> res is Some,
            max_attempts > 0 && xor_capacity(keys@.len() as int) <= usize::MAX && res is None
                ==> exists|raw0: u64, raw1: u64, raw2: u64|
                !#[trigger] xor_peelable(digests_of(keys@), raw0, raw1, raw2),
    {
        if keys.len() as u128 * 123 / 100 + 32 > usize::MAX as u128 {
            return None;
        }
        let digests = digest_all(keys);
        let mut attempt: usize = 0;
        while attempt < max_attempts
            invariant
                attempt <= max_attempts,
                digests@ == digests_of(keys@),
                xor_capacity(keys@.len() as int) <= usize::MAX,
                attempt > 0 ==> exists|raw0: u64, raw1: u64, raw2: u64|
                    !#[trigger] xor_peelable(digests_of(keys@), raw0, raw1, raw2),
                attempt > 0 ==> keys@.len() > 0,
            decreases max_attempts - attempt,
        {
            let raw0 = random_u64();
            let raw1 = random_u64();
            let raw2 = random_u64();
            proof {
                if keys@.len() == 0 {
                    lemma_peelable_empty(
                        XorView::empty(0, raw0, raw1, raw2).all_slots(digests@),
                    );
                }
            }
            match XorFilter::with_seeds(&digests, raw0, raw1, raw2) {
                Some(filter) => {
                    proof {
                        assert forall|k: int| 0 <= k < keys@.len() implies filter@.contains(
                            digest_spec((#[trigger] keys@[k]).key_bytes()),
                        ) by {
                            assert(digests@[k] == digest_spec(keys@[k].key_bytes()));
                        }
                    }
                    return Some(filter);
                },
                None => {},
            }
            attempt += 1;
        }
        None
    }

    /// The peeling phase of the construction.
    ///
    /// Returns whether every key was peeled, which is the case exactly when
    /// the keys are peelable under this filter's hashes, and the plan of
    /// assignment: the peeled keys, last peeled first, each with the cell at
    /// which it was peeled.
    pub fn map(&self, digests: &Vec<u64>) -> (res: (bool, Vec<(u64, usize)>))
        requires
            self.wf(),
        ensures
            res.0 == peelable(self@.all_slots(digests@)),
            res.0 == (res.1@.len() == digests@.len()),
            res.1@ == self@.plan(digests@),
            self@.is_plan(res.1@),
            res.0 ==> forall|k: int|
                0 <= k < digests@.len() ==> plan_covers(res.1@, #[trigger] digests@[k]),
    {
        let mut slots: Vec<Slots> = Vec::new();
        let mut k: usize = 0;
        while k < digests.len()
            invariant
                self.wf(),
                k <= digests@.len(),
                slots@.len() == k,
                forall|j: int| 0 <= j < k ==> #[trigger] slots@[j] == self@.slots_of(digests@[j]),
                forall|j: int| 0 <= j < k ==> (#[trigger] slots@[j]).wf(self@.cells.len() as int),
            decreases digests@.len() - k,
        {
            slots.push(self.slots(digests[k]));
            k += 1;
        }
        assert(slots@ =~= self@.all_slots(digests@));
        let (complete, order) = peel(&slots, self.c);
        let plan = reverse_plan(&order, digests);
        proof {
            lemma_plan_of_peeling(
                order@,
                digests@,
                slots@,
                |d: u64| self@.slots_of(d),
                self@.cells.len() as int,
            );
        }
        (complete, plan)
    }

    /// The assignment phase of the construction: places the keys of the plan
    /// in order. Afterwards the three cells of each of them XOR to its
    /// fingerprint.
    pub fn assign(&mut self, stack: Vec<(u64, usize)>)
        requires
            old(self).wf(),
            old(self)@.is_plan(stack@),
        ensures
            final(self).wf(),
            final(self)@ == (XorView { cells: old(self)@.assigned(stack@), ..old(self)@ }),
            final(self)@.cells.len() == old(self)@.cells.len(),
            forall|t: int| 0 <= t < stack@.len() ==> final(self)@.contains((#[trigger] stack@[t]).0),
    {
        let ghost start = self@;
        let ghost slots_of = |d: u64| start.slots_of(d);
        let mut t: usize = 0;
        while t < stack.len()
            invariant
                t <= stack@.len(),
                self.wf(),
                start.wf(),
                slots_of == |d: u64| start.slots_of(d),
                start.is_plan(stack@),
                self@ == (XorView {
                    cells: assigned(start.cells, stack@, slots_of, t as nat),
                    ..start
                }),
            decreases stack@.len() - t,
        {
            let (d, slot) = stack[t];
            let s = self.slots(d);
            let fp = fingerprint_of(d);
            place_cell(&mut self.b, s, fp, slot);
            t += 1;
        }
        proof {
            lemma_assigned_holds(start.cells, stack@, slots_of, stack@.len());
        }
    }

    /// Queries a key: true iff its three cells XOR to its fingerprint.
    pub fn contains<K: FilterKey>(&self, key: &K) -> (found: bool)
        requires
            self.wf(),
        ensures
            found == self@.contains(digest_spec(key.key_bytes())),
    {
        let d = key.digest();
        let fp = fingerprint_of(d);
        let s = self.slots(d);
        let computed_fp: u8 = self.b[s.h0] ^ self.b[s.h1] ^ self.b[s.h2];
        computed_fp == fp
    }
}

/// The standard run: builds a filter for the integers `1..=1_000_000`, then
/// queries them and the next million integers, and counts the positive
/// answers. Returns nothing if no seeds were found for which the keys are
/// peelable. Every key of the set is found again.
///
/// The run fails only where seeds were drawn under which the keys are not
/// peelable: were they peelable under all seeds, it would succeed.
pub fn test_xor_filters() -> (res: Option<Tally>)
    ensures
        res matches Some(t) ==> {
            &&& t.items == 1_000_000
            &&& t.bits == 8 * 1_230_032
            &&& t.true_positives == t.items
            &&& t.false_positives <= t.items
        },
        res is None ==> exists|raw0: u64, raw1: u64, raw2: u64|
            !#[trigger] xor_peelable(digests_of(run_keys(1_000_000)), raw0, raw1, raw2),
{
    let n: u32 = 1_000_000;
    let mut pos_keys: Vec<u32> = Vec::new();
    let mut key: u32 = 1;
    while key <= n
        invariant
            n == 1_000_000,
            1 <= key <= n + 1,
            pos_keys@.len() == key - 1,
            forall|j: int| 0 <= j < pos_keys@.len() ==> #[trigger] pos_keys@[j] == j + 1,
        decreases n + 1 - key,
    {
        pos_keys.push(key);
        key += 1;
    }
    assert(pos_keys@ =~= run_keys(1_000_000));
    let filter = match XorFilter::new(pos_keys.as_slice(), STANDARD_RUN_ATTEMPTS) {
        Some(filter) => filter,
        None => {
            return None;
        },
    };
    let bits: usize = filter.capacity() * 8;
    let mut true_positives: usize = 0;
    let mut key: u32 = 1;
    while key <= n
        invariant
            n == 1_000_000,
            1 <= key <= n + 1,
            filter.wf(),
            true_positives == key - 1,
            pos_keys@.len() == n,
            forall|j: int| 0 <= j < pos_keys@.len() ==> #[trigger] pos_keys@[j] == j + 1,
            forall|k: int|
                0 <= k < pos_keys@.len() ==> filter@.contains(
                    digest_spec((#[trigger] pos_keys@[k]).key_bytes()),
                ),
        decreases n + 1 - key,
    {
        let found = filter.contains(&key);
        assert(pos_keys@[key - 1] == key);
        if found {
            true_positives += 1;
        }
        key += 1;
    }
    let mut false_positives: usize = 0;
    let mut probe: u32 = n + 1;
    while probe <= 2 * n
        invariant
            n == 1_000_000,
            n + 1 <= probe <= 2 * n + 1,
            filter.wf(),
            false_positives <= probe - (n + 1),
        decreases 2 * n + 1 - probe,
    {
        if filter.contains(&probe) {
            false_positives += 1;
        }
        probe += 1;
    }
    Some(Tally { items: n as usize, bits, true_positives, false_positives })
}

} // verus!
