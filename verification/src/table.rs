//! The table of fingerprints shared by the Xor and the Binary Fuse filter:
//! how a peeled key is placed in it, and why the three cells of every placed
//! key XOR to its fingerprint afterwards.

use crate::peeling::{all_slots_wf, covers, is_peeling, Slots};
use vstd::prelude::*;

verus! {

/// The XOR of the three cells of a key.
pub open spec fn xor3(cells: Seq<u8>, s: Slots) -> u8 {
    cells[s.h0 as int] ^ cells[s.h1 as int] ^ cells[s.h2 as int]
}

/// The table after a key with slots `s` and fingerprint `fp` has been placed
/// at `slot`: the cell is cleared and then set to the XOR of the fingerprint
/// and the key's three cells.
pub open spec fn place(cells: Seq<u8>, s: Slots, fp: u8, slot: int) -> Seq<u8> {
    let cleared = cells.update(slot, 0u8);
    cells.update(slot, fp ^ cleared[s.h0 as int] ^ cleared[s.h1 as int] ^ cleared[s.h2 as int])
}

/// After a key has been placed at one of its slots, its three cells XOR to
/// its fingerprint.
pub proof fn lemma_place_holds(cells: Seq<u8>, s: Slots, fp: u8, slot: int)
    requires
        s.wf(cells.len() as int),
        s.has(slot),
    ensures
        xor3(place(cells, s, fp, slot), s) == fp,
{
    let a = cells[s.h0 as int];
    let b = cells[s.h1 as int];
    let c = cells[s.h2 as int];
    if slot == s.h0 {
        assert(((fp ^ 0u8 ^ b ^ c) ^ b ^ c) == fp) by (bit_vector);
    } else if slot == s.h1 {
        assert((a ^ (fp ^ a ^ 0u8 ^ c) ^ c) == fp) by (bit_vector);
    } else {
        assert((a ^ b ^ (fp ^ a ^ b ^ 0u8)) == fp) by (bit_vector);
    }
}

/// Places one key in the table.
pub fn place_cell(cells: &mut Vec<u8>, s: Slots, fp: u8, slot: usize)
    requires
        s.wf(old(cells)@.len() as int),
        s.has(slot as int),
    ensures
        final(cells)@ == place(old(cells)@, s, fp, slot as int),
{
    cells[slot] = 0;
    let value: u8 = fp ^ cells[s.h0] ^ cells[s.h1] ^ cells[s.h2];
    cells[slot] = value;
}

/// The plan of assignment that belongs to a peeling: the keys in reverse
/// order of peeling, each by its digest, with the slot at which it was
/// peeled.
pub open spec fn plan_of(order: Seq<(usize, usize)>, digests: Seq<u64>) -> Seq<(u64, usize)> {
    Seq::new(
        order.len(),
        |t: int| (digests[order[order.len() - 1 - t].0 as int], order[order.len() - 1 - t].1),
    )
}

/// Computes `plan_of`.
pub fn reverse_plan(order: &Vec<(usize, usize)>, digests: &Vec<u64>) -> (plan: Vec<(u64, usize)>)
    requires
        forall|t: int| 0 <= t < order@.len() ==> (#[trigger] order@[t]).0 < digests@.len(),
    ensures
        plan@ == plan_of(order@, digests@),
{
    let mut plan: Vec<(u64, usize)> = Vec::new();
    let len = order.len();
    let mut t: usize = 0;
    while t < len
        invariant
            len == order@.len(),
            t <= len,
            plan@.len() == t,
            forall|t: int| 0 <= t < order@.len() ==> (#[trigger] order@[t]).0 < digests@.len(),
            forall|u: int| 0 <= u < t ==> #[trigger] plan@[u] == plan_of(order@, digests@)[u],
        decreases len - t,
    {
        let entry = order[len - 1 - t];
        plan.push((digests[entry.0], entry.1));
        t += 1;
    }
    plan
}

/// The fingerprint of a key with digest `d`: the upper seven bits of the
/// digest, stored in a byte whose top bit is zero.
pub open spec fn fingerprint_spec(d: u64) -> u8 {
    ((d >> 57) & 0x7f) as u8
}

/// Computes `fingerprint_spec`.
pub fn fingerprint_of(d: u64) -> (fp: u8)
    ensures
        fp == fingerprint_spec(d),
        fp < 128,
{
    let top: u64 = (d >> 57) & 0x7f;
    assert(top < 128) by (bit_vector)
        requires
            top == (d >> 57) & 0x7f,
    ;
    top as u8
}

/// `plan` lists keys by digest, each with one of its slots, in an order in
/// which they can be assigned: no key owns the slot of a key that comes
/// after it.
pub open spec fn is_plan(
    plan: Seq<(u64, usize)>,
    slots_of: spec_fn(u64) -> Slots,
    capacity: int,
) -> bool {
    &&& forall|t: int|
        0 <= t < plan.len() ==> {
            &&& slots_of((#[trigger] plan[t]).0).wf(capacity)
            &&& slots_of(plan[t].0).has(plan[t].1 as int)
        }
    &&& forall|t: int, u: int|
        0 <= t < u < plan.len() ==> !slots_of((#[trigger] plan[t]).0).has(
            (#[trigger] plan[u]).1 as int,
        )
}

/// Whether the key with digest `d` occurs in `plan`.
pub open spec fn plan_covers(plan: Seq<(u64, usize)>, d: u64) -> bool {
    exists|t: int| 0 <= t < plan.len() && (#[trigger] plan[t]).0 == d
}

/// The table after the first `upto` keys of `plan` have been placed, one
/// after the other.
pub open spec fn assigned(
    cells: Seq<u8>,
    plan: Seq<(u64, usize)>,
    slots_of: spec_fn(u64) -> Slots,
    upto: nat,
) -> Seq<u8>
    decreases upto,
{
    if upto == 0 {
        cells
    } else {
        let d = plan[upto - 1].0;
        place(
            assigned(cells, plan, slots_of, (upto - 1) as nat),
            slots_of(d),
            fingerprint_spec(d),
            plan[upto - 1].1 as int,
        )
    }
}

/// The XOR invariant: once the keys of a plan have been placed, the three
/// cells of each of them XOR to its fingerprint.
pub proof fn lemma_assigned_holds(
    cells: Seq<u8>,
    plan: Seq<(u64, usize)>,
    slots_of: spec_fn(u64) -> Slots,
    upto: nat,
)
    requires
        is_plan(plan, slots_of, cells.len() as int),
        upto <= plan.len(),
    ensures
        assigned(cells, plan, slots_of, upto).len() == cells.len(),
        forall|t: int|
            0 <= t < upto ==> xor3(
                assigned(cells, plan, slots_of, upto),
                slots_of((#[trigger] plan[t]).0),
            ) == fingerprint_spec(plan[t].0),
    decreases upto,
{
    if upto > 0 {
        let before = assigned(cells, plan, slots_of, (upto - 1) as nat);
        let after = assigned(cells, plan, slots_of, upto);
        let d = plan[upto - 1].0;
        let slot = plan[upto - 1].1 as int;
        lemma_assigned_holds(cells, plan, slots_of, (upto - 1) as nat);
        assert forall|t: int| 0 <= t < upto implies xor3(after, slots_of((#[trigger] plan[t]).0))
            == fingerprint_spec(plan[t].0) by {
            if t == upto - 1 {
                lemma_place_holds(before, slots_of(d), fingerprint_spec(d), slot);
            }
        }
    }
}

/// The plan that belongs to a peeling is a plan, and covers the keys that
/// the peeling covers.
pub proof fn lemma_plan_of_peeling(
    order: Seq<(usize, usize)>,
    digests: Seq<u64>,
    slots: Seq<Slots>,
    slots_of: spec_fn(u64) -> Slots,
    capacity: int,
)
    requires
        is_peeling(slots, order),
        all_slots_wf(slots, capacity),
        slots.len() == digests.len(),
        forall|k: int| 0 <= k < slots.len() ==> #[trigger] slots[k] == slots_of(digests[k]),
    ensures
        is_plan(plan_of(order, digests), slots_of, capacity),
        forall|k: int|
            0 <= k < digests.len() && covers(order, k) ==> plan_covers(
                plan_of(order, digests),
                #[trigger] digests[k],
            ),
{
    let plan = plan_of(order, digests);
    let len = order.len() as int;
    assert forall|t: int| 0 <= t < plan.len() implies {
        &&& slots_of((#[trigger] plan[t]).0).wf(capacity)
        &&& slots_of(plan[t].0).has(plan[t].1 as int)
    } by {
    }
    assert forall|k: int| 0 <= k < digests.len() && covers(order, k) implies plan_covers(
        plan,
        #[trigger] digests[k],
    ) by {
        let t = choose|t: int| 0 <= t < order.len() && (#[trigger] order[t]).0 == k;
        assert(plan[len - 1 - t].0 == digests[k]);
    }
}

} // verus!
