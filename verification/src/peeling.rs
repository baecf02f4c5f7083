//! Peeling: the construction step shared by the Xor and the Binary Fuse
//! filter.
//!
//! Every key owns three distinct slots of a table. A key can be peeled when
//! one of its slots is owned by no other key that is still present; peeling
//! removes it and may free slots of other keys. The keys are peelable when
//! this can go on until none is left.

use vstd::prelude::*;
use vstd::set_lib::{lemma_int_range, lemma_set_empty_equivalency_len, set_int_range};

verus! {

/// The three slots of one key.
#[derive(Clone, Copy, Debug)]
pub struct Slots {
    pub h0: usize,
    pub h1: usize,
    pub h2: usize,
}

impl Slots {
    /// Whether `i` is one of the three slots.
    pub open spec fn has(self, i: int) -> bool {
        self.h0 == i || self.h1 == i || self.h2 == i
    }

    /// The slots lie inside a table of `capacity` cells and differ from one
    /// another.
    pub open spec fn wf(self, capacity: int) -> bool {
        &&& self.h0 < capacity
        &&& self.h1 < capacity
        &&& self.h2 < capacity
        &&& self.h0 != self.h1
        &&& self.h1 != self.h2
        &&& self.h0 != self.h2
    }
}

/// Every key's slots are well formed.
pub open spec fn all_slots_wf(slots: Seq<Slots>, capacity: int) -> bool {
    forall|k: int| 0 <= k < slots.len() ==> (#[trigger] slots[k]).wf(capacity)
}

/// `order` lists pairs of a key (by its position in `slots`) and one of its
/// slots, in the order of peeling: no key peeled later owns the slot at
/// which an earlier key was peeled.
pub open spec fn is_peeling(slots: Seq<Slots>, order: Seq<(usize, usize)>) -> bool {
    &&& forall|t: int|
        0 <= t < order.len() ==> {
            &&& (#[trigger] order[t]).0 < slots.len()
            &&& slots[order[t].0 as int].has(order[t].1 as int)
        }
    &&& forall|t: int, u: int|
        0 <= t < u < order.len() ==> !slots[(#[trigger] order[u]).0 as int].has(
            (#[trigger] order[t]).1 as int,
        )
}

/// Whether key `k` occurs in `order`.
pub open spec fn covers(order: Seq<(usize, usize)>, k: int) -> bool {
    exists|t: int| 0 <= t < order.len() && (#[trigger] order[t]).0 == k
}

/// A peeling that leaves no key behind.
pub open spec fn is_complete_peeling(slots: Seq<Slots>, order: Seq<(usize, usize)>) -> bool {
    &&& is_peeling(slots, order)
    &&& forall|k: int| 0 <= k < slots.len() ==> #[trigger] covers(order, k)
}

/// Whether the keys can be peeled down to nothing.
pub open spec fn peelable(slots: Seq<Slots>) -> bool {
    exists|order: Seq<(usize, usize)>| #[trigger] is_complete_peeling(slots, order)
}

/// No keys at all are peelable.
pub proof fn lemma_peelable_empty(slots: Seq<Slots>)
    requires
        slots.len() == 0,
    ensures
        peelable(slots),
{
    assert(is_complete_peeling(slots, Seq::<(usize, usize)>::empty()));
}

/// `perm` lists each of the numbers below `n` exactly once.
pub open spec fn is_rearrangement(perm: Seq<usize>, n: int) -> bool {
    &&& perm.len() == n
    &&& forall|t: int| 0 <= t < n ==> #[trigger] perm[t] < n
    &&& forall|t: int, u: int| 0 <= t < u < n ==> #[trigger] perm[t] != #[trigger] perm[u]
    &&& forall|k: usize| k < n ==> #[trigger] perm.contains(k)
}

/// Whether keys are peelable does not depend on the order in which they
/// are listed.
pub proof fn lemma_peelable_rearranged(slots: Seq<Slots>, perm: Seq<usize>, moved: Seq<Slots>)
    requires
        is_rearrangement(perm, slots.len() as int),
        moved.len() == slots.len(),
        slots.len() <= usize::MAX,
        forall|t: int| 0 <= t < moved.len() ==> #[trigger] moved[t] == slots[perm[t] as int],
    ensures
        peelable(moved) == peelable(slots),
{
    let n = slots.len() as int;
    if peelable(moved) {
        let given = choose|order: Seq<(usize, usize)>| #[trigger] is_complete_peeling(moved, order);
        let order = Seq::new(given.len(), |i: int| (perm[given[i].0 as int], given[i].1));
        assert forall|t: int| 0 <= t < order.len() implies {
            &&& (#[trigger] order[t]).0 < slots.len()
            &&& slots[order[t].0 as int].has(order[t].1 as int)
        } by {
        }
        assert forall|k: int| 0 <= k < slots.len() implies #[trigger] covers(order, k) by {
            assert(perm.contains(k as usize));
            let t = choose|t: int| 0 <= t < perm.len() && perm[t] == k as usize;
            assert(covers(given, t));
            let i = choose|i: int| 0 <= i < given.len() && (#[trigger] given[i]).0 == t;
            assert(order[i].0 == k);
        }
        assert(is_complete_peeling(slots, order));
    }
    if peelable(slots) {
        let given = choose|order: Seq<(usize, usize)>| #[trigger] is_complete_peeling(slots, order);
        let back = |k: usize| choose|t: int| 0 <= t < perm.len() && perm[t] == k;
        let order = Seq::new(given.len(), |i: int| (back(given[i].0) as usize, given[i].1));
        assert forall|i: int| 0 <= i < given.len() implies {
            &&& 0 <= back((#[trigger] given[i]).0) < n
            &&& perm[back(given[i].0)] == given[i].0
        } by {
            assert(perm.contains(given[i].0));
        }
        assert forall|t: int| 0 <= t < order.len() implies {
            &&& (#[trigger] order[t]).0 < moved.len()
            &&& moved[order[t].0 as int].has(order[t].1 as int)
        } by {
        }
        assert forall|t: int| 0 <= t < moved.len() implies #[trigger] covers(order, t) by {
            let k = perm[t];
            assert(covers(given, k as int));
            let i = choose|i: int| 0 <= i < given.len() && (#[trigger] given[i]).0 == k;
            assert(order[i].0 == t);
        }
        assert(is_complete_peeling(moved, order));
    }
}

/// Whether another key of `core` than `k` owns slot `i`.
pub open spec fn shared_in(slots: Seq<Slots>, core: Set<int>, k: int, i: int) -> bool {
    exists|other: int| other != k && #[trigger] core.contains(other) && slots[other].has(i)
}

/// A core: a set of keys, not empty, in which every slot of every key is
/// shared with another key of the set.
pub open spec fn is_core(slots: Seq<Slots>, core: Set<int>) -> bool {
    &&& exists|k: int| #[trigger] core.contains(k)
    &&& forall|k: int| #[trigger] core.contains(k) ==> 0 <= k < slots.len()
    &&& forall|k: int, i: int|
        core.contains(k) && slots[k].has(i) ==> #[trigger] shared_in(slots, core, k, i)
}

proof fn lemma_core_survives(
    slots: Seq<Slots>,
    core: Set<int>,
    order: Seq<(usize, usize)>,
    t: int,
)
    requires
        is_core(slots, core),
        is_complete_peeling(slots, order),
        0 <= t <= order.len(),
    ensures
        forall|u: int| 0 <= u < t ==> !core.contains((#[trigger] order[u]).0 as int),
    decreases t,
{
    if t > 0 {
        lemma_core_survives(slots, core, order, t - 1);
        let k = order[t - 1].0 as int;
        let i = order[t - 1].1 as int;
        if core.contains(k) {
            assert(shared_in(slots, core, k, i));
            let other = choose|other: int|
                other != k && #[trigger] core.contains(other) && slots[other].has(i);
            assert(covers(order, other));
        }
    }
}

/// Where the keys hold a core, they are not peelable: whichever key of the
/// core were peeled first would share each of its slots with a key that is
/// still present.
pub proof fn lemma_core_not_peelable(slots: Seq<Slots>, core: Set<int>)
    requires
        is_core(slots, core),
    ensures
        !peelable(slots),
{
    if peelable(slots) {
        let order = choose|order: Seq<(usize, usize)>| #[trigger] is_complete_peeling(slots, order);
        let k = choose|k: int| #[trigger] core.contains(k);
        assert(covers(order, k));
        let t = choose|t: int| 0 <= t < order.len() && (#[trigger] order[t]).0 == k;
        lemma_core_survives(slots, core, order, t + 1);
    }
}

/// The state of a peeling run: for every slot the list of the present keys
/// that own it, the queue of slots to look at with the position reached in
/// it, and the pairs of key and slot peeled so far.
pub struct PeelState {
    pub lists: Seq<Seq<usize>>,
    pub queue: Seq<usize>,
    pub head: int,
    pub stack: Seq<(usize, usize)>,
}

/// The lists after key `k` has been entered at its three slots.
pub open spec fn entered(lists: Seq<Seq<usize>>, s: Slots, k: usize) -> Seq<Seq<usize>> {
    let first = lists.update(s.h0 as int, lists[s.h0 as int].push(k));
    let second = first.update(s.h1 as int, first[s.h1 as int].push(k));
    second.update(s.h2 as int, second[s.h2 as int].push(k))
}

/// The lists after the first `upto` keys have been entered, in order.
pub open spec fn filled(slots: Seq<Slots>, capacity: nat, upto: nat) -> Seq<Seq<usize>>
    decreases upto,
{
    if upto == 0 {
        Seq::new(capacity, |i: int| Seq::<usize>::empty())
    } else {
        entered(
            filled(slots, capacity, (upto - 1) as nat),
            slots[upto - 1],
            (upto - 1) as usize,
        )
    }
}

/// The slots below `upto` whose list holds exactly one key, in rising order.
pub open spec fn singles(lists: Seq<Seq<usize>>, upto: nat) -> Seq<usize>
    decreases upto,
{
    if upto == 0 {
        Seq::empty()
    } else {
        let before = singles(lists, (upto - 1) as nat);
        if lists[upto - 1].len() == 1 {
            before.push((upto - 1) as usize)
        } else {
            before
        }
    }
}

/// A list without key `x`.
pub open spec fn without(list: Seq<usize>, x: usize) -> Seq<usize> {
    if list.contains(x) {
        list.remove(list.index_of(x))
    } else {
        list
    }
}

/// The state after key `x` has been taken out of the list of slot `idx`:
/// where that leaves one key in the list, the slot joins the queue.
pub open spec fn pulled(st: PeelState, idx: usize, x: usize) -> PeelState {
    let list = without(st.lists[idx as int], x);
    PeelState {
        lists: st.lists.update(idx as int, list),
        queue: if list.len() == 1 {
            st.queue.push(idx)
        } else {
            st.queue
        },
        ..st
    }
}

/// One step of a run: the slot at the head of the queue is looked at. Where
/// its list holds exactly one key, that key is peeled there and taken out of
/// the lists of its three slots.
pub open spec fn stepped(slots: Seq<Slots>, st: PeelState) -> PeelState {
    let i = st.queue[st.head];
    let next = PeelState { head: st.head + 1, ..st };
    if st.lists[i as int].len() == 1 {
        let x = st.lists[i as int][0];
        let s = slots[x as int];
        let pushed = PeelState { stack: st.stack.push((x, i)), ..next };
        pulled(pulled(pulled(pushed, s.h0, x), s.h1, x), s.h2, x)
    } else {
        next
    }
}

/// The state after at most `fuel` steps, or fewer where the queue runs out.
pub open spec fn ran(slots: Seq<Slots>, st: PeelState, fuel: nat) -> PeelState
    decreases fuel,
{
    if fuel == 0 || st.head >= st.queue.len() {
        st
    } else {
        ran(slots, stepped(slots, st), (fuel - 1) as nat)
    }
}

/// The state in which a run starts: every key is entered, and the queue
/// holds the slots with exactly one key.
pub open spec fn peel_start(slots: Seq<Slots>, capacity: nat) -> PeelState {
    let lists = filled(slots, capacity, slots.len());
    PeelState { lists, queue: singles(lists, capacity), head: 0, stack: Seq::empty() }
}

/// The pairs of key and slot in the order in which a run peels them. No run
/// takes more than `capacity + 3 * slots.len()` steps.
pub open spec fn peel_order(slots: Seq<Slots>, capacity: nat) -> Seq<(usize, usize)> {
    ran(slots, peel_start(slots, capacity), capacity + 3 * slots.len()).stack
}

/// The lists of a run as sequences.
pub open spec fn lists_view(lists: Seq<Vec<usize>>) -> Seq<Seq<usize>> {
    Seq::new(lists.len(), |i: int| lists[i]@)
}

proof fn lemma_singles_len(lists: Seq<Seq<usize>>, upto: nat)
    ensures
        singles(lists, upto).len() <= upto,
    decreases upto,
{
    if upto > 0 {
        lemma_singles_len(lists, (upto - 1) as nat);
    }
}

/// A list holds, once each, exactly the present keys that own slot `i`.
pub open spec fn list_matches(list: Seq<usize>, slots: Seq<Slots>, present: Set<int>, i: int) -> bool {
    &&& list.no_duplicates()
    &&& forall|x: usize|
        #[trigger] list.contains(x) <==> (present.contains(x as int) && slots[x as int].has(i))
}

/// Every list matches its slot.
pub open spec fn lists_match(lists: Seq<Vec<usize>>, slots: Seq<Slots>, present: Set<int>) -> bool {
    forall|i: int| 0 <= i < lists.len() ==> list_matches((#[trigger] lists[i])@, slots, present, i)
}

proof fn lemma_list_push(list: Seq<usize>, slots: Seq<Slots>, present: Set<int>, i: int, k: usize)
    requires
        list_matches(list, slots, present, i),
        !present.contains(k as int),
        slots[k as int].has(i),
    ensures
        list_matches(list.push(k), slots, present.insert(k as int), i),
{
    let longer = list.push(k);
    assert(!list.contains(k));
    assert forall|x: usize| #[trigger]
        longer.contains(x) <==> (present.insert(k as int).contains(x as int) && slots[x as int].has(
            i,
        )) by {
        if longer.contains(x) {
            let p = choose|p: int| 0 <= p < longer.len() && longer[p] == x;
            if p < list.len() {
                assert(list.contains(x));
            }
        }
        if present.insert(k as int).contains(x as int) && slots[x as int].has(i) {
            if x == k {
                assert(longer[list.len() as int] == x);
            } else {
                assert(list.contains(x));
                let p = choose|p: int| 0 <= p < list.len() && list[p] == x;
                assert(longer[p] == x);
            }
        }
    }
}

/// Appends key `x` to the list of slot `idx`.
fn attach(lists: &mut Vec<Vec<usize>>, idx: usize, x: usize)
    requires
        idx < old(lists)@.len(),
    ensures
        final(lists)@.len() == old(lists)@.len(),
        final(lists)@[idx as int]@ == old(lists)@[idx as int]@.push(x),
        forall|j: int|
            0 <= j < old(lists)@.len() && j != idx ==> #[trigger] final(lists)@[j] == old(lists)@[j],
{
    lists[idx].push(x);
}

/// Takes key `x` out of the list of slot `idx`, if it is there.
fn detach(lists: &mut Vec<Vec<usize>>, idx: usize, x: usize)
    requires
        idx < old(lists)@.len(),
        old(lists)@[idx as int]@.no_duplicates(),
    ensures
        final(lists)@.len() == old(lists)@.len(),
        final(lists)@[idx as int]@.no_duplicates(),
        forall|y: usize| #[trigger]
            final(lists)@[idx as int]@.contains(y) <==> (old(lists)@[idx as int]@.contains(y) && y
                != x),
        final(lists)@[idx as int]@ == without(old(lists)@[idx as int]@, x),
        forall|j: int|
            0 <= j < old(lists)@.len() && j != idx ==> #[trigger] final(lists)@[j] == old(lists)@[j],
{
    let ghost list = lists@[idx as int]@;
    let len = lists[idx].len();
    let mut pos: usize = 0;
    while pos < len && lists[idx][pos] != x
        invariant
            idx < lists@.len(),
            lists@ == old(lists)@,
            list == lists@[idx as int]@,
            len == list.len(),
            pos <= len,
            forall|p: int| 0 <= p < pos ==> list[p] != x,
        decreases len - pos,
    {
        pos += 1;
    }
    if pos < len {
        lists[idx].remove(pos);
        proof {
            let shorter = lists@[idx as int]@;
            assert(list.contains(x));
            assert forall|y: usize| #[trigger]
                shorter.contains(y) <==> (list.contains(y) && y != x) by {
                if shorter.contains(y) {
                    let a = choose|a: int| 0 <= a < shorter.len() && shorter[a] == y;
                    let a0 = if a < pos { a } else { a + 1 };
                }
                if list.contains(y) && y != x {
                    let a0 = choose|a0: int| 0 <= a0 < list.len() && list[a0] == y;
                    let a = if a0 < pos { a0 } else { a0 - 1 };
                    assert(shorter[a] == list[a0]);
                }
            }
        }
    }
}

/// One empty list for each of `capacity` slots.
fn empty_lists(capacity: usize) -> (lists: Vec<Vec<usize>>)
    ensures
        lists@.len() == capacity,
        forall|i: int| 0 <= i < capacity ==> (#[trigger] lists@[i])@.len() == 0,
        lists_view(lists@) == Seq::new(capacity as nat, |i: int| Seq::<usize>::empty()),
{
    let mut lists: Vec<Vec<usize>> = Vec::new();
    let mut i: usize = 0;
    while i < capacity
        invariant
            i <= capacity,
            lists@.len() == i,
            forall|j: int| 0 <= j < i ==> (#[trigger] lists@[j])@.len() == 0,
        decreases capacity - i,
    {
        lists.push(Vec::new());
        i += 1;
    }
    assert forall|i: int| 0 <= i < capacity implies #[trigger] lists_view(lists@)[i]
        == Seq::<usize>::empty() by {
    }
    lists
}

/// Enters every key into the lists of its three slots.
fn fill_lists(slots: &Vec<Slots>, capacity: usize) -> (lists: Vec<Vec<usize>>)
    requires
        all_slots_wf(slots@, capacity as int),
    ensures
        lists@.len() == capacity,
        lists_match(lists@, slots@, set_int_range(0, slots@.len() as int)),
        lists_view(lists@) == filled(slots@, capacity as nat, slots@.len()),
{
    let mut lists = empty_lists(capacity);
    let mut k: usize = 0;
    while k < slots.len()
        invariant
            k <= slots@.len(),
            all_slots_wf(slots@, capacity as int),
            lists@.len() == capacity,
            lists_match(lists@, slots@, set_int_range(0, k as int)),
            lists_view(lists@) == filled(slots@, capacity as nat, k as nat),
        decreases slots@.len() - k,
    {
        let s = slots[k];
        let ghost present = set_int_range(0, k as int);
        let ghost l0 = lists@;
        attach(&mut lists, s.h0, k);
        attach(&mut lists, s.h1, k);
        attach(&mut lists, s.h2, k);
        proof {
            assert forall|i: int| 0 <= i < lists@.len() implies list_matches(
                (#[trigger] lists@[i])@,
                slots@,
                set_int_range(0, k + 1),
                i,
            ) by {
                if s.has(i) {
                    lemma_list_push(l0[i]@, slots@, present, i, k);
                }
            }
        }
        k += 1;
    }
    lists
}

/// Whether slot `i` waits in the queue at or behind `head`.
pub open spec fn pending(queue: Seq<usize>, head: int, i: int) -> bool {
    exists|q: int| head <= q < queue.len() && #[trigger] queue[q] == i
}

/// The slots whose list holds exactly one key, in rising order.
fn singletons(lists: &Vec<Vec<usize>>) -> (queue: Vec<usize>)
    ensures
        forall|q: int| 0 <= q < queue@.len() ==> #[trigger] queue@[q] < lists@.len(),
        forall|i: int|
            0 <= i < lists@.len() && (#[trigger] lists@[i])@.len() == 1 ==> pending(queue@, 0, i),
        queue@ == singles(lists_view(lists@), lists@.len()),
{
    let mut queue: Vec<usize> = Vec::new();
    let mut i: usize = 0;
    while i < lists.len()
        invariant
            i <= lists@.len(),
            forall|q: int| 0 <= q < queue@.len() ==> #[trigger] queue@[q] < lists@.len(),
            forall|j: int|
                0 <= j < i && (#[trigger] lists@[j])@.len() == 1 ==> pending(queue@, 0, j),
            queue@ == singles(lists_view(lists@), i as nat),
        decreases lists@.len() - i,
    {
        let ghost before = queue@;
        if lists[i].len() == 1 {
            queue.push(i);
            assert(queue@[before.len() as int] == i);
        }
        proof {
            assert forall|j: int| 0 <= j < i && (#[trigger] lists@[j])@.len() == 1 implies pending(
                queue@,
                0,
                j,
            ) by {
                let q = choose|q: int| 0 <= q < before.len() && #[trigger] before[q] == j;
                assert(queue@[q] == j);
            }
        }
        i += 1;
    }
    queue
}

proof fn lemma_stuck_is_core(lists: Seq<Vec<usize>>, slots: Seq<Slots>, present: Set<int>)
    requires
        all_slots_wf(slots, lists.len() as int),
        lists_match(lists, slots, present),
        forall|k: int| #[trigger] present.contains(k) ==> 0 <= k < slots.len(),
        slots.len() <= usize::MAX,
        exists|k: int| #[trigger] present.contains(k),
        forall|i: int| 0 <= i < lists.len() ==> (#[trigger] lists[i])@.len() != 1,
    ensures
        is_core(slots, present),
{
    assert forall|k: int, i: int| present.contains(k) && slots[k].has(i) implies #[trigger] shared_in(
        slots,
        present,
        k,
        i,
    ) by {
        let list = lists[i]@;
        let x = k as usize;
        assert(list.contains(x));
        let p = choose|p: int| 0 <= p < list.len() && list[p] == x;
        let q = if p == 0 { 1int } else { 0int };
        let other = list[q];
        assert(list.contains(other));
    }
}

/// Takes key `x` out of the list of slot `idx`. Where that leaves one key in
/// the list, the slot joins the queue.
fn pull(lists: &mut Vec<Vec<usize>>, queue: &mut Vec<usize>, idx: usize, x: usize)
    requires
        idx < old(lists)@.len(),
        old(lists)@[idx as int]@.no_duplicates(),
    ensures
        final(lists)@.len() == old(lists)@.len(),
        final(lists)@[idx as int]@.no_duplicates(),
        forall|y: usize| #[trigger]
            final(lists)@[idx as int]@.contains(y) <==> (old(lists)@[idx as int]@.contains(y) && y
                != x),
        final(lists)@[idx as int]@ == without(old(lists)@[idx as int]@, x),
        forall|j: int|
            0 <= j < old(lists)@.len() && j != idx ==> #[trigger] final(lists)@[j] == old(lists)@[j],
        final(queue)@ == if final(lists)@[idx as int]@.len() == 1 {
            old(queue)@.push(idx)
        } else {
            old(queue)@
        },
{
    detach(lists, idx, x);
    if lists[idx].len() == 1 {
        queue.push(idx);
    }
}

/// The state that the variables of a run stand for.
pub open spec fn state_of(
    lists: Seq<Vec<usize>>,
    queue: Seq<usize>,
    head: int,
    stack: Seq<(usize, usize)>,
) -> PeelState {
    PeelState { lists: lists_view(lists), queue, head, stack }
}

proof fn lemma_pulled(
    before: Seq<Vec<usize>>,
    after: Seq<Vec<usize>>,
    queue: Seq<usize>,
    later: Seq<usize>,
    head: int,
    stack: Seq<(usize, usize)>,
    idx: usize,
    x: usize,
)
    requires
        idx < before.len(),
        after.len() == before.len(),
        after[idx as int]@ == without(before[idx as int]@, x),
        forall|j: int| 0 <= j < before.len() && j != idx ==> #[trigger] after[j] == before[j],
        later == if after[idx as int]@.len() == 1 {
            queue.push(idx)
        } else {
            queue
        },
    ensures
        state_of(after, later, head, stack) == pulled(state_of(before, queue, head, stack), idx, x),
{
    assert(lists_view(after) =~= lists_view(before).update(
        idx as int,
        without(lists_view(before)[idx as int], x),
    ));
}

/// Peels the keys as far as they can be peeled.
///
/// Returns whether every key was peeled, which is the case exactly when the
/// keys are peelable, and the pairs of key and slot in the order of peeling.
pub fn peel(slots: &Vec<Slots>, capacity: usize) -> (res: (bool, Vec<(usize, usize)>))
    requires
        all_slots_wf(slots@, capacity as int),
    ensures
        res.0 == peelable(slots@),
        res.0 == (res.1@.len() == slots@.len()),
        res.1@ == peel_order(slots@, capacity as nat),
        is_peeling(slots@, res.1@),
        res.0 ==> is_complete_peeling(slots@, res.1@),
{
    let n = slots.len();
    let mut lists = fill_lists(slots, capacity);
    let mut queue = singletons(&lists);
    let mut stack: Vec<(usize, usize)> = Vec::new();
    let mut head: usize = 0;
    let ghost mut present = set_int_range(0, n as int);
    let ghost fuel = (capacity + 3 * n) as nat;
    let ghost start = peel_start(slots@, capacity as nat);
    proof {
        lemma_int_range(0, n as int);
        lemma_singles_len(lists_view(lists@), capacity as nat);
    }
    while head < queue.len()
        invariant
            n == slots@.len(),
            all_slots_wf(slots@, capacity as int),
            lists@.len() == capacity,
            lists_match(lists@, slots@, present),
            present.finite(),
            forall|k: int| #[trigger] present.contains(k) ==> 0 <= k < n,
            present.len() + stack@.len() == n,
            is_peeling(slots@, stack@),
            forall|t: int, k: int|
                0 <= t < stack@.len() && #[trigger] present.contains(k) ==> !slots@[k].has(
                    (#[trigger] stack@[t]).1 as int,
                ),
            forall|k: int| 0 <= k < n && !present.contains(k) ==> #[trigger] covers(stack@, k),
            head <= queue@.len(),
            forall|q: int| 0 <= q < queue@.len() ==> #[trigger] queue@[q] < capacity,
            forall|i: int|
                0 <= i < capacity && (#[trigger] lists@[i])@.len() == 1 ==> pending(
                    queue@,
                    head as int,
                    i,
                ),
            fuel == capacity + 3 * n,
            queue@.len() <= capacity + 3 * stack@.len(),
            ran(slots@, start, fuel) == ran(
                slots@,
                state_of(lists@, queue@, head as int, stack@),
                (fuel - head) as nat,
            ),
        decreases present.len(), queue@.len() - head,
    {
        let i = queue[head];
        let ghost old_head = head;
        let ghost old_queue = queue@;
        let ghost l0 = lists@;
        let ghost old_stack = stack@;
        head += 1;
        if lists[i].len() == 1 {
            let x = lists[i][0];
            proof {
                assert(l0[i as int]@.contains(x));
            }
            let s = slots[x];
            stack.push((x, i));
            pull(&mut lists, &mut queue, s.h0, x);
            let ghost l1 = lists@;
            let ghost q1 = queue@;
            pull(&mut lists, &mut queue, s.h1, x);
            let ghost l2 = lists@;
            let ghost q2 = queue@;
            pull(&mut lists, &mut queue, s.h2, x);
            proof {
                let l3 = lists@;
                let q3 = queue@;
                let left = present.remove(x as int);
                // The variables stand for the state after one step.
                lemma_pulled(l0, l1, old_queue, q1, head as int, stack@, s.h0, x);
                lemma_pulled(l1, l2, q1, q2, head as int, stack@, s.h1, x);
                lemma_pulled(l2, l3, q2, q3, head as int, stack@, s.h2, x);
                // The stack is still a peeling, and its slots stay free.
                assert(stack@[old_stack.len() as int] == (x, i));
                assert forall|t: int| 0 <= t < stack@.len() implies {
                    &&& (#[trigger] stack@[t]).0 < slots@.len()
                    &&& slots@[stack@[t].0 as int].has(stack@[t].1 as int)
                } by {
                }
                assert forall|t: int, k: int|
                    0 <= t < stack@.len() && #[trigger] left.contains(k) implies !slots@[k].has(
                    (#[trigger] stack@[t]).1 as int,
                ) by {
                    if t >= old_stack.len() && slots@[k].has(i as int) {
                        assert(l0[i as int]@.contains(k as usize));
                    }
                }
                assert forall|k: int| 0 <= k < n && !left.contains(k) implies #[trigger] covers(
                    stack@,
                    k,
                ) by {
                    if k != x {
                        assert(covers(old_stack, k));
                        let t = choose|t: int|
                            0 <= t < old_stack.len() && (#[trigger] old_stack[t]).0 == k;
                        assert(stack@[t].0 == k);
                    }
                }
                // Every list of one key waits in the queue.
                assert forall|j: int|
                    0 <= j < capacity && (#[trigger] l3[j])@.len() == 1 implies pending(
                    q3,
                    head as int,
                    j,
                ) by {
                    if j == s.h0 {
                        assert(q3[old_queue.len() as int] == j);
                    } else if j == s.h1 {
                        assert(q3[q1.len() as int] == j);
                    } else if j == s.h2 {
                        assert(q3[q2.len() as int] == j);
                    } else {
                        let q = choose|q: int|
                            old_head <= q < old_queue.len() && #[trigger] old_queue[q] == j;
                        assert(q3[q] == j);
                    }
                }
                present = left;
            }
        }
    }
    let complete = stack.len() == n;
    proof {
        lemma_set_empty_equivalency_len(present);
        if complete {
            assert(is_complete_peeling(slots@, stack@));
        } else {
            lemma_stuck_is_core(lists@, slots@, present);
            lemma_core_not_peelable(slots@, present);
        }
    }
    (complete, stack)
}

} // verus!
