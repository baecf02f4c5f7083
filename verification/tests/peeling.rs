use amq_filters::peeling::{peel, Slots};
use amq_filters::table::{fingerprint_of, place_cell, reverse_plan};

fn slots(h0: usize, h1: usize, h2: usize) -> Slots {
    Slots { h0, h1, h2 }
}

#[test]
fn peel_of_nothing_is_complete() {
    let none: Vec<Slots> = Vec::new();
    let (complete, order) = peel(&none, 9);
    assert!(complete);
    assert!(order.is_empty());
}

#[test]
fn peel_follows_the_queue() {
    // Key 0 alone owns slot 0, key 2 alone owns slot 8; slot 3 is shared by
    // the keys 0 and 1, slot 6 by all three.
    let keys = vec![slots(0, 3, 6), slots(1, 3, 6), slots(2, 4, 6)];
    // Slots with one key at the start: 0, 1, 2, 4, in rising order.
    let (complete, order) = peel(&keys, 9);
    assert!(complete);
    assert_eq!(order, vec![(0, 0), (1, 1), (2, 2)]);
}

#[test]
fn peel_frees_slots_for_other_keys() {
    // Key 1 shares every slot: it can only be peeled once key 0 and key 2
    // are gone.
    let keys = vec![slots(0, 3, 6), slots(1, 3, 7), slots(1, 4, 7)];
    // Singletons at the start: 0, 4, 6. Key 0 goes at slot 0, which leaves
    // key 1 alone at slot 3; key 2 goes at slot 4, which leaves key 1 alone
    // at the slots 1 and 7 as well; key 1 goes where it is looked at first.
    let (complete, order) = peel(&keys, 9);
    assert!(complete);
    assert_eq!(order, vec![(0, 0), (2, 4), (1, 3)]);
}

#[test]
fn peel_stops_at_a_core() {
    let keys = vec![slots(0, 3, 6), slots(0, 3, 6)];
    let (complete, order) = peel(&keys, 9);
    assert!(!complete);
    assert!(order.is_empty());
    // The key that is not in the core is peeled all the same.
    let keys = vec![slots(0, 3, 6), slots(1, 4, 7), slots(0, 3, 6)];
    let (complete, order) = peel(&keys, 9);
    assert!(!complete);
    assert_eq!(order, vec![(1, 1)]);
}

#[test]
fn peel_order_frees_each_slot() {
    let mut keys: Vec<Slots> = Vec::new();
    for k in 0..200usize {
        keys.push(slots(
            (k * 7919) % 100,
            100 + (k * 104_729) % 100,
            200 + (k * 1_299_709 + k * k) % 100,
        ));
    }
    let (complete, order) = peel(&keys, 300);
    assert_eq!(complete, order.len() == keys.len());
    for t in 0..order.len() {
        let (key, slot) = order[t];
        let s = keys[key];
        assert!(s.h0 == slot || s.h1 == slot || s.h2 == slot);
        for u in t + 1..order.len() {
            let later = keys[order[u].0];
            assert!(later.h0 != slot && later.h1 != slot && later.h2 != slot);
        }
    }
}

#[test]
fn reverse_plan_lists_digests_last_peeled_first() {
    let order = vec![(0usize, 3usize), (2, 4), (1, 5)];
    let digests: Vec<u64> = vec![100, 200, 300];
    assert_eq!(
        reverse_plan(&order, &digests),
        vec![(200u64, 5usize), (300, 4), (100, 3)]
    );
}

#[test]
fn fingerprint_is_the_top_seven_bits() {
    assert_eq!(fingerprint_of(0), 0);
    assert_eq!(fingerprint_of(u64::MAX), 127);
    assert_eq!(fingerprint_of(0xfe00_0000_0000_0000), 127);
    assert_eq!(fingerprint_of(0x0200_0000_0000_0000), 1);
    assert_eq!(fingerprint_of(0x01ff_ffff_ffff_ffff), 0);
    assert_eq!(fingerprint_of(0xaa00_0000_0000_0000), 0x55);
}

#[test]
fn place_cell_makes_the_three_cells_xor_to_the_fingerprint() {
    let mut cells: Vec<u8> = vec![9, 17, 33, 65, 5];
    place_cell(&mut cells, slots(0, 2, 4), 0x7f, 2);
    assert_eq!(cells, vec![9, 17, 0x7f ^ 9 ^ 5, 65, 5]);
    assert_eq!(cells[0] ^ cells[2] ^ cells[4], 0x7f);
    place_cell(&mut cells, slots(1, 2, 3), 0x11, 1);
    assert_eq!(cells[1] ^ cells[2] ^ cells[3], 0x11);
    assert_eq!(cells[0] ^ cells[2] ^ cells[4], 0x7f);
}
