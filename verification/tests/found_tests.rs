use rpow_miner::found::{FoundFlag, SolutionSlot};

#[test]
fn slot_keeps_the_first_offer() {
    let mut slot = SolutionSlot::new();
    assert_eq!(slot.get(), None);
    slot.offer(7);
    slot.offer(8);
    assert_eq!(slot.get(), Some(7));
}

#[test]
fn largest_nonce_stands_for_no_solution() {
    let mut slot = SolutionSlot::new();
    slot.offer(u64::MAX);
    assert_eq!(slot.get(), None);
    slot.offer(3);
    assert_eq!(slot.get(), Some(3));
}

#[test]
fn flag_tells_of_the_first_nonce() {
    // Without difficulty every worker delivers the number at which it begins.
    let found = FoundFlag::new(&[1, 2], 0, 4, 3);
    assert!(found.read().is_none());
    assert_eq!(found.raise(2).nonce(), Some(2));
    assert_eq!(found.raise(1).nonce(), Some(2));
    assert_eq!(found.read().unwrap().nonce(), Some(2));
}
