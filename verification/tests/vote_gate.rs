use rai_consensus::ordered::{SortedMap, SortedSet};
use rai_consensus::types::{BlockHash, Root};
use rai_consensus::vote_gate::{SlotRoot, VoteGate};

fn slot(root: u64, previous: u64) -> SlotRoot {
    SlotRoot { root: Root::from(root), previous: BlockHash::from(previous) }
}

#[test]
fn draining_allows_next_epoch_and_only_cut_elections_from_closing_epoch() {
    let mut gate = VoteGate::default();
    let cut = slot(1, 2);
    gate.install_cut(1, Some(2), SortedSet::from_vec(&vec![cut]));
    assert!(gate.enter(&cut.with_epoch(1)));
    assert_eq!(gate.cut_generation(), 1);
    assert!(gate.enter(&cut.with_epoch(2)));
    assert!(!gate.enter(&slot(3, 4).with_epoch(1)));
    assert!(gate.enter(&slot(3, 4).with_epoch(2)));
    assert!(!gate.enter(&cut.with_epoch(3)));
}

#[test]
fn final_recovery_requires_exact_finalized_epoch_slot_and_hash() {
    let slot = slot(1, 2);
    let winner = BlockHash::from(3);
    let mut gate = VoteGate::default();
    gate.install_cut(1, Some(2), SortedSet::new());
    let mut finalized = SortedMap::new();
    finalized.insert(slot, winner);
    gate.set_finalized(1, finalized);

    assert!(gate.allows_final_recovery(&slot.with_epoch(1), &winner));
    assert!(!gate.allows_final_recovery(&slot.with_epoch(2), &winner));
    assert!(!gate.allows_final_recovery(&slot.with_epoch(1), &BlockHash::from(4)));
}

#[test]
fn collecting_opens_next_epoch_and_blocks_new_closing_epoch_votes() {
    let slot = slot(1, 2);
    let mut gate = VoteGate::default();
    gate.start_collecting(1, Some(2));

    assert!(!gate.enter(&slot.with_epoch(1)));
    assert!(gate.enter(&slot.with_epoch(2)));
    assert!(!gate.enter(&slot.with_epoch(3)));
}

#[test]
fn votes_in_flight_are_counted_until_they_leave() {
    let mut gate = VoteGate::default();
    assert!(gate.is_drained());
    assert!(gate.enter(&slot(1, 1).with_epoch(0)));
    assert!(gate.enter(&slot(1, 1).with_epoch(9)));
    gate.pause();
    assert!(!gate.enter(&slot(1, 1).with_epoch(0)));
    assert!(!gate.is_drained());
    assert!(!gate.leave());
    assert!(gate.leave());
    assert!(gate.is_drained());
    gate.open();
    assert!(gate.enter(&slot(1, 1).with_epoch(0)));
}

#[test]
fn recovery_ends_when_the_finalizations_are_cleared() {
    let slot = slot(1, 2);
    let winner = BlockHash::from(3);
    let mut gate = VoteGate::default();
    let mut finalized = SortedMap::new();
    finalized.insert(slot, winner);
    gate.set_finalized(1, finalized);
    assert!(!gate.allows_final_recovery(&slot.with_epoch(1), &winner));
    gate.start_collecting(1, None);
    assert!(gate.allows_final_recovery(&slot.with_epoch(1), &winner));
    gate.clear_finalized(1);
    assert!(!gate.allows_final_recovery(&slot.with_epoch(1), &winner));
}
