use rai_consensus::active_elections::{
    RaiActiveElectionsSnapshot, RaiElectionSnapshot, RaiElectionStatus, RaiTallySnapshot, RaiVoteStateSnapshot,
};
use rai_consensus::close_state::{RaiCloseRecord, RaiCloseState};
use rai_consensus::ordered::SortedSet;
use rai_consensus::types::{Account, BlockHash, PublicKey, RaiElectionId, RaiElectionValue, RaiSlot, RaiVote};
use rai_consensus::vote_safety::{
    RaiVoteSafety, RaiVoteSafetyEntrySnapshot, RaiVoteSafetyError, RaiVoteSafetySnapshot,
};

#[test]
fn conflicting_later_same_slot_vote_is_unsafe_until_certified_release() {
    let key = PublicKey::from(1);
    let slot = slot(1);
    let first_block = BlockHash::from(3);
    let retry_block = BlockHash::from(4);
    let mut safety = RaiVoteSafety::new();
    safety.record_vote(&slot_vote(key, slot, 0, first_block));

    assert_eq!(
        safety.validate(
            &RaiCloseState::<RaiCloseRecord>::new(),
            &slot_vote(key, slot, 1, retry_block)
        ),
        Err(RaiVoteSafetyError::ConflictingUnreleasedSlotVote)
    );
    assert_eq!(
        safety.validate(
            &RaiCloseState::<RaiCloseRecord>::new(),
            &slot_vote(key, slot, 1, first_block)
        ),
        Ok(())
    );

    let mut close_state = RaiCloseState::<RaiCloseRecord>::new();
    close_state.start_closing(0).unwrap();
    close_state.install_cut(0, SortedSet::new()).unwrap();
    close_state
        .record_cut_drain(0, &Vec::new())
        .unwrap();
    close_state.record_current_close_record_value(0).unwrap();
    close_state.advance_epoch(0).unwrap();

    assert_eq!(
        safety.validate(&close_state, &slot_vote(key, slot, 1, retry_block)),
        Ok(())
    );
}

#[test]
fn safety_history_is_scoped_by_voter_and_slot() {
    let key = PublicKey::from(1);
    let other_key = PublicKey::from(2);
    let first_slot = slot(1);
    let other_slot = slot(2);
    let mut safety = RaiVoteSafety::new();
    safety.record_vote(&slot_vote(key, first_slot, 0, BlockHash::from(3)));

    assert_eq!(
        safety.validate(
            &RaiCloseState::<RaiCloseRecord>::new(),
            &slot_vote(other_key, first_slot, 1, BlockHash::from(4))
        ),
        Ok(())
    );
    assert_eq!(
        safety.validate(
            &RaiCloseState::<RaiCloseRecord>::new(),
            &slot_vote(key, other_slot, 1, BlockHash::from(4))
        ),
        Ok(())
    );
}

#[test]
fn snapshot_roundtrip_canonicalizes_duplicate_history() {
    let key = PublicKey::from(1);
    let snapshot = RaiVoteSafetySnapshot {
        entries: vec![
            RaiVoteSafetyEntrySnapshot {
                voter: key,
                slot: slot(1),
                epoch: 0,
                blocks: vec![BlockHash::from(5), BlockHash::from(4), BlockHash::from(5)],
            },
            RaiVoteSafetyEntrySnapshot {
                voter: key,
                slot: slot(1),
                epoch: 0,
                blocks: vec![BlockHash::from(4)],
            },
        ],
    };

    assert_eq!(
        RaiVoteSafety::from_snapshot(&snapshot).snapshot(),
        RaiVoteSafetySnapshot {
            entries: vec![RaiVoteSafetyEntrySnapshot {
                voter: key,
                slot: slot(1),
                epoch: 0,
                blocks: vec![BlockHash::from(4), BlockHash::from(5)],
            }],
        }
    );
}

#[test]
fn active_election_merge_imports_all_non_timeout_slot_block_votes() {
    let key = PublicKey::from(1);
    let slot = slot(1);
    let mut safety = RaiVoteSafety::new();
    safety.merge_active_elections(&RaiActiveElectionsSnapshot {
        elections: vec![RaiElectionSnapshot {
            id: RaiElectionId::Slot { slot, epoch: 0 },
            status: RaiElectionStatus::Active,
            vote_states: vec![RaiVoteStateSnapshot {
                voter: key,
                committee_index: 0,
                first: Some(RaiElectionValue::Block(BlockHash::from(3))),
                notarized: vec![
                    RaiElectionValue::Block(BlockHash::from(4)),
                    RaiElectionValue::Timeout,
                ],
                final_vote: Some(RaiElectionValue::Block(BlockHash::from(5))),
            }],
            tallies: vec![RaiTallySnapshot {
                value: RaiElectionValue::Timeout,
                per_committee: vec![1],
            }],
            notarization_tallies: Vec::new(),
            final_tallies: Vec::new(),
            winner: None,
            confirmed_value: None,
        }],
    });

    assert_eq!(
        safety.snapshot(),
        RaiVoteSafetySnapshot {
            entries: vec![RaiVoteSafetyEntrySnapshot {
                voter: key,
                slot,
                epoch: 0,
                blocks: vec![BlockHash::from(3), BlockHash::from(4), BlockHash::from(5)],
            }],
        }
    );
    assert_eq!(
        safety.validate(
            &RaiCloseState::<RaiCloseRecord>::new(),
            &slot_vote(key, slot, 1, BlockHash::from(6))
        ),
        Err(RaiVoteSafetyError::ConflictingUnreleasedSlotVote)
    );
}

fn slot(account: u64) -> RaiSlot {
    RaiSlot::new(Account::from(account), 1)
}

fn slot_vote(key: PublicKey, slot: RaiSlot, epoch: u64, block: BlockHash) -> RaiVote {
    RaiVote::new_first(
        key,
        RaiElectionId::Slot { slot, epoch },
        RaiElectionValue::Block(block),
    )
}

#[test]
fn entry_of_a_vote_lists_what_its_voter_supported() {
    let key = PublicKey::from(1);
    let mut safety = RaiVoteSafety::new();
    let vote = slot_vote(key, slot(1), 0, BlockHash::from(7));
    assert_eq!(safety.snapshot_entry_for_vote(&vote), None);
    safety.record_vote(&vote);
    safety.record_vote(&slot_vote(key, slot(1), 0, BlockHash::from(6)));
    let entry = safety.snapshot_entry_for_vote(&vote).unwrap();
    assert_eq!(entry.blocks, vec![BlockHash::from(6), BlockHash::from(7)]);
}
