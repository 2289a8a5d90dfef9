use rai_consensus::active_elections::{
    merge_outcomes, RaiActiveElections, RaiElectionInsertError, RaiElectionOutcome, RaiElectionStatus, RaiVoteStateSnapshot,
};
use rai_consensus::committee::{RaiCommittee, RaiCommitteeDeriver, RaiCommitteeSet};
use rai_consensus::ordered::SortedSet;
use rai_consensus::types::{
    Account, Amount, BlockHash, PublicKey, RaiElectionId, RaiElectionValue, RaiSlot, RaiVote, RaiVoteScope,
    VoteError,
};

#[test]
fn routes_vote_by_election_id() {
    let mut elections = RaiActiveElections::new();
    let election_id = slot_election(1);
    let other_election_id = slot_election(2);
    let value = RaiElectionValue::Block(BlockHash::from(3));

    elections.insert(election_id).unwrap();

    let key = PublicKey::from(1);
    let vote = RaiVote::new_first(key, other_election_id, value);
    let committees = committee([(key, Amount::raw(100))]);

    let result = elections.apply_vote(&vote, &committees);

    assert_eq!(result, Err(VoteError::Indeterminate));
    assert!(elections.election(&other_election_id).is_none());
    assert_eq!(elections.election(&election_id).unwrap().tally(&value), 0);
}

#[test]
fn applies_vote_to_matching_election() {
    let mut elections = RaiActiveElections::new();
    let election_id = slot_election(1);
    let value = RaiElectionValue::Block(BlockHash::from(3));
    let key = PublicKey::from(1);
    let committees = committee([(key, Amount::raw(100))]);

    elections.insert(election_id).unwrap();
    let vote = RaiVote::new_first(key, election_id, value);

    assert_eq!(elections.apply_vote(&vote, &committees), Ok(()));

    let election = elections.election(&election_id).unwrap();
    assert_eq!(election.tally(&value), 1);
    assert_eq!(election.winner(), Some(&value));
}

#[test]
fn discards_epoch_slots_outside_cut() {
    let mut elections = RaiActiveElections::new();
    let included_slot = RaiSlot::new(Account::from(1), 1);
    let excluded_slot = RaiSlot::new(Account::from(2), 1);
    let included = RaiElectionId::Slot {
        slot: included_slot,
        epoch: 1,
    };
    let excluded = RaiElectionId::Slot {
        slot: excluded_slot,
        epoch: 1,
    };
    let previous_epoch = RaiElectionId::Slot {
        slot: excluded_slot,
        epoch: 0,
    };
    let close_cut = RaiElectionId::CloseCut {
        epoch: 1,
        attempt: 0,
    };
    let cut = SortedSet::from_vec(&vec![included_slot]);

    for election_id in [
        included,
        excluded,
        previous_epoch,
        close_cut,
    ] {
        elections.insert(election_id).unwrap();
    }

    assert!(elections.discard_slots_outside_cut(1, &cut));
    assert!(elections.contains(&included));
    assert!(!elections.contains(&excluded));
    assert!(elections.contains(&previous_epoch));
    assert!(elections.contains(&close_cut));
    assert!(!elections.discard_slots_outside_cut(1, &cut));
}

#[test]
fn final_vote_confirms_election_when_it_reaches_quorum() {
    let mut elections = RaiActiveElections::new();
    let election_id = slot_election(1);
    let value = RaiElectionValue::Block(BlockHash::from(3));
    let key = PublicKey::from(1);
    let committees = committee([(key, Amount::raw(100))]);

    elections.insert(election_id).unwrap();
    let vote = RaiVote::new_final(key, election_id, value);

    assert_eq!(elections.apply_vote(&vote, &committees), Ok(()));

    let election = elections.election(&election_id).unwrap();
    assert_eq!(election.status(), RaiElectionStatus::Confirmed);
    assert_eq!(election.confirmed_value(), Some(&value));
    assert_eq!(election.final_tally(&value), 1);
}

#[test]
fn notarization_certificate_finishes_slot_election() {
    let mut elections = RaiActiveElections::new();
    let election_id = slot_election(1);
    let value = RaiElectionValue::Block(BlockHash::from(3));
    let key = PublicKey::from(1);
    let committees = committee([(key, Amount::raw(100))]);

    elections.insert(election_id).unwrap();
    assert_eq!(
        elections.apply_vote(
            &RaiVote::new_notarization(key, election_id, value),
            &committees
        ),
        Ok(())
    );

    let election = elections.election(&election_id).unwrap();
    assert_eq!(
        election.merged_outcome(&committees),
        Some(RaiElectionOutcome::Notarized(value))
    );
    assert_eq!(election.status(), RaiElectionStatus::Confirmed);
    assert_eq!(election.confirmed_value(), Some(&value));
}

#[test]
fn timeout_notarization_certificate_finishes_as_timeout() {
    let mut elections = RaiActiveElections::new();
    let election_id = slot_election(1);
    let key = PublicKey::from(1);
    let committees = committee([(key, Amount::raw(100))]);

    elections.insert(election_id).unwrap();
    assert_eq!(
        elections.apply_vote(
            &RaiVote::new_notarization(key, election_id, RaiElectionValue::Timeout),
            &committees
        ),
        Ok(())
    );

    let election = elections.election(&election_id).unwrap();
    assert_eq!(
        election.merged_outcome(&committees),
        Some(RaiElectionOutcome::Timeout)
    );
    assert_eq!(election.status(), RaiElectionStatus::Confirmed);
    assert_eq!(election.confirmed_value(), Some(&RaiElectionValue::Timeout));
}

#[test]
fn same_value_fast_and_final_local_results_merge_to_final() {
    let mut elections = RaiActiveElections::new();
    let election_id = slot_election(1);
    let first_key = PublicKey::from(1);
    let second_key = PublicKey::from(2);
    let value = RaiElectionValue::Block(BlockHash::from(3));
    let committees = RaiCommitteeSet::new(vec![
        raw_committee([(first_key, Amount::raw(100))]),
        raw_committee([(second_key, Amount::raw(100))]),
    ]);

    elections.insert(election_id).unwrap();
    assert_eq!(
        elections.apply_vote(
            &RaiVote::new_first(first_key, election_id, value),
            &committees
        ),
        Ok(())
    );
    assert_eq!(
        elections.apply_vote(
            &RaiVote::new_final(second_key, election_id, value),
            &committees
        ),
        Ok(())
    );

    let election = elections.election(&election_id).unwrap();
    assert_eq!(
        election.merged_outcome(&committees),
        Some(RaiElectionOutcome::Final(value))
    );
    assert_eq!(election.confirmed_value(), Some(&value));
}

#[test]
fn conflicting_non_timeout_local_results_merge_to_timeout() {
    let mut elections = RaiActiveElections::new();
    let election_id = slot_election(1);
    let first_key = PublicKey::from(1);
    let second_key = PublicKey::from(2);
    let first_value = RaiElectionValue::Block(BlockHash::from(3));
    let second_value = RaiElectionValue::Block(BlockHash::from(4));
    let committees = RaiCommitteeSet::new(vec![
        raw_committee([(first_key, Amount::raw(100))]),
        raw_committee([(second_key, Amount::raw(100))]),
    ]);

    elections.insert(election_id).unwrap();
    assert_eq!(
        elections.apply_vote(
            &RaiVote::new_first(first_key, election_id, first_value),
            &committees
        ),
        Ok(())
    );
    assert_eq!(
        elections.apply_vote(
            &RaiVote::new_first(second_key, election_id, second_value),
            &committees
        ),
        Ok(())
    );

    let election = elections.election(&election_id).unwrap();
    assert_eq!(
        election.merged_outcome(&committees),
        Some(RaiElectionOutcome::Timeout)
    );
    assert_eq!(election.confirmed_value(), Some(&RaiElectionValue::Timeout));
}

#[test]
fn non_timeout_close_notarization_converges_without_certifying_value() {
    let mut elections = RaiActiveElections::new();
    let election_id = RaiElectionId::CloseCut {
        epoch: 1,
        attempt: 0,
    };
    let value = RaiElectionValue::CloseCutHash(BlockHash::from(3));
    let key = PublicKey::from(1);
    let committees = committee([(key, Amount::raw(100))]);

    elections.insert(election_id).unwrap();
    assert_eq!(
        elections.apply_vote(
            &RaiVote::new_notarization(key, election_id, value),
            &committees
        ),
        Ok(())
    );

    let election = elections.election(&election_id).unwrap();
    assert_eq!(
        election.merged_outcome(&committees),
        Some(RaiElectionOutcome::Notarized(value))
    );
    assert_eq!(election.status(), RaiElectionStatus::Confirmed);
    assert_eq!(election.confirmed_value(), None);
}

#[test]
fn rejects_values_that_do_not_belong_to_the_election_kind() {
    let mut elections = RaiActiveElections::new();
    let election_id = RaiElectionId::CloseCut {
        epoch: 1,
        attempt: 0,
    };
    let key = PublicKey::from(1);
    let committees = committee([(key, Amount::raw(100))]);

    elections.insert(election_id).unwrap();
    let vote = RaiVote::new_first(key,
        election_id,
        RaiElectionValue::CloseRecordHash(BlockHash::from(3)),
    );

    assert_eq!(
        elections.apply_vote(&vote, &committees),
        Err(VoteError::Invalid)
    );
}

#[test]
fn rejects_final_timeout_vote() {
    let mut elections = RaiActiveElections::new();
    let election_id = slot_election(1);
    let key = PublicKey::from(1);
    let committees = committee([(key, Amount::raw(100))]);

    elections.insert(election_id).unwrap();
    let vote = RaiVote::new_final(key, election_id, RaiElectionValue::Timeout);

    assert_eq!(
        elections.apply_vote(&vote, &committees),
        Err(VoteError::Invalid)
    );
}

#[test]
fn rejects_final_vote_for_close_election() {
    let mut elections = RaiActiveElections::new();
    let election_id = RaiElectionId::CloseCut {
        epoch: 1,
        attempt: 0,
    };
    let key = PublicKey::from(1);
    let committees = committee([(key, Amount::raw(100))]);

    elections.insert(election_id).unwrap();
    let vote = RaiVote::new_final(key,
        election_id,
        RaiElectionValue::CloseCutHash(BlockHash::from(3)),
    );

    assert_eq!(
        elections.apply_vote(&vote, &committees),
        Err(VoteError::Invalid)
    );
}

#[test]
fn duplicate_same_kind_vote_from_same_rep_is_replay() {
    let mut elections = RaiActiveElections::new();
    let election_id = slot_election(1);
    let value = RaiElectionValue::Block(BlockHash::from(3));
    let key = PublicKey::from(1);
    let committees = committee([(key, Amount::raw(100))]);

    elections.insert(election_id).unwrap();
    let first = RaiVote::new_first(key, election_id, value);
    let second = RaiVote::new_first(key, election_id, value);

    assert_eq!(elections.apply_vote(&first, &committees), Ok(()));
    assert_eq!(
        elections.apply_vote(&second, &committees),
        Err(VoteError::Replay)
    );
}

#[test]
fn conflicting_first_vote_from_same_rep_is_invalid() {
    let mut elections = RaiActiveElections::new();
    let election_id = slot_election(1);
    let first_value = RaiElectionValue::Block(BlockHash::from(3));
    let conflicting_value = RaiElectionValue::Block(BlockHash::from(4));
    let key = PublicKey::from(1);
    let committees = committee([(key, Amount::raw(100))]);

    elections.insert(election_id).unwrap();
    assert_eq!(
        elections.apply_vote(
            &RaiVote::new_first(key, election_id, first_value),
            &committees
        ),
        Ok(())
    );
    assert_eq!(
        elections.apply_vote(
            &RaiVote::new_first(key, election_id, conflicting_value),
            &committees
        ),
        Err(VoteError::Invalid)
    );

    let election = elections.election(&election_id).unwrap();
    assert_eq!(election.tally(&first_value), 1);
    assert_eq!(election.tally(&conflicting_value), 0);
    assert_eq!(
        election.vote_state_snapshots(),
        vec![RaiVoteStateSnapshot {
            voter: key,
            committee_index: 0,
            first: Some(first_value),
            notarized: Vec::new(),
            final_vote: None,
        }]
    );
}

#[test]
fn conflicting_first_vote_after_notarization_is_invalid() {
    let mut elections = RaiActiveElections::new();
    let election_id = slot_election(1);
    let notarized_value = RaiElectionValue::Block(BlockHash::from(3));
    let conflicting_value = RaiElectionValue::Block(BlockHash::from(4));
    let key = PublicKey::from(1);
    let committees = committee([(key, Amount::raw(100))]);

    elections.insert(election_id).unwrap();
    assert_eq!(
        elections.apply_vote(
            &RaiVote::new_notarization(key, election_id, notarized_value),
            &committees
        ),
        Ok(())
    );
    assert_eq!(
        elections.apply_vote(
            &RaiVote::new_first(key, election_id, conflicting_value),
            &committees
        ),
        Err(VoteError::Invalid)
    );

    let election = elections.election(&election_id).unwrap();
    assert_eq!(election.tally(&conflicting_value), 0);
}

#[test]
fn first_vote_can_arrive_after_notarization_without_erasing_it() {
    let mut elections = RaiActiveElections::new();
    let election_id = slot_election(1);
    let value = RaiElectionValue::Block(BlockHash::from(3));
    let key = PublicKey::from(1);
    let committees = committee([(key, Amount::raw(100))]);

    elections.insert(election_id).unwrap();
    assert_eq!(
        elections.apply_vote(
            &RaiVote::new_notarization(key, election_id, value),
            &committees
        ),
        Ok(())
    );
    assert_eq!(
        elections.apply_vote(
            &RaiVote::new_first(key, election_id, value),
            &committees
        ),
        Ok(())
    );

    let election = elections.election(&election_id).unwrap();
    assert_eq!(
        election.vote_state_snapshots(),
        vec![RaiVoteStateSnapshot {
            voter: key,
            committee_index: 0,
            first: Some(value),
            notarized: vec![value],
            final_vote: None,
        }]
    );
    assert_eq!(election.tally(&value), 1);
}

#[test]
fn final_vote_does_not_overwrite_first_vote() {
    let mut elections = RaiActiveElections::new();
    let election_id = slot_election(1);
    let value = RaiElectionValue::Block(BlockHash::from(3));
    let key = PublicKey::from(1);
    let committees = committee([(key, Amount::raw(100))]);

    elections.insert(election_id).unwrap();
    assert_eq!(
        elections.apply_vote(
            &RaiVote::new_first(key, election_id, value),
            &committees
        ),
        Ok(())
    );
    assert_eq!(
        elections.apply_vote(
            &RaiVote::new_final(key, election_id, value),
            &committees
        ),
        Ok(())
    );

    let election = elections.election(&election_id).unwrap();
    assert_eq!(election.tally(&value), 1);
    assert_eq!(election.final_tally(&value), 1);
    assert_eq!(
        election.vote_state_snapshots(),
        vec![RaiVoteStateSnapshot {
            voter: key,
            committee_index: 0,
            first: Some(value),
            notarized: Vec::new(),
            final_vote: Some(value),
        }]
    );
}

#[test]
fn final_vote_rejects_conflicting_prior_support() {
    let mut elections = RaiActiveElections::new();
    let election_id = slot_election(1);
    let first_value = RaiElectionValue::Block(BlockHash::from(3));
    let final_value = RaiElectionValue::Block(BlockHash::from(4));
    let key = PublicKey::from(1);
    let committees = committee([(key, Amount::raw(100))]);

    elections.insert(election_id).unwrap();
    assert_eq!(
        elections.apply_vote(
            &RaiVote::new_first(key, election_id, first_value),
            &committees
        ),
        Ok(())
    );
    assert_eq!(
        elections.apply_vote(
            &RaiVote::new_final(key, election_id, final_value),
            &committees
        ),
        Err(VoteError::Invalid)
    );

    let election = elections.election(&election_id).unwrap();
    assert_eq!(election.tally(&first_value), 1);
    assert_eq!(election.final_tally(&final_value), 0);
    assert_eq!(
        election.vote_state_snapshots(),
        vec![RaiVoteStateSnapshot {
            voter: key,
            committee_index: 0,
            first: Some(first_value),
            notarized: Vec::new(),
            final_vote: None,
        }]
    );
}

#[test]
fn final_vote_locks_out_later_first_or_notarization_votes() {
    let mut elections = RaiActiveElections::new();
    let election_id = slot_election(1);
    let value = RaiElectionValue::Block(BlockHash::from(3));
    let key = PublicKey::from(1);
    let committees = committee([(key, Amount::raw(100))]);

    elections.insert(election_id).unwrap();
    assert_eq!(
        elections.apply_vote(
            &RaiVote::new_final(key, election_id, value),
            &committees
        ),
        Ok(())
    );
    assert_eq!(
        elections.apply_vote(
            &RaiVote::new_first(key, election_id, value),
            &committees
        ),
        Err(VoteError::Invalid)
    );
    assert_eq!(
        elections.apply_vote(
            &RaiVote::new_notarization(key, election_id, value),
            &committees
        ),
        Err(VoteError::Invalid)
    );

    let election = elections.election(&election_id).unwrap();
    assert_eq!(election.tally(&value), 0);
    assert_eq!(election.final_tally(&value), 1);
}

#[test]
fn unscoped_vote_creates_independent_state_for_each_member_committee() {
    let mut elections = RaiActiveElections::new();
    let election_id = slot_election(1);
    let key = PublicKey::from(1);
    let value = RaiElectionValue::Block(BlockHash::from(3));
    let first_committee = raw_committee([
        (key, Amount::raw(100)),
        (PublicKey::from(2), Amount::raw(100)),
    ]);
    let second_committee = raw_committee([
        (key, Amount::raw(100)),
        (PublicKey::from(3), Amount::raw(100)),
    ]);
    let committees = RaiCommitteeSet::new(vec![first_committee, second_committee]);

    elections.insert(election_id).unwrap();
    assert_eq!(
        elections.apply_vote(
            &RaiVote::new_first(key, election_id, value),
            &committees
        ),
        Ok(())
    );

    let election = elections.election(&election_id).unwrap();
    assert_eq!(
        election.vote_state_snapshots(),
        vec![
            RaiVoteStateSnapshot {
                voter: key,
                committee_index: 0,
                first: Some(value),
                notarized: Vec::new(),
                final_vote: None,
            },
            RaiVoteStateSnapshot {
                voter: key,
                committee_index: 1,
                first: Some(value),
                notarized: Vec::new(),
                final_vote: None,
            },
        ]
    );
}

#[test]
fn scoped_vote_applies_only_to_named_committee() {
    let mut elections = RaiActiveElections::new();
    let election_id = slot_election(1);
    let key = PublicKey::from(1);
    let value = RaiElectionValue::Block(BlockHash::from(3));
    let first_committee = raw_committee([
        (key, Amount::raw(100)),
        (PublicKey::from(2), Amount::raw(100)),
    ]);
    let second_committee = raw_committee([
        (key, Amount::raw(100)),
        (PublicKey::from(3), Amount::raw(100)),
    ]);
    let committees = RaiCommitteeSet::new(vec![first_committee, second_committee]);

    elections.insert(election_id).unwrap();
    assert_eq!(
        elections.apply_vote(
            &in_committee(1, RaiVote::new_first(key, election_id, value)),
            &committees
        ),
        Ok(())
    );

    let election = elections.election(&election_id).unwrap();
    assert_eq!(
        election.vote_state_snapshots(),
        vec![RaiVoteStateSnapshot {
            voter: key,
            committee_index: 1,
            first: Some(value),
            notarized: Vec::new(),
            final_vote: None,
        }]
    );
    assert_eq!(
        election.merged_outcome(&committees),
        None,
        "committee 0 has no local outcome"
    );
}

#[test]
fn returns_unfinished_slots_for_epoch() {
    let mut elections = RaiActiveElections::new();
    let active = slot_election(1);
    let confirmed = slot_election(2);
    let other_epoch = RaiElectionId::Slot {
        slot: RaiSlot::new(Account::from(1), 3),
        epoch: 2,
    };
    let key = PublicKey::from(1);
    let value = RaiElectionValue::Block(BlockHash::from(3));
    let committees = committee([(key, Amount::raw(100))]);

    elections.insert(active).unwrap();
    elections.insert(confirmed).unwrap();
    elections.insert(other_epoch).unwrap();
    elections
        .apply_vote(&RaiVote::new_final(key, confirmed, value), &committees)
        .unwrap();

    assert_eq!(
        elections.unfinished_slots(1),
        vec![RaiSlot::new(Account::from(1), 1)]
    );
}

#[test]
fn exposes_fast_value_when_each_committee_has_fast_quorum() {
    let mut elections = RaiActiveElections::new();
    let election_id = RaiElectionId::CloseCut {
        epoch: 1,
        attempt: 0,
    };
    let key = PublicKey::from(1);
    let value = RaiElectionValue::CloseCutHash(BlockHash::from(3));
    let committees = committee([(key, Amount::raw(100))]);

    elections.insert(election_id).unwrap();
    elections
        .apply_vote(
            &RaiVote::new_first(key, election_id, value),
            &committees,
        )
        .unwrap();

    let election = elections.election(&election_id).unwrap();
    assert_eq!(election.fast_value(&committees), Some(value));
    assert_eq!(election.confirmed_value(), Some(&value));
}

#[test]
fn timeout_is_not_ready_after_single_member_fast_vote() {
    let mut elections = RaiActiveElections::new();
    let election_id = RaiElectionId::CloseCut {
        epoch: 1,
        attempt: 0,
    };
    let key = PublicKey::from(1);
    let value = RaiElectionValue::CloseCutHash(BlockHash::from(3));
    let committees = committee([(key, Amount::raw(100))]);

    elections.insert(election_id).unwrap();
    elections
        .apply_vote(
            &RaiVote::new_first(key, election_id, value),
            &committees,
        )
        .unwrap();

    let election = elections.election(&election_id).unwrap();
    assert!(
        election
            .timeout_ready_committee_indexes(&key, &committees)
            .is_empty()
    );
}

#[test]
fn timeout_is_ready_when_split_first_votes_block_fast_quorum() {
    let mut elections = RaiActiveElections::new();
    let election_id = RaiElectionId::CloseCut {
        epoch: 1,
        attempt: 0,
    };
    let keys: Vec<_> = (1..=5u64).map(PublicKey::from).collect();
    let first_value = RaiElectionValue::CloseCutHash(BlockHash::from(3));
    let second_value = RaiElectionValue::CloseCutHash(BlockHash::from(4));
    let committees = committee([
        (keys[0], Amount::raw(100)),
        (keys[1], Amount::raw(100)),
        (keys[2], Amount::raw(100)),
        (keys[3], Amount::raw(100)),
        (keys[4], Amount::raw(100)),
    ]);

    elections.insert(election_id).unwrap();
    for key in keys.iter().copied().take(3) {
        elections
            .apply_vote(
                &RaiVote::new_first(key, election_id, first_value),
                &committees,
            )
            .unwrap();
    }
    for key in keys.iter().copied().skip(3) {
        elections
            .apply_vote(
                &RaiVote::new_first(key, election_id, second_value),
                &committees,
            )
            .unwrap();
    }

    let election = elections.election(&election_id).unwrap();
    assert_eq!(
        election.timeout_ready_committee_indexes(&keys[0], &committees),
        vec![0]
    );
}

fn slot_election(account_height: u64) -> RaiElectionId {
    RaiElectionId::Slot {
        slot: RaiSlot::new(Account::from(1), account_height),
        epoch: 1,
    }
}

fn committee<const N: usize>(values: [(PublicKey, Amount); N]) -> RaiCommitteeSet {
    RaiCommitteeSet::single(raw_committee(values))
}

fn raw_committee<const N: usize>(
    values: [(PublicKey, Amount); N],
) -> RaiCommittee {
    RaiCommitteeDeriver::new().derive_committee(&values.to_vec())
}

fn in_committee(index: u8, vote: RaiVote) -> RaiVote {
    RaiVote { scope: RaiVoteScope::Committee(index), ..vote }
}

#[test]
fn repeated_and_late_insertions_are_refused() {
    let mut elections = RaiActiveElections::new();
    assert_eq!(elections.insert(slot_election(1)), Ok(()));
    assert_eq!(elections.insert(slot_election(1)), Err(RaiElectionInsertError::Duplicate));
    elections.stop();
    assert!(elections.is_stopped());
    assert_eq!(elections.insert(slot_election(2)), Err(RaiElectionInsertError::Stopped));
    assert_eq!(elections.len(), 1);
}

#[test]
fn snapshot_restores_every_election() {
    let mut elections = RaiActiveElections::new();
    let voter = PublicKey::from(1);
    let committees = committee([(voter, Amount::raw(100)), (PublicKey::from(2), Amount::raw(100))]);
    let value = RaiElectionValue::Block(BlockHash::from(3));
    elections.insert(slot_election(1)).unwrap();
    elections.insert(slot_election(2)).unwrap();
    elections.apply_vote(&RaiVote::new_first(voter, slot_election(1), value), &committees).unwrap();

    let stored = elections.snapshot();
    let restored = RaiActiveElections::from_snapshot(&stored);

    assert_eq!(restored.snapshot(), stored);
    assert_eq!(restored.election(&slot_election(1)).unwrap().tally(&value), 1);
    assert_eq!(restored.ids(), vec![slot_election(1), slot_election(2)]);
}

#[test]
fn strangers_cannot_vote() {
    let mut elections = RaiActiveElections::new();
    let committees = committee([(PublicKey::from(1), Amount::raw(100))]);
    elections.insert(slot_election(1)).unwrap();
    let vote = RaiVote::new_first(PublicKey::from(9), slot_election(1), RaiElectionValue::Block(BlockHash::from(3)));
    assert!(elections.apply_vote(&vote, &committees).is_err());
    assert!(elections.election(&slot_election(1)).unwrap().voters().is_empty());
}

#[test]
fn merged_outcomes_follow_the_weaker_committee() {
    let (first_key, second_key) = (PublicKey::from(1), PublicKey::from(2));
    let committees = RaiCommitteeSet::new(vec![
        raw_committee([(first_key, Amount::raw(100))]),
        raw_committee([(second_key, Amount::raw(100))]),
    ]);
    let (a, b) = (RaiElectionValue::Block(BlockHash::from(3)), RaiElectionValue::Block(BlockHash::from(4)));
    let merged = |first: RaiVote, second: RaiVote| {
        let mut elections = RaiActiveElections::new();
        elections.insert(slot_election(1)).unwrap();
        elections.apply_vote(&first, &committees).unwrap();
        elections.apply_vote(&second, &committees).unwrap();
        elections.election(&slot_election(1)).unwrap().merged_outcome(&committees)
    };
    let id = slot_election(1);
    assert_eq!(
        merged(RaiVote::new_notarization(first_key, id, a), RaiVote::new_final(second_key, id, a)),
        Some(RaiElectionOutcome::Notarized(a))
    );
    assert_eq!(
        merged(RaiVote::new_final(first_key, id, a), RaiVote::new_final(second_key, id, b)),
        Some(RaiElectionOutcome::SafetyFault)
    );
    assert_eq!(
        merged(RaiVote::new_first(first_key, id, a), RaiVote::new_first(second_key, id, a)),
        Some(RaiElectionOutcome::Fast(a))
    );
}

#[test]
fn two_outcomes_merge_by_one_rule() {
    let (a, b) = (RaiElectionValue::Block(BlockHash::from(3)), RaiElectionValue::Block(BlockHash::from(4)));
    let (timeout, fault) = (RaiElectionOutcome::Timeout, RaiElectionOutcome::SafetyFault);
    let (noted, fast, last) =
        (RaiElectionOutcome::Notarized(a), RaiElectionOutcome::Fast(a), RaiElectionOutcome::Final(a));
    for outcome in [timeout, fault, noted, fast, last] {
        assert_eq!(merge_outcomes(outcome, outcome), outcome);
        assert_eq!(merge_outcomes(fault, outcome), fault);
    }
    assert_eq!(merge_outcomes(timeout, last), timeout);
    assert_eq!(merge_outcomes(fast, noted), noted);
    assert_eq!(merge_outcomes(fast, last), last);
    assert_eq!(merge_outcomes(last, RaiElectionOutcome::Fast(b)), timeout);
    assert_eq!(merge_outcomes(last, RaiElectionOutcome::Final(b)), fault);
}
