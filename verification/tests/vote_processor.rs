use rai_consensus::active_elections::RaiActiveElections;
use rai_consensus::admissibility::{
    AccountFrontiers, ClosedEntries, RaiAdmissibilityError, RaiAdmissibilityValidator, RaiDefaultAdmissibilityValidator,
};
use rai_consensus::close_state::{RaiCloseAttempt, RaiCloseRecord, RaiCloseState, RaiEpochPhase};
use rai_consensus::close_values::{CloseRecordEntries, RaiClosedSlotState};
use rai_consensus::committee::{
    Fixing, Membership, RaiCommittee, RaiCommitteeDeriver, RaiCommitteeProvider, RaiEpoch, RaiRepWeightSnapshot,
    RepWeightRaiCommitteeProvider, SnapshotWeights,
};
use rai_consensus::frontier_record::{close_frontiers, RaiFrontiers};
use rai_consensus::ordered::{Duplicate, SortedSet};
use rai_consensus::types::{
    Account, Amount, BlockHash, PublicKey, RaiElectionId, RaiElectionValue, RaiSlot, RaiVote, VoteError,
};
use rai_consensus::vote_processor::RaiVoteProcessor;
use rai_consensus::vote_safety::{RaiVoteSafety, RaiVoteSafetyEntrySnapshot, RaiVoteSafetySnapshot};

#[test]
fn processes_vote_for_active_election() {
    let mut fixture = Fixture::new();
    fixture.processor.active_elections.insert(fixture.election_id).unwrap();
    let value = RaiElectionValue::Block(BlockHash::from(3));
    let vote = RaiVote::new_first(fixture.rep_key, fixture.election_id, value);

    assert_eq!(fixture.process(&vote), Ok(()));

    let election = fixture.processor.active_elections.election(&fixture.election_id)
        .unwrap();
    assert_eq!(election.tally(&value), 1);
}

#[test]
fn unknown_close_election_is_indeterminate() {
    let mut fixture = Fixture::new();
    let vote = RaiVote::new_first(fixture.rep_key,
        RaiElectionId::CloseCut {
            epoch: 0,
            attempt: 0,
        },
        RaiElectionValue::Timeout,
    );

    assert_eq!(
        fixture.process(&vote),
        Err(VoteError::Indeterminate)
    );
}

#[test]
fn close_cut_timeout_vote_raises_current_closing_attempt() {
    let mut fixture = Fixture::new();
    fixture.processor.close_state.start_closing(0)
        .unwrap();
    let election_id = RaiElectionId::CloseCut {
        epoch: 0,
        attempt: 0,
    };

    assert_eq!(
        fixture.process(&RaiVote::new_notarization(fixture.rep_key,
            election_id,
            RaiElectionValue::Timeout,
        )),
        Ok(())
    );

    assert!(
        fixture.processor.close_state.close_attempt_started(0, 0)
    );
    let election = fixture.processor.active_elections.election(&election_id).unwrap();
    let timeout_tally = election
        .snapshot()
        .notarization_tallies
        .into_iter()
        .find(|tally| tally.value == RaiElectionValue::Timeout)
        .unwrap();
    assert_eq!(timeout_tally.per_committee, vec![1]);
}

#[test]
fn non_committee_close_cut_timeout_does_not_start_attempt() {
    let mut fixture = Fixture::new();
    fixture.processor.close_state.start_closing(0)
        .unwrap();
    let outsider_key = PublicKey::from(2);
    let election_id = RaiElectionId::CloseCut {
        epoch: 0,
        attempt: 0,
    };

    assert_eq!(
        fixture.process(&RaiVote::new_notarization(outsider_key,
            election_id,
            RaiElectionValue::Timeout,
        )),
        Err(VoteError::Indeterminate)
    );

    assert!(
        !fixture.processor.close_state.close_attempt_started(0, 0)
    );
    assert!(fixture.processor.active_elections.election(&election_id).is_none());
}

#[test]
fn close_record_timeout_vote_raises_current_drained_record_attempt() {
    let mut fixture = Fixture::new();
    {
        let close_state = &mut fixture.processor.close_state;
        close_state.start_closing(0).unwrap();
        close_state.install_cut(0, SortedSet::new()).unwrap();
        close_state
            .record_cut_drain(0, &Vec::new())
            .unwrap();
    }
    let election_id = RaiElectionId::CloseRecord {
        epoch: 0,
        attempt: 0,
    };

    assert_eq!(
        fixture.process(&RaiVote::new_notarization(fixture.rep_key,
            election_id,
            RaiElectionValue::Timeout,
        )),
        Ok(())
    );

    assert!(
        fixture.processor.close_state.close_record_attempt_started(0, 0)
    );
    let election = fixture.processor.active_elections.election(&election_id).unwrap();
    let timeout_tally = election
        .snapshot()
        .notarization_tallies
        .into_iter()
        .find(|tally| tally.value == RaiElectionValue::Timeout)
        .unwrap();
    assert_eq!(timeout_tally.per_committee, vec![1]);
}

#[test]
fn admissible_slot_vote_starts_missing_election() {
    let mut fixture = Fixture::new();
    let value = RaiElectionValue::Block(BlockHash::from(3));
    let vote = RaiVote::new_first(fixture.rep_key, fixture.election_id, value);

    assert_eq!(fixture.process(&vote), Ok(()));

    let election = fixture.processor.active_elections.election(&fixture.election_id)
        .unwrap();
    assert_eq!(election.tally(&value), 1);
}

#[test]
fn invalid_signature_is_rejected_before_routing() {
    let mut fixture = Fixture::new();
    fixture.processor.active_elections.insert(fixture.election_id).unwrap();
    let mut vote = RaiVote::new_first(fixture.rep_key,
        fixture.election_id,
        RaiElectionValue::Block(BlockHash::from(3)),
    );
    vote.value = RaiElectionValue::Block(BlockHash::from(4));

    assert_eq!(fixture.process_forged(&vote), Err(VoteError::Invalid));
}

#[test]
fn rejects_slot_block_when_admissibility_validator_rejects_it() {
    let mut fixture = Fixture::with_admissibility(RejectAllSlotBlocks);
    fixture.processor.active_elections.insert(fixture.election_id).unwrap();
    let value = RaiElectionValue::Block(BlockHash::from(3));
    let vote = RaiVote::new_first(fixture.rep_key, fixture.election_id, value);

    assert_eq!(fixture.process(&vote), Err(VoteError::Invalid));

    let election = fixture.processor.active_elections.election(&fixture.election_id)
        .unwrap();
    assert_eq!(election.tally(&value), 0);
}

#[test]
fn f_plus_one_votes_in_relevant_committee_make_slot_visible() {
    let first_rep = PublicKey::from(1);
    let second_rep = PublicKey::from(2);
    let third_rep = PublicKey::from(3);
    let fourth_rep = PublicKey::from(4);
    let committee = committee_from_keys([first_rep, second_rep, third_rep, fourth_rep]);
    assert_eq!(committee.thresholds().max_faulty + 1, 2);
    let mut fixture = Fixture::with_committee(first_rep, committee);
    fixture.processor.active_elections.insert(fixture.election_id).unwrap();
    let value = RaiElectionValue::Block(BlockHash::from(3));
    let slot = RaiSlot::new(Account::from(1), 1);

    assert_eq!(
        fixture.process(&RaiVote::new_first(first_rep,
            fixture.election_id,
            value
        )),
        Ok(())
    );
    assert!(!fixture.processor.close_state.is_visible(1, &slot));

    assert_eq!(
        fixture.process(&RaiVote::new_first(second_rep,
            fixture.election_id,
            value
        )),
        Ok(())
    );
    assert!(fixture.processor.close_state.is_visible(1, &slot));
}

#[test]
fn f_plus_one_votes_in_every_relevant_committee_make_slot_visible() {
    let first_rep = PublicKey::from(1);
    let second_rep = PublicKey::from(2);
    let fifth_rep = PublicKey::from(5);
    let first_committee = committee_from_keys([
        first_rep,
        second_rep,
        PublicKey::from(3),
        PublicKey::from(4),
    ]);
    let second_committee = committee_from_keys([
        first_rep,
        fifth_rep,
        PublicKey::from(6),
        PublicKey::from(7),
    ]);
    let live = weights_of(&first_committee);
    let provider = TwoCommitteeProvider { genesis: first_committee, closed_zero: second_committee };
    let processor = RaiVoteProcessor::with_committee_provider(RaiActiveElections::new(), RaiCloseState::new(), provider);
    let mut fixture = Fixture::around(processor, first_rep, live);
    let slot = RaiSlot::new(Account::from(1), 1);
    let election_id = RaiElectionId::Slot { slot, epoch: 2 };
    fixture.processor.active_elections.insert(election_id).unwrap();
    let value = RaiElectionValue::Block(BlockHash::from(3));

    assert_eq!(
        fixture.process(&RaiVote::new_first(first_rep,
            election_id,
            value
        )),
        Ok(())
    );
    assert_eq!(
        fixture.process(&RaiVote::new_first(second_rep,
            election_id,
            value
        )),
        Ok(())
    );
    assert!(!fixture.processor.close_state.is_visible(2, &slot));

    assert_eq!(
        fixture.process(&RaiVote::new_first(fifth_rep, election_id, value)),
        Ok(())
    );
    assert!(fixture.processor.close_state.is_visible(2, &slot));
}

#[test]
fn slot_vote_is_accepted_passively_while_closing_before_cut() {
    let mut fixture = Fixture::new();
    let slot = RaiSlot::new(Account::from(1), 1);
    let election_id = RaiElectionId::Slot { slot, epoch: 0 };
    fixture.processor.close_state.start_closing(0)
        .unwrap();
    let value = RaiElectionValue::Block(BlockHash::from(3));

    assert_eq!(
        fixture.process(&RaiVote::new_first(fixture.rep_key,
            election_id,
            value
        )),
        Ok(())
    );
    assert!(fixture.processor.active_elections.contains(&election_id));
    let election = fixture.processor.active_elections.election(&election_id).unwrap();
    assert_eq!(election.tally(&value), 1);
}

#[test]
fn slot_vote_is_ignored_after_slot_is_excluded_from_cut() {
    let mut fixture = Fixture::new();
    let included_slot = RaiSlot::new(Account::from(1), 1);
    let excluded_slot = RaiSlot::new(Account::from(2), 1);
    let excluded_election_id = RaiElectionId::Slot {
        slot: excluded_slot,
        epoch: 0,
    };
    fixture.processor.close_state.start_closing(0)
        .unwrap();

    fixture.processor.close_state.install_cut(0, SortedSet::from_vec(&vec![included_slot]))
        .unwrap();
    let value = RaiElectionValue::Block(BlockHash::from(3));

    assert_eq!(
        fixture.process(&RaiVote::new_first(fixture.rep_key,
            excluded_election_id,
            value
        )),
        Err(VoteError::Ignored)
    );
    assert!(!fixture.processor.active_elections.contains(&excluded_election_id));
}

#[test]
fn rejects_conflicting_later_same_slot_vote_without_release() {
    let mut fixture = Fixture::new();
    let slot = RaiSlot::new(Account::from(1), 1);
    let first_election = RaiElectionId::Slot { slot, epoch: 0 };
    let retry_election = RaiElectionId::Slot { slot, epoch: 1 };
    fixture.processor.active_elections.insert(first_election).unwrap();
    fixture.processor.active_elections.insert(retry_election).unwrap();
    let first_value = RaiElectionValue::Block(BlockHash::from(3));
    let retry_value = RaiElectionValue::Block(BlockHash::from(4));

    assert_eq!(
        fixture.process(&RaiVote::new_first(fixture.rep_key,
            first_election,
            first_value
        )),
        Ok(())
    );
    assert_eq!(
        fixture.process(&RaiVote::new_first(fixture.rep_key,
            retry_election,
            retry_value
        )),
        Err(VoteError::Invalid)
    );

    let retry = fixture.processor.active_elections.election(&retry_election).unwrap();
    assert_eq!(retry.tally(&retry_value), 0);
}

#[test]
fn rejects_conflicting_later_same_slot_vote_from_persisted_safety_history() {
    let rep_key = PublicKey::from(1);
    let committee = committee([(rep_key, Amount::raw(100))]);
    let slot = RaiSlot::new(Account::from(1), 1);
    let retry_election = RaiElectionId::Slot { slot, epoch: 1 };
    let mut active_elections = RaiActiveElections::new();
    active_elections.insert(retry_election).unwrap();
    let vote_safety = RaiVoteSafety::from_snapshot(&RaiVoteSafetySnapshot {
        entries: vec![RaiVoteSafetyEntrySnapshot {
            voter: rep_key,
            slot,
            epoch: 0,
            blocks: vec![BlockHash::from(3)],
        }],
    });
    let processor = RaiVoteProcessor::with_committee_provider_admissibility_and_vote_safety(
        active_elections,
        RaiCloseState::new(),
        StaticCommitteeProvider { committee: committee.duplicate() },
        RaiDefaultAdmissibilityValidator::default(),
        vote_safety,
    );
    let mut fixture = Fixture::around(processor, rep_key, weights_of(&committee));
    let retry_value = RaiElectionValue::Block(BlockHash::from(4));

    assert_eq!(
        fixture.process(&RaiVote::new_first(rep_key, retry_election, retry_value)),
        Err(VoteError::Invalid)
    );

    let retry = fixture.processor.active_elections.election(&retry_election).unwrap();
    assert_eq!(retry.tally(&retry_value), 0);
}

#[test]
fn rejects_vote_when_lagged_committee_history_is_missing() {
    let rep_key = PublicKey::from(1);
    let committee = committee([(rep_key, Amount::raw(100))]);
    let election_id = RaiElectionId::Slot { slot: RaiSlot::new(Account::from(1), 1), epoch: 2 };
    let mut active_elections = RaiActiveElections::new();
    active_elections.insert(election_id).unwrap();
    let processor = RaiVoteProcessor::with_committee_provider(
        active_elections,
        RaiCloseState::new(),
        GenesisOnlyCommitteeProvider { committee: committee.duplicate() },
    );
    let mut fixture = Fixture::around(processor, rep_key, weights_of(&committee));
    let value = RaiElectionValue::Block(BlockHash::from(4));

    assert_eq!(fixture.process(&RaiVote::new_first(rep_key, election_id, value)), Err(VoteError::Indeterminate));

    let election = fixture.processor.active_elections.election(&election_id).unwrap();
    assert_eq!(election.tally(&value), 0);
}

#[test]
fn allows_later_same_slot_vote_for_same_block() {
    let mut fixture = Fixture::new();
    let slot = RaiSlot::new(Account::from(1), 1);
    let first_election = RaiElectionId::Slot { slot, epoch: 0 };
    let retry_election = RaiElectionId::Slot { slot, epoch: 1 };
    fixture.processor.active_elections.insert(first_election).unwrap();
    fixture.processor.active_elections.insert(retry_election).unwrap();
    let value = RaiElectionValue::Block(BlockHash::from(3));

    assert_eq!(
        fixture.process(&RaiVote::new_first(fixture.rep_key,
            first_election,
            value
        )),
        Ok(())
    );
    assert_eq!(
        fixture.process(&RaiVote::new_first(fixture.rep_key,
            retry_election,
            value
        )),
        Ok(())
    );

    let retry = fixture.processor.active_elections.election(&retry_election).unwrap();
    assert_eq!(retry.tally(&value), 1);
}

#[test]
fn allows_conflicting_same_slot_vote_after_close_exclusion_release() {
    let mut fixture = Fixture::new();
    let slot = RaiSlot::new(Account::from(1), 1);
    let first_election = RaiElectionId::Slot { slot, epoch: 0 };
    let retry_election = RaiElectionId::Slot { slot, epoch: 1 };
    fixture.processor.active_elections.insert(first_election).unwrap();
    fixture.processor.active_elections.insert(retry_election).unwrap();
    let first_value = RaiElectionValue::Block(BlockHash::from(3));
    let retry_value = RaiElectionValue::Block(BlockHash::from(4));

    assert_eq!(
        fixture.process(&RaiVote::new_first(fixture.rep_key,
            first_election,
            first_value
        )),
        Ok(())
    );
    {
        let close_state = &mut fixture.processor.close_state;
        close_state.start_closing(0).unwrap();
        close_state.install_cut(0, SortedSet::new()).unwrap();
        close_state
            .record_cut_drain(0, &Vec::new())
            .unwrap();
        close_state.record_current_close_record_value(0).unwrap();
        close_state.advance_epoch(0).unwrap();
    }

    assert_eq!(
        fixture.process(&RaiVote::new_first(fixture.rep_key,
            retry_election,
            retry_value
        )),
        Ok(())
    );

    let retry = fixture.processor.active_elections.election(&retry_election).unwrap();
    assert_eq!(retry.tally(&retry_value), 1);
}

#[test]
fn rejects_unknown_close_cut_hash() {
    let mut fixture = Fixture::new();
    let election_id = RaiElectionId::CloseCut {
        epoch: 0,
        attempt: 0,
    };
    fixture.processor.active_elections.insert(election_id).unwrap();
    let value = RaiElectionValue::CloseCutHash(BlockHash::from(42));
    let vote = RaiVote::new_first(fixture.rep_key, election_id, value);

    assert_eq!(fixture.process(&vote), Err(VoteError::Invalid));

    let election = fixture.processor.active_elections.election(&election_id).unwrap();
    assert_eq!(election.tally(&value), 0);
}

#[test]
fn accepts_recorded_close_cut_hash() {
    let mut fixture = Fixture::new();
    let close_hash = fixture.processor.close_state.record_current_close_value(0);
    let election_id = RaiElectionId::CloseCut {
        epoch: 0,
        attempt: 0,
    };
    fixture.processor.active_elections.insert(election_id).unwrap();
    let value = RaiElectionValue::CloseCutHash(close_hash);
    let vote = RaiVote::new_first(fixture.rep_key, election_id, value);

    assert_eq!(fixture.process(&vote), Ok(()));

    let election = fixture.processor.active_elections.election(&election_id).unwrap();
    assert_eq!(election.tally(&value), 1);
}

#[test]
fn accepts_current_close_cut_hash_before_it_was_recorded() {
    let mut fixture = Fixture::new();
    let visible_slot = RaiSlot::new(Account::from(1), 1);
    let close_hash = {
        let close_state = &mut fixture.processor.close_state;
        close_state.mark_visible(0, visible_slot);
        close_state.current_close_hash(0)
    };
    let election_id = RaiElectionId::CloseCut {
        epoch: 0,
        attempt: 0,
    };
    fixture.processor.active_elections.insert(election_id).unwrap();
    let value = RaiElectionValue::CloseCutHash(close_hash);
    let vote = RaiVote::new_first(fixture.rep_key, election_id, value);

    assert_eq!(fixture.process(&vote), Ok(()));

    let close_state = &fixture.processor.close_state;
    assert!(close_state.close_value(0, &close_hash).is_some());
    let election = fixture.processor.active_elections.election(&election_id).unwrap();
    assert_eq!(election.tally(&value), 1);
}

#[test]
fn accepts_recorded_close_cut_hash_that_omits_later_visible_slot() {
    let mut fixture = Fixture::new();
    let first_slot = RaiSlot::new(Account::from(1), 1);
    let second_slot = RaiSlot::new(Account::from(2), 1);
    let close_hash = {
        let close_state = &mut fixture.processor.close_state;
        close_state.mark_visible(0, first_slot);
        let close_hash = close_state.record_current_close_value(0);
        close_state.mark_visible(0, second_slot);
        close_hash
    };
    let election_id = RaiElectionId::CloseCut {
        epoch: 0,
        attempt: 0,
    };
    fixture.processor.active_elections.insert(election_id).unwrap();
    let value = RaiElectionValue::CloseCutHash(close_hash);
    let vote = RaiVote::new_first(fixture.rep_key, election_id, value);

    assert_eq!(fixture.process(&vote), Ok(()));

    let election = fixture.processor.active_elections.election(&election_id).unwrap();
    assert_eq!(election.tally(&value), 1);
}

#[test]
fn rejects_close_record_hash_without_validated_package() {
    let mut fixture = Fixture::new();
    let election_id = RaiElectionId::CloseRecord {
        epoch: 0,
        attempt: 0,
    };
    fixture.processor.active_elections.insert(election_id).unwrap();
    let value = RaiElectionValue::CloseRecordHash(BlockHash::from(42));
    let vote = RaiVote::new_first(fixture.rep_key, election_id, value);

    assert_eq!(fixture.process(&vote), Err(VoteError::Invalid));

    let election = fixture.processor.active_elections.election(&election_id).unwrap();
    assert_eq!(election.tally(&value), 0);
}

#[test]
fn accepts_recorded_close_record_hash() {
    let mut fixture = Fixture::new();
    let record_hash = {
        let close_state = &mut fixture.processor.close_state;
        close_state.start_closing(0).unwrap();
        close_state.install_cut(0, SortedSet::new()).unwrap();
        close_state
            .record_cut_drain(0, &Vec::new())
            .unwrap();
        close_state.record_current_close_record_value(0).unwrap()
    };
    let election_id = RaiElectionId::CloseRecord {
        epoch: 0,
        attempt: 0,
    };
    fixture.processor.active_elections.insert(election_id).unwrap();
    let value = RaiElectionValue::CloseRecordHash(record_hash);
    let vote = RaiVote::new_first(fixture.rep_key, election_id, value);

    assert_eq!(fixture.process(&vote), Ok(()));

    let election = fixture.processor.active_elections.election(&election_id).unwrap();
    assert_eq!(election.tally(&value), 1);
}

#[test]
fn accepts_current_close_record_hash_before_it_was_recorded() {
    let mut fixture = Fixture::new();
    let record_hash = {
        let close_state = &mut fixture.processor.close_state;
        close_state.start_closing(0).unwrap();
        close_state.install_cut(0, SortedSet::new()).unwrap();
        close_state
            .record_cut_drain(0, &Vec::new())
            .unwrap();
        close_state.current_close_record_hash(0).unwrap()
    };
    let election_id = RaiElectionId::CloseRecord {
        epoch: 0,
        attempt: 0,
    };
    fixture.processor.active_elections.insert(election_id).unwrap();
    let value = RaiElectionValue::CloseRecordHash(record_hash);
    let vote = RaiVote::new_first(fixture.rep_key, election_id, value);

    assert_eq!(fixture.process(&vote), Ok(()));

    let close_state = &fixture.processor.close_state;
    assert!(close_state.has_close_record_value(0, &record_hash));
    let election = fixture.processor.active_elections.election(&election_id).unwrap();
    assert_eq!(election.tally(&value), 1);
}

#[test]
fn passive_node_installs_epoch_from_committee_close_votes() {
    let mut fixture = Fixture::new();
    let slot = RaiSlot::new(Account::from(1), 1);
    let slot_election = RaiElectionId::Slot { slot, epoch: 0 };
    let block = BlockHash::from(9);

    fixture.process(&RaiVote::new_final(fixture.rep_key,
            slot_election,
            RaiElectionValue::Block(block),
        ))
        .unwrap();

    let close_hash = fixture.processor.close_state.current_close_hash(0);
    fixture.process(&RaiVote::new_first(fixture.rep_key,
            RaiElectionId::CloseCut {
                epoch: 0,
                attempt: 0,
            },
            RaiElectionValue::CloseCutHash(close_hash),
        ))
        .unwrap();

    {
        let close_state = &fixture.processor.close_state;
        assert_eq!(close_state.current_epoch(), 0);
        assert_eq!(close_state.epoch_phase(0), Some(RaiEpochPhase::Closing));
        assert!(
            close_state
                .cut_set(0)
                .is_some_and(|cut| cut.contains(&slot))
        );
        assert_eq!(
            close_state.closed_slot_state(0, &slot),
            Some(&RaiClosedSlotState::Finalized(block))
        );
        assert!(close_state.has_close_record_values(0));
    }

    let record_hash = fixture.processor.close_state.current_close_record_hash(0)
        .unwrap();
    fixture.process(&RaiVote::new_first(fixture.rep_key,
            RaiElectionId::CloseRecord {
                epoch: 0,
                attempt: 0,
            },
            RaiElectionValue::CloseRecordHash(record_hash),
        ))
        .unwrap();

    let close_state = &fixture.processor.close_state;
    assert_eq!(close_state.current_epoch(), 1);
    assert_eq!(close_state.epoch_phase(0), Some(RaiEpochPhase::Closed));
}

struct Fixture<A: RaiAdmissibilityValidator<RaiCloseRecord>, P: RaiCommitteeProvider> {
    processor: RaiVoteProcessor<A, P>,
    election_id: RaiElectionId,
    rep_key: PublicKey,
    live: RaiRepWeightSnapshot,
}

impl Fixture<RaiDefaultAdmissibilityValidator, StaticCommitteeProvider> {
    fn new() -> Self {
        let rep_key = PublicKey::from(1);
        Self::with_committee(rep_key, committee([(rep_key, Amount::raw(100))]))
    }

    fn with_committee(rep_key: PublicKey, committee: RaiCommittee) -> Self {
        Self::with_committee_and_admissibility(rep_key, committee, RaiDefaultAdmissibilityValidator::default())
    }
}

impl<A: RaiAdmissibilityValidator<RaiCloseRecord>> Fixture<A, StaticCommitteeProvider> {
    fn with_admissibility(admissibility: A) -> Self {
        let rep_key = PublicKey::from(1);
        Self::with_committee_and_admissibility(rep_key, committee([(rep_key, Amount::raw(100))]), admissibility)
    }

    fn with_committee_and_admissibility(rep_key: PublicKey, committee: RaiCommittee, admissibility: A) -> Self {
        let processor = RaiVoteProcessor::with_committee_provider_admissibility_and_vote_safety(
            RaiActiveElections::new(),
            RaiCloseState::new(),
            StaticCommitteeProvider { committee: committee.duplicate() },
            admissibility,
            RaiVoteSafety::new(),
        );
        Self::around(processor, rep_key, weights_of(&committee))
    }
}

impl<A: RaiAdmissibilityValidator<RaiCloseRecord>, P: RaiCommitteeProvider> Fixture<A, P> {
    fn around(processor: RaiVoteProcessor<A, P>, rep_key: PublicKey, live: RaiRepWeightSnapshot) -> Self {
        let election_id = RaiElectionId::Slot { slot: RaiSlot::new(Account::from(1), 1), epoch: 1 };
        Self { processor, election_id, rep_key, live }
    }

    fn process(&mut self, vote: &RaiVote) -> Result<(), VoteError> {
        self.processor.process(vote, true, &self.live).result
    }

    fn process_forged(&mut self, vote: &RaiVote) -> Result<(), VoteError> {
        self.processor.process(vote, false, &self.live).result
    }
}

struct RejectAllSlotBlocks;

impl RaiAdmissibilityValidator<RaiCloseRecord> for RejectAllSlotBlocks {
    fn slot_verdict(
        &self,
        _slot: RaiSlot,
        _epoch: RaiEpoch,
        _block: BlockHash,
    ) -> Result<(), RaiAdmissibilityError> {
        unreachable!("a model is never computed")
    }

    fn record_verdict(
        &self,
        _record: RaiCloseRecord,
        _entries: ClosedEntries,
        _attempt: RaiCloseAttempt,
        _hash: BlockHash,
    ) -> Result<(), RaiAdmissibilityError> {
        unreachable!("a model is never computed")
    }

    fn frontiers_verdict(
        &self,
        _epoch: RaiEpoch,
        _previous: AccountFrontiers,
        _entries: ClosedEntries,
    ) -> Result<AccountFrontiers, RaiAdmissibilityError> {
        unreachable!("a model is never computed")
    }

    fn derive_close_frontiers(
        &self,
        _epoch: RaiEpoch,
        previous_frontiers: &RaiFrontiers,
        entries: &CloseRecordEntries,
    ) -> Result<RaiFrontiers, RaiAdmissibilityError> {
        Ok(close_frontiers(previous_frontiers, entries))
    }

    fn validate_slot_block(
        &self,
        _slot: RaiSlot,
        _epoch: RaiEpoch,
        _block_hash: &BlockHash,
    ) -> Result<(), RaiAdmissibilityError> {
        Err(RaiAdmissibilityError::InadmissibleSlotBlock)
    }

    fn validate_close_record(
        &self,
        _record: &RaiCloseRecord,
        _entries: &CloseRecordEntries,
        _attempt: RaiCloseAttempt,
        _hash: &BlockHash,
    ) -> Result<(), RaiAdmissibilityError> {
        Ok(())
    }
}

struct StaticCommitteeProvider {
    committee: RaiCommittee,
}

impl RaiCommitteeProvider for StaticCommitteeProvider {
    fn genesis(&self) -> Membership {
        unreachable!("a model is never computed")
    }

    fn closed(&self, _epoch: RaiEpoch) -> Option<Membership> {
        unreachable!("a model is never computed")
    }

    fn closed_weights(&self, _epoch: RaiEpoch) -> Option<SnapshotWeights> {
        unreachable!("a model is never computed")
    }

    fn fixing(_live: SnapshotWeights) -> Option<Fixing> {
        unreachable!("a model is never computed")
    }

    fn closed_epoch_rep_weight_snapshot(&self, _epoch: RaiEpoch) -> Option<RaiRepWeightSnapshot> {
        None
    }

    fn snapshot_closed_epoch_committee(&mut self, epoch: RaiEpoch, _live: RaiRepWeightSnapshot) -> RaiCommittee {
        self.committee_at(Some(epoch))
    }

    fn genesis_committee(&self) -> RaiCommittee {
        self.committee.duplicate()
    }

    fn committee_for_closed_epoch(&self, _epoch: RaiEpoch) -> Option<RaiCommittee> {
        Some(self.committee.duplicate())
    }
}

struct GenesisOnlyCommitteeProvider {
    committee: RaiCommittee,
}

impl RaiCommitteeProvider for GenesisOnlyCommitteeProvider {
    fn genesis(&self) -> Membership {
        unreachable!("a model is never computed")
    }

    fn closed(&self, _epoch: RaiEpoch) -> Option<Membership> {
        unreachable!("a model is never computed")
    }

    fn closed_weights(&self, _epoch: RaiEpoch) -> Option<SnapshotWeights> {
        unreachable!("a model is never computed")
    }

    fn fixing(_live: SnapshotWeights) -> Option<Fixing> {
        unreachable!("a model is never computed")
    }

    fn closed_epoch_rep_weight_snapshot(&self, _epoch: RaiEpoch) -> Option<RaiRepWeightSnapshot> {
        None
    }

    fn snapshot_closed_epoch_committee(&mut self, epoch: RaiEpoch, _live: RaiRepWeightSnapshot) -> RaiCommittee {
        self.committee_at(Some(epoch))
    }

    fn genesis_committee(&self) -> RaiCommittee {
        self.committee.duplicate()
    }

    fn committee_for_closed_epoch(&self, _epoch: RaiEpoch) -> Option<RaiCommittee> {
        None
    }
}

struct TwoCommitteeProvider {
    genesis: RaiCommittee,
    closed_zero: RaiCommittee,
}

impl RaiCommitteeProvider for TwoCommitteeProvider {
    fn genesis(&self) -> Membership {
        unreachable!("a model is never computed")
    }

    fn closed(&self, _epoch: RaiEpoch) -> Option<Membership> {
        unreachable!("a model is never computed")
    }

    fn closed_weights(&self, _epoch: RaiEpoch) -> Option<SnapshotWeights> {
        unreachable!("a model is never computed")
    }

    fn fixing(_live: SnapshotWeights) -> Option<Fixing> {
        unreachable!("a model is never computed")
    }

    fn closed_epoch_rep_weight_snapshot(&self, _epoch: RaiEpoch) -> Option<RaiRepWeightSnapshot> {
        None
    }

    fn snapshot_closed_epoch_committee(&mut self, epoch: RaiEpoch, _live: RaiRepWeightSnapshot) -> RaiCommittee {
        self.committee_at(Some(epoch))
    }

    fn genesis_committee(&self) -> RaiCommittee {
        self.genesis.duplicate()
    }

    fn committee_for_closed_epoch(&self, epoch: RaiEpoch) -> Option<RaiCommittee> {
        if epoch == 0 {
            Some(self.closed_zero.duplicate())
        } else {
            None
        }
    }
}

fn weights_of(committee: &RaiCommittee) -> RaiRepWeightSnapshot {
    RaiRepWeightSnapshot::from_weights(
        committee.members().iter().map(|member| (member.account, member.balance)).collect(),
    )
}

fn committee<const N: usize>(values: [(PublicKey, Amount); N]) -> RaiCommittee {
    RaiCommitteeDeriver::new().derive_committee(&values.to_vec())
}

fn committee_from_keys<const N: usize>(keys: [PublicKey; N]) -> RaiCommittee {
    committee(keys.map(|key| (key, Amount::raw(100))))
}

#[test]
fn report_names_the_confirmed_block() {
    let mut fixture = Fixture::new();
    let election_id = RaiElectionId::Slot { slot: RaiSlot::new(Account::from(1), 1), epoch: 0 };
    let block = BlockHash::from(9);
    let vote = RaiVote::new_final(fixture.rep_key, election_id, RaiElectionValue::Block(block));

    let report = fixture.processor.process(&vote, true, &fixture.live);

    assert_eq!(report.result, Ok(()));
    assert_eq!(report.confirmed, Some(block));
    assert!(report.observed);
}

#[test]
fn replayed_vote_is_named_a_replay() {
    let mut fixture = Fixture::new();
    let vote = RaiVote::new_first(fixture.rep_key, fixture.election_id, RaiElectionValue::Block(BlockHash::from(3)));
    assert_eq!(fixture.process(&vote), Ok(()));
    assert_eq!(fixture.process(&vote), Err(VoteError::Replay));
}

#[test]
fn an_epoch_that_votes_end_fixes_its_committee() {
    let rep_key = PublicKey::from(1);
    let committee = committee([(rep_key, Amount::raw(100))]);
    let processor = RaiVoteProcessor::new(RaiActiveElections::new(), RaiCloseState::new(), weights_of(&committee));
    let later = RaiRepWeightSnapshot::from_weights(vec![(PublicKey::from(2), Amount::raw(7))]);
    let mut fixture: Fixture<RaiDefaultAdmissibilityValidator, RepWeightRaiCommitteeProvider> =
        Fixture::around(processor, rep_key, later.duplicate());

    let cut = fixture.processor.close_state.current_close_hash(0);
    let cut_vote = RaiVote::new_first(
        rep_key,
        RaiElectionId::CloseCut { epoch: 0, attempt: 0 },
        RaiElectionValue::CloseCutHash(cut),
    );
    assert_eq!(fixture.process(&cut_vote), Ok(()));
    let record = fixture.processor.close_state.current_close_record_hash(0).unwrap();
    let record_vote = RaiVote::new_first(
        rep_key,
        RaiElectionId::CloseRecord { epoch: 0, attempt: 0 },
        RaiElectionValue::CloseRecordHash(record),
    );
    assert_eq!(fixture.process(&record_vote), Ok(()));

    assert_eq!(fixture.processor.close_state.current_epoch(), 1);
    let provider = &fixture.processor.committee_provider;
    assert!(provider.committee_for_closed_epoch(0).unwrap().contains(&PublicKey::from(2)));
    assert_eq!(provider.closed_epoch_rep_weight_snapshot(0), Some(later));
}
