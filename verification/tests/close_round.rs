use std::sync::Arc;

use rai_consensus::close_round::{RaiCloseKind, RaiCloseRoundAction, RaiCloseRoundResult, RaiCloseRoundTracker};
use rai_consensus::election_vote_state::{
    BlockHashOrTimeout, RaiCommitteeInstance, RaiCommitteeVoteState, RaiElectionVoteState, RaiOutcome, RaiThresholds,
};
use rai_consensus::ordered::{Duplicate, SortedSet};
use rai_consensus::rep_weights::RepWeights;
use rai_consensus::types::{Amount, BlockHash, PublicKey, RaiCommitteeScope, RaiEpoch};

fn hash(value: u64) -> BlockHash {
    BlockHash::from(value)
}

fn single(signer: u64) -> Arc<RepWeights> {
    let mut weights = RepWeights::new();
    weights.insert(PublicKey::from(signer), Amount::raw(1));
    Arc::new(weights)
}

fn evidence(results: &[(u64, BlockHashOrTimeout)]) -> RaiElectionVoteState {
    let mut committees = Vec::new();
    for (signer, result) in results {
        let mut state = RaiCommitteeInstance {
            weights: single(*signer),
            thresholds: RaiThresholds {
                faulty: Amount::zero(),
                slack: Amount::zero(),
                progression: Amount::raw(1),
                notarization: Amount::raw(1),
                fast: Amount::raw(1),
                finalization: Amount::raw(1),
            },
            votes: RaiCommitteeVoteState::default(),
        };
        state.votes.notar.insert(PublicKey::from(*signer), SortedSet::from_vec(&vec![*result]));
        committees.push(state);
    }
    RaiElectionVoteState { committees, outcome: RaiOutcome::default() }
}

fn epoch(number: u64) -> RaiEpoch {
    RaiEpoch::new(number)
}

#[test]
fn timer_expiry_without_certificate_does_not_prove_death() {
    let mut rounds = RaiCloseRoundTracker::new(RaiCloseKind::Cut, epoch(0));
    rounds.start_round_zero(hash(1));
    assert_eq!(rounds.next(hash(2)), RaiCloseRoundAction::Wait);
    assert_eq!(rounds.current_round(), 0);
}

#[test]
fn timeout_certificate_advances_exactly_once() {
    let mut rounds = RaiCloseRoundTracker::new(RaiCloseKind::Cut, epoch(0));
    rounds.start_round_zero(hash(1));
    rounds.store_evidence(0, evidence(&[(1, BlockHashOrTimeout::Timeout)]));
    assert_eq!(rounds.next(hash(2)), RaiCloseRoundAction::StartFresh { round: 1, hash: hash(2) });
    assert_eq!(rounds.next(hash(3)), RaiCloseRoundAction::Wait);
    assert_eq!(rounds.current_round(), 1);
}

#[test]
fn replayed_retry_keeps_the_original_fresh_hash() {
    let mut rounds = RaiCloseRoundTracker::new(RaiCloseKind::Cut, epoch(0));
    rounds.start_round_zero(hash(1));
    rounds.store_evidence(0, evidence(&[(1, BlockHashOrTimeout::Timeout)]));
    assert_eq!(rounds.next(hash(2)), RaiCloseRoundAction::StartFresh { round: 1, hash: hash(2) });

    // Replaying the event of the source round after the local view changed must
    // not start the same election with a different candidate.
    assert!(rounds.replay_from(0));
    assert_eq!(rounds.next(hash(99)), RaiCloseRoundAction::StartFresh { round: 1, hash: hash(2) });
}

#[test]
fn unique_live_value_is_carried_and_overrides_fresh() {
    let mut rounds = RaiCloseRoundTracker::new(RaiCloseKind::Record, epoch(4));
    rounds.start_round_zero(hash(7));
    rounds.store_evidence(0, evidence(&[(1, BlockHashOrTimeout::Block(hash(7)))]));
    assert_eq!(rounds.next(hash(99)), RaiCloseRoundAction::StartCarry { round: 1, hash: hash(7) });
    assert_eq!(rounds.round(1).unwrap().carried, Some(hash(7)));
}

#[test]
fn delayed_conflict_changes_only_pending_derivation() {
    let mut rounds = RaiCloseRoundTracker::new(RaiCloseKind::Cut, epoch(2));
    rounds.start_round_zero(hash(1));
    rounds.store_evidence(0, evidence(&[(1, BlockHashOrTimeout::Block(hash(1)))]));
    assert_eq!(rounds.round(0).unwrap().derive(), RaiCloseRoundResult::LiveCarry(hash(1)));
    rounds.store_evidence(
        0,
        evidence(&[(1, BlockHashOrTimeout::Block(hash(1))), (2, BlockHashOrTimeout::Block(hash(2)))]),
    );
    assert_eq!(rounds.round(0).unwrap().derive(), RaiCloseRoundResult::Dead);
    assert_eq!(rounds.next(hash(3)), RaiCloseRoundAction::StartFresh { round: 1, hash: hash(3) });
}

#[test]
fn restart_at_transition_is_idempotent_and_kinds_are_isolated() {
    let mut cut = RaiCloseRoundTracker::new(RaiCloseKind::Cut, epoch(0));
    cut.start_round_zero(hash(1));
    cut.store_evidence(0, evidence(&[(1, BlockHashOrTimeout::Timeout)]));
    let mut restarted = RaiCloseRoundTracker::from_snapshot(cut.snapshot()).unwrap();
    assert_eq!(cut.next(hash(2)), restarted.next(hash(2)));
    assert_eq!(cut.current_round(), 1);

    let mut record = RaiCloseRoundTracker::new(RaiCloseKind::Record, epoch(0));
    record.start_round_zero(hash(9));
    assert_eq!(record.current_round(), 0);
    assert_eq!(record.next(hash(10)), RaiCloseRoundAction::Wait);
}

#[test]
fn carried_hash_without_preimage_waits() {
    let mut rounds = RaiCloseRoundTracker::new(RaiCloseKind::Cut, epoch(0));
    rounds.start_round_zero(hash(1));
    // Evidence for an otherwise valid value whose content was never accepted.
    rounds.store_evidence(0, evidence(&[(1, BlockHashOrTimeout::Block(hash(2)))]));
    assert_eq!(rounds.next(hash(3)), RaiCloseRoundAction::Wait);
}

#[test]
fn locks_are_per_round_and_committee_instance() {
    let mut first = RaiElectionVoteState::new(vec![single(1)]);
    first.record_first_vote(PublicKey::from(1), BlockHashOrTimeout::Block(hash(1)), RaiCommitteeScope::All).unwrap();
    let mut second = first.duplicate();
    second.committees[0].votes = RaiCommitteeVoteState::default();
    second.record_first_vote(PublicKey::from(1), BlockHashOrTimeout::Block(hash(2)), RaiCommitteeScope::All).unwrap();
}

#[test]
fn a_decision_is_final() {
    let mut rounds = RaiCloseRoundTracker::new(RaiCloseKind::Cut, epoch(0));
    rounds.start_round_zero(hash(1));
    assert!(!rounds.decide(0, hash(2)));
    assert!(rounds.decide(0, hash(1)));
    assert_eq!(rounds.decision(), Some((0, hash(1))));
    assert_eq!(rounds.next(hash(3)), RaiCloseRoundAction::Inert);
    assert_eq!(rounds.start_round_zero(hash(3)), RaiCloseRoundAction::Inert);
    assert!(!rounds.store_evidence(0, evidence(&[])));
}

fn voted(finals: bool) -> RaiElectionVoteState {
    let mut state = RaiElectionVoteState::new(vec![single(1)]);
    if finals {
        state.record_final_vote(PublicKey::from(1), hash(1), RaiCommitteeScope::All).unwrap();
    } else {
        state.record_first_vote(PublicKey::from(1), BlockHashOrTimeout::Block(hash(1)), RaiCommitteeScope::All).unwrap();
    }
    state
}

#[test]
fn only_final_certificates_decide_a_round() {
    let mut rounds = RaiCloseRoundTracker::new(RaiCloseKind::Cut, RaiEpoch::new(0));
    rounds.start_round_zero(hash(1));
    assert!(rounds.store_evidence(0, voted(false)));
    assert_eq!(rounds.round(0).unwrap().derive(), RaiCloseRoundResult::LiveCarry(hash(1)));

    assert!(rounds.store_evidence(0, voted(true)));
    assert_eq!(rounds.round(0).unwrap().derive(), RaiCloseRoundResult::Decided(hash(1)));
    assert_eq!(rounds.next(hash(2)), RaiCloseRoundAction::Inert);

    assert!(rounds.store_evidence(0, voted(false)));
    assert_eq!(rounds.next(hash(2)), RaiCloseRoundAction::StartCarry { round: 1, hash: hash(1) });
}
