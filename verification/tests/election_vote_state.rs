use std::sync::Arc;

use rai_consensus::election_vote_state::{
    rai_fast_threshold, rai_fault_allowance, rai_final_threshold, rai_notarization_threshold, rai_progression_threshold,
    rai_timeout_ready, BlockHashOrTimeout, RaiElectionVoteState, RaiLocalResult, RaiOutcome, RaiThresholds,
    RaiVoteStateError,
};
use rai_consensus::rep_weights::RepWeights;
use rai_consensus::types::{Amount, BlockHash, PublicKey, RaiCommitteeScope, RaiVotePhase};

fn state(older: &[(u64, u128)], newer: &[(u64, u128)]) -> RaiElectionVoteState {
    let mut committees = vec![weights(older)];
    if !newer.is_empty() {
        committees.push(weights(newer));
    }
    RaiElectionVoteState::new(committees)
}

fn weights(entries: &[(u64, u128)]) -> Arc<RepWeights> {
    let mut weights = RepWeights::new();
    for (representative, weight) in entries {
        weights.insert(rep(*representative), Amount::raw(*weight));
    }
    Arc::new(weights)
}

fn rep(value: u64) -> PublicKey {
    PublicKey::from(value)
}

fn hash(value: u64) -> BlockHash {
    BlockHash::from(value)
}

fn block(value: u64) -> BlockHashOrTimeout {
    BlockHashOrTimeout::Block(hash(value))
}

const SIX: &[(u64, u128)] = &[(1, 1), (2, 1), (3, 1), (4, 1), (5, 1), (6, 1)];

#[test]
fn exact_weighted_threshold_boundaries() {
    let thresholds = RaiThresholds::for_weights(&weights(SIX));
    assert_eq!(thresholds.faulty, Amount::raw(1));
    assert_eq!(thresholds.slack, Amount::raw(1));
    assert_eq!(thresholds.progression, Amount::raw(3)); // more than faulty and slack together
    assert_eq!(thresholds.notarization, Amount::raw(4));
    assert_eq!(thresholds.fast, Amount::raw(5));
    assert_eq!(thresholds.finalization, Amount::raw(4));
    assert!(!rai_timeout_ready(4, 2, 1, 1));
    assert!(rai_timeout_ready(5, 2, 1, 1));
}

#[test]
fn threshold_formulas_give_exact_values() {
    assert_eq!(rai_fault_allowance(6), 1);
    assert_eq!(rai_fault_allowance(5), 0);
    assert_eq!(rai_progression_threshold(1, 1), 3);
    assert_eq!(rai_notarization_threshold(6, 1, 1), 4);
    assert_eq!(rai_fast_threshold(6, 1), 5);
    assert_eq!(rai_final_threshold(6, 1, 1), 4);
}

#[test]
fn first_notar_and_final_certificates_use_exact_boundaries() {
    let mut vote_state = state(SIX, &[]);
    for signer in 1..=4 {
        vote_state.record_first_vote(rep(signer), block(1), RaiCommitteeScope::All).unwrap();
    }
    assert_eq!(vote_state.local_result(0), Some(RaiLocalResult::Notarized(hash(1))));
    vote_state.record_first_vote(rep(5), block(1), RaiCommitteeScope::All).unwrap();
    assert_eq!(vote_state.local_result(0), Some(RaiLocalResult::Fast(hash(1))));

    let mut final_state = state(SIX, &[]);
    for signer in 1..=3 {
        final_state.record_final_vote(rep(signer), hash(1), RaiCommitteeScope::All).unwrap();
    }
    assert_eq!(final_state.local_result(0), None);
    final_state.record_final_vote(rep(4), hash(1), RaiCommitteeScope::All).unwrap();
    assert_eq!(final_state.local_result(0), Some(RaiLocalResult::Final(hash(1))));
}

#[test]
fn final_is_implicit_notar_support_but_not_first_support() {
    let mut state = state(SIX, &[]);
    state.record_final_vote(rep(1), hash(1), RaiCommitteeScope::All).unwrap();
    for signer in 2..=4 {
        state.record_first_vote(rep(signer), block(1), RaiCommitteeScope::All).unwrap();
    }

    assert_eq!(state.first_tally(0, block(1)), Amount::raw(3));
    assert_eq!(state.notarization_tally(0, block(1)), Amount::raw(4));
    assert_eq!(state.final_tally(0, hash(1)), Amount::raw(1));
    assert_eq!(state.local_result(0), Some(RaiLocalResult::Notarized(hash(1))));
}

#[test]
fn committees_count_the_same_signer_with_local_frozen_weight() {
    let mut state = state(&[(1, 5)], &[(1, 9)]);
    state.record_first_vote(rep(1), block(1), RaiCommitteeScope::All).unwrap();
    assert_eq!(state.first_tally(0, block(1)), Amount::raw(5));
    assert_eq!(state.first_tally(1, block(1)), Amount::raw(9));
    assert_eq!(state.local_result(0), Some(RaiLocalResult::Fast(hash(1))));
    assert_eq!(state.local_result(1), Some(RaiLocalResult::Fast(hash(1))));
}

#[test]
fn notarization_requires_strict_first_support_in_every_effective_committee() {
    let mut state = state(SIX, SIX);
    for signer in 1..=2 {
        state.record_first_vote(rep(signer), block(1), RaiCommitteeScope::All).unwrap();
    }
    assert_eq!(
        state.record_vote(rep(3), block(1), RaiVotePhase::Notar, RaiCommitteeScope::All),
        Err(RaiVoteStateError::InsufficientFirstSupport)
    );
    state.record_first_vote(rep(3), block(1), RaiCommitteeScope::All).unwrap();
    state.record_vote(rep(4), block(1), RaiVotePhase::Notar, RaiCommitteeScope::All).unwrap();
}

#[test]
fn one_signers_first_vote() {
    let mut state = state(&[(1, 10)], &[(1, 20)]);
    state.record_first_vote(rep(1), block(1), RaiCommitteeScope::All).unwrap();

    assert_eq!(state.first_tally(0, block(1)), Amount::raw(10));
    assert_eq!(state.first_tally(1, block(1)), Amount::raw(20));
}

#[test]
fn first_vote_replay_is_rejected() {
    let mut state = state(&[(1, 10)], &[]);
    state.record_first_vote(rep(1), block(1), RaiCommitteeScope::All).unwrap();

    assert_eq!(
        state.record_first_vote(rep(1), block(1), RaiCommitteeScope::All),
        Err(RaiVoteStateError::DuplicateFirstVote)
    );
}

#[test]
fn overlapping_scope_equivocation_is_atomic() {
    let mut state = state(&[(1, 10)], &[(1, 20)]);
    state.record_first_vote(rep(1), block(1), RaiCommitteeScope::Older).unwrap();

    assert_eq!(
        state.record_first_vote(rep(1), block(2), RaiCommitteeScope::All),
        Err(RaiVoteStateError::DuplicateFirstVote)
    );
    assert!(state.committees[1].votes.first.is_empty());
}

#[test]
fn different_first_values_are_allowed_in_disjoint_scopes() {
    let mut state = state(&[(1, 10)], &[(1, 20)]);
    state.record_first_vote(rep(1), block(1), RaiCommitteeScope::Older).unwrap();
    state.record_first_vote(rep(1), block(2), RaiCommitteeScope::Newer).unwrap();

    assert_eq!(state.first_tally(0, block(1)), Amount::raw(10));
    assert_eq!(state.first_tally(1, block(2)), Amount::raw(20));
}

#[test]
fn notarization_support_is_committee_local_and_plural() {
    let mut state = state(&[(1, 10)], &[(1, 20)]);
    state.record_notarization_vote(rep(1), block(1), RaiCommitteeScope::Older).unwrap();
    state.record_notarization_vote(rep(1), block(2), RaiCommitteeScope::Older).unwrap();

    assert_eq!(state.notarization_tally(0, block(1)), Amount::raw(10));
    assert_eq!(state.notarization_tally(0, block(2)), Amount::raw(10));
    assert_eq!(state.notarization_tally(1, block(1)), Amount::zero());
}

#[test]
fn valid_final_vote_locks_the_signer() {
    let mut state = state(&[(1, 10)], &[]);
    state.record_first_vote(rep(1), block(1), RaiCommitteeScope::All).unwrap();
    state.record_notarization_vote(rep(1), block(1), RaiCommitteeScope::All).unwrap();
    state.record_final_vote(rep(1), hash(1), RaiCommitteeScope::All).unwrap();

    assert_eq!(state.final_tally(0, hash(1)), Amount::raw(10));
    assert!(state.committees[0].votes.final_locked.contains(&rep(1)));
}

#[test]
fn final_vote_after_conflicting_support_is_rejected() {
    let mut state = state(&[(1, 10)], &[]);
    state.record_notarization_vote(rep(1), block(2), RaiCommitteeScope::All).unwrap();

    assert_eq!(
        state.record_final_vote(rep(1), hash(1), RaiCommitteeScope::All),
        Err(RaiVoteStateError::IncompatibleFinalSupport)
    );
}

#[test]
fn compatible_earlier_phases_are_order_independent_after_final_arrives() {
    let mut state = state(&[(1, 10)], &[]);
    state.record_final_vote(rep(1), hash(1), RaiCommitteeScope::All).unwrap();

    state.record_notarization_vote(rep(1), block(1), RaiCommitteeScope::All).unwrap();
    state.record_first_vote(rep(1), block(1), RaiCommitteeScope::All).unwrap();
    assert_eq!(state.first_tally(0, block(1)), Amount::raw(10));
    assert_eq!(state.notarization_tally(0, block(1)), Amount::raw(10));
    assert_eq!(state.final_tally(0, hash(1)), Amount::raw(10));
    assert_eq!(
        state.record_final_vote(rep(1), hash(1), RaiCommitteeScope::All),
        Err(RaiVoteStateError::FinalLocked)
    );
}

#[test]
fn delayed_conflicting_first_cannot_retract_final() {
    let mut state = state(&[(1, 10)], &[]);
    state.record_final_vote(rep(1), hash(1), RaiCommitteeScope::All).unwrap();

    assert_eq!(
        state.record_first_vote(rep(1), BlockHashOrTimeout::Timeout, RaiCommitteeScope::All),
        Err(RaiVoteStateError::FinalLocked)
    );
    assert_eq!(state.final_tally(0, hash(1)), Amount::raw(10));
    assert!(state.committees[0].votes.final_locked.contains(&rep(1)));
}

#[test]
fn all_scope_resolves_to_committees_containing_the_signer() {
    let mut state = state(&[(1, 10)], &[(2, 20)]);

    state.record_first_vote(rep(1), block(1), RaiCommitteeScope::All).unwrap();
    assert_eq!(state.first_tally(0, block(1)), Amount::raw(10));
    assert_eq!(state.first_tally(1, block(1)), Amount::zero());
}

#[test]
fn signer_weight_is_counted_once_per_phase_and_value() {
    let mut state = state(&[(1, 10)], &[]);
    state.record_first_vote(rep(1), block(1), RaiCommitteeScope::All).unwrap();
    state.record_notarization_vote(rep(1), block(1), RaiCommitteeScope::All).unwrap();
    state.record_notarization_vote(rep(1), block(1), RaiCommitteeScope::All).unwrap();

    assert_eq!(state.notarization_tally(0, block(1)), Amount::raw(10));
}

#[test]
fn duplicate_committees_collapse() {
    let committee = weights(&[(1, 10)]);
    let state = RaiElectionVoteState::new(vec![committee.clone(), committee]);

    assert_eq!(state.committees.len(), 1);
}

#[test]
fn timeout_is_local_state_and_never_a_confirmed_block() {
    let mut first = state(&[(1, 10)], &[]);
    let second = state(&[(1, 10)], &[]);
    first.record_first_vote(rep(1), BlockHashOrTimeout::Timeout, RaiCommitteeScope::All).unwrap();

    assert_eq!(first.first_tally(0, BlockHashOrTimeout::Timeout), Amount::raw(10));
    assert_eq!(second.first_tally(0, BlockHashOrTimeout::Timeout), Amount::zero());
    assert_eq!(first.outcome, RaiOutcome::Pending);
    assert_eq!(
        first.record_final_value(rep(1), BlockHashOrTimeout::Timeout, RaiCommitteeScope::All),
        Err(RaiVoteStateError::TimeoutFinalVote)
    );
    assert!(first.committees[0].votes.final_votes.is_empty());
}

#[test]
fn timeout_vote_requires_the_strict_slack_boundary() {
    let mut state = state(SIX, &[]);
    state.record_first_vote(rep(1), block(1), RaiCommitteeScope::All).unwrap();
    state.record_first_vote(rep(2), block(1), RaiCommitteeScope::All).unwrap();
    state.record_first_vote(rep(3), block(2), RaiCommitteeScope::All).unwrap();
    state.record_first_vote(rep(4), block(2), RaiCommitteeScope::All).unwrap();
    assert_eq!(
        state.record_vote(rep(5), BlockHashOrTimeout::Timeout, RaiVotePhase::Notar, RaiCommitteeScope::All),
        Err(RaiVoteStateError::TimeoutNotReady)
    );
    state.record_first_vote(rep(5), block(3), RaiCommitteeScope::All).unwrap();
    state.record_vote(rep(6), BlockHashOrTimeout::Timeout, RaiVotePhase::Notar, RaiCommitteeScope::All).unwrap();
}

#[test]
fn strangers_and_empty_scopes_are_refused() {
    let mut one = state(&[(1, 10)], &[]);
    assert_eq!(
        one.record_first_vote(rep(2), block(1), RaiCommitteeScope::All),
        Err(RaiVoteStateError::EmptyScope)
    );
    let mut two = state(&[(1, 10)], &[(2, 20)]);
    assert_eq!(
        two.record_first_vote(rep(1), block(1), RaiCommitteeScope::Newer),
        Err(RaiVoteStateError::SignerNotInCommittee)
    );
}
