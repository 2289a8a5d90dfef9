use std::sync::Arc;

use rai_consensus::close_record::{RaiCloseRecord, RaiFrontierMap};
use rai_consensus::close_round::RaiCloseRoundResult;
use rai_consensus::election_id::{rai_close_cut_root, rai_close_record_root};
use rai_consensus::election_vote_state::{
    BlockHashOrTimeout, RaiElectionVoteState, RaiLocalResult, RaiOutcome, RaiVoteStateError,
};
use rai_consensus::epoch::{
    CloseRecordDecisionError, RaiCertifiedRelease, RaiClosingEpoch, RaiClosingPhase, RaiDrainOutcome, RaiEpochManager,
    RaiHappyPathDrain,
};
use rai_consensus::ordered::{Duplicate, SortedMap, SortedSet};
use rai_consensus::rep_weights::RepWeights;
use rai_consensus::report::{CloseCutDecisionError, RaiReport};
use rai_consensus::types::{
    Account, Amount, BlockHash, ConfirmationHeightInfo, PublicKey, QualifiedRoot, RaiCommitteeScope, RaiEpoch, RaiSlotId,
    Root, Signature, Timestamp,
};

const NOW: Timestamp = Timestamp { nanos: 1_000_000_000 };

fn weights(rep: u64, amount: u128) -> Arc<RepWeights> {
    Arc::new(plain_weights(rep, amount))
}

fn plain_weights(rep: u64, amount: u128) -> RepWeights {
    let mut weights = RepWeights::new();
    weights.insert(PublicKey::from(rep), Amount::raw(amount));
    weights
}

fn zero() -> RaiEpoch {
    RaiEpoch::new(0)
}

fn hash(value: u64) -> BlockHash {
    BlockHash::from(value)
}

fn info(height: u64, frontier: u64) -> ConfirmationHeightInfo {
    ConfirmationHeightInfo::new(height, hash(frontier))
}

fn account(value: u64) -> Account {
    Account::from(value)
}

fn root(root: u64, previous: u64) -> QualifiedRoot {
    QualifiedRoot::new(Root::from(root), hash(previous))
}

fn slot(root: QualifiedRoot) -> RaiSlotId {
    RaiSlotId { epoch: zero(), root }
}

fn report(key: u64, slots: Vec<RaiSlotId>) -> RaiReport<RaiSlotId> {
    RaiReport::new(PublicKey::from(key), zero(), slots, Signature::new())
}

fn final_evidence(key: u64, hash: BlockHash) -> RaiElectionVoteState {
    let mut evidence = RaiElectionVoteState::new(vec![weights(key, 100)]);
    evidence.record_final_vote(PublicKey::from(key), hash, RaiCommitteeScope::All).unwrap();
    evidence
}

fn notarized(key: u64, values: Vec<BlockHashOrTimeout>) -> RaiElectionVoteState {
    let mut evidence = RaiElectionVoteState::new(vec![weights(key, 100)]);
    for value in values {
        evidence.record_notarization_vote(PublicKey::from(key), value, RaiCommitteeScope::All).unwrap();
    }
    evidence
}

fn notarized_evidence(key: u64, hash: BlockHash) -> RaiElectionVoteState {
    notarized(key, vec![BlockHashOrTimeout::Block(hash)])
}

fn timeout_evidence(key: u64) -> RaiElectionVoteState {
    notarized(key, vec![BlockHashOrTimeout::Timeout])
}

fn fork_conflict_evidence(key: u64) -> RaiElectionVoteState {
    notarized(key, vec![BlockHashOrTimeout::Block(hash(10)), BlockHashOrTimeout::Block(hash(11))])
}

fn drain_of(obligations: Vec<RaiSlotId>) -> RaiHappyPathDrain {
    RaiHappyPathDrain {
        epoch: zero(),
        obligations: SortedSet::from_vec(&obligations),
        finalized: SortedMap::new(),
        selected: SortedMap::new(),
        released: SortedMap::new(),
    }
}

fn one<V: Duplicate>(slot: RaiSlotId, value: V) -> SortedMap<RaiSlotId, V> {
    let mut map = SortedMap::new();
    map.insert(slot, value);
    map
}

/// A manager of a committee of one, whose epoch closes and whose report is in.
fn closing_manager(obligations: Vec<RaiSlotId>) -> RaiEpochManager {
    let mut manager = RaiEpochManager::new(weights(1, 100), hash(7));
    manager.start_closing(NOW);
    manager.reports_mut().insert(report(1, obligations), true).unwrap();
    manager
}

fn same_frontiers(a: &RaiFrontierMap, b: &RaiFrontierMap) -> bool {
    a.agrees(b)
}

#[test]
fn drain_resolution_is_invariant_to_compatible_first_final_delivery_order() {
    let reps: Vec<PublicKey> = (1..=6).map(PublicKey::from).collect();
    let mut members = RepWeights::new();
    for rep in &reps {
        members.insert(*rep, Amount::raw(1));
    }
    let committee = Arc::new(members);
    let hash = hash(42);
    let block = BlockHashOrTimeout::Block(hash);

    let evidence_for = |final_before_first: bool| {
        let mut evidence = RaiElectionVoteState::new(vec![committee.clone()]);

        // Three first votes for the block and both for the timeout arrive first.
        for rep in &reps[..3] {
            evidence.record_first_vote(*rep, block, RaiCommitteeScope::All).unwrap();
        }
        for rep in &reps[4..] {
            evidence.record_first_vote(*rep, BlockHashOrTimeout::Timeout, RaiCommitteeScope::All).unwrap();
        }

        evidence.record_final_vote(reps[0], hash, RaiCommitteeScope::All).unwrap();
        if final_before_first {
            evidence.record_final_vote(reps[3], hash, RaiCommitteeScope::All).unwrap();
            evidence.record_first_vote(reps[3], block, RaiCommitteeScope::All).unwrap();
        } else {
            evidence.record_first_vote(reps[3], block, RaiCommitteeScope::All).unwrap();
            evidence.record_final_vote(reps[3], hash, RaiCommitteeScope::All).unwrap();
        }

        // The two final votes that follow a timeout are invalid either way.
        for rep in &reps[4..] {
            assert_eq!(
                evidence.record_final_vote(*rep, hash, RaiCommitteeScope::All),
                Err(RaiVoteStateError::IncompatibleFinalSupport)
            );
        }
        evidence
    };

    let final_before_first = evidence_for(true);
    let first_before_final = evidence_for(false);
    for evidence in [&final_before_first, &first_before_final] {
        assert_eq!(evidence.first_tally(0, block), Amount::raw(4));
        assert_eq!(evidence.first_tally(0, BlockHashOrTimeout::Timeout), Amount::raw(2));
        assert_eq!(evidence.final_tally(0, hash), Amount::raw(2));
        assert_eq!(evidence.local_result(0), Some(RaiLocalResult::Notarized(hash)));
    }

    let slot = slot(root(1, 2));
    let resolve = |evidence: &RaiElectionVoteState| {
        let mut drain = drain_of(vec![slot]);
        let outcome = drain.record_persistent_evidence(&slot, evidence);
        assert!(drain.is_complete());
        outcome
    };

    let final_before_first_outcome = resolve(&final_before_first);
    let first_before_final_outcome = resolve(&first_before_final);
    assert_eq!(final_before_first_outcome, Some(RaiDrainOutcome::Selected(hash)));
    assert_eq!(first_before_final_outcome, final_before_first_outcome);
}

#[test]
fn empty_cut_drain_is_immediately_complete() {
    assert!(drain_of(vec![]).is_complete());
}

#[test]
fn final_certificate_settles_only_its_obligation() {
    let first = slot(root(1, 2));
    let second = slot(root(3, 4));
    let mut drain = drain_of(vec![first, second]);

    assert_eq!(
        drain.record_persistent_evidence(&first, &final_evidence(1, hash(10))),
        Some(RaiDrainOutcome::Finalized(hash(10)))
    );
    assert!(!drain.is_complete());
}

#[test]
fn persistent_evidence_outcome_does_not_clone_or_mutate_the_drain() {
    let slot = slot(root(1, 2));
    let evidence = final_evidence(1, hash(10));
    let mut drain = drain_of(vec![slot]);

    assert_eq!(
        drain.persistent_evidence_outcome(&slot, &evidence),
        Some(RaiDrainOutcome::Finalized(hash(10)))
    );
    assert!(drain.finalized.is_empty());
    assert!(drain.selected.is_empty());
    assert!(drain.released.is_empty());
    assert!(!drain.is_complete());

    assert_eq!(
        drain.record_persistent_evidence(&slot, &evidence),
        Some(RaiDrainOutcome::Finalized(hash(10)))
    );
    assert!(drain.is_complete());
}

#[test]
fn durable_drain_checks_skip_only_already_finalized_slots() {
    let finalized = slot(root(1, 2));
    let selected = slot(root(3, 4));
    let released = slot(root(5, 6));
    let unresolved = slot(root(7, 8));
    let mut manager = RaiEpochManager::new(Arc::new(RepWeights::new()), BlockHash::zero());
    let mut drain = drain_of(vec![finalized, selected, released, unresolved]);
    drain.finalized = one(finalized, hash(10));
    drain.selected = one(selected, hash(11));
    drain.released = one(released, RaiDrainOutcome::ReleasedTimeout);
    manager.drains.insert(zero(), drain);

    assert_eq!(
        manager.obligations_requiring_durable_check(zero()),
        Some(vec![selected, released, unresolved])
    );
    assert_eq!(manager.unresolved_drain_obligations(zero()), Some(vec![unresolved]));
}

#[test]
fn drain_resolution_maps_remain_mutually_exclusive() {
    let finalized = slot(root(1, 2));
    let selected = slot(root(3, 4));
    let released = slot(root(5, 6));
    let mut drain = drain_of(vec![finalized, selected, released]);

    assert_eq!(
        drain.record_persistent_evidence(&finalized, &final_evidence(1, hash(10))),
        Some(RaiDrainOutcome::Finalized(hash(10)))
    );
    assert_eq!(drain.record_notarized(&selected, hash(11)), Some(RaiDrainOutcome::Selected(hash(11))));
    assert_eq!(
        drain.record_persistent_evidence(&released, &timeout_evidence(1)),
        Some(RaiDrainOutcome::ReleasedTimeout)
    );

    assert!(drain.is_complete());
    assert_eq!(
        drain.finalized.len() + drain.selected.len() + drain.released.len(),
        drain.obligations.len()
    );
    assert!(drain
        .finalized
        .keys_vec()
        .iter()
        .all(|slot| !drain.selected.contains_key(slot) && !drain.released.contains_key(slot)));
    assert!(drain.selected.keys_vec().iter().all(|slot| !drain.released.contains_key(slot)));
}

#[test]
fn local_timeout_does_not_settle_an_obligation() {
    let root = slot(root(1, 2));
    let mut drain = drain_of(vec![root]);
    let mut evidence = RaiElectionVoteState::default();
    evidence.outcome = RaiOutcome::TimedOut;

    assert_eq!(drain.record_persistent_evidence(&root, &evidence), None);
    assert!(!drain.is_complete());
}

#[test]
fn certified_timeout_releases_a_drain_obligation() {
    let root = slot(root(1, 2));
    let mut drain = drain_of(vec![root]);

    assert_eq!(
        drain.record_persistent_evidence(&root, &timeout_evidence(1)),
        Some(RaiDrainOutcome::ReleasedTimeout)
    );
    assert!(drain.is_complete());
    assert!(drain.finalized.is_empty());
}

#[test]
fn fork_only_conflict_releases_a_drain_obligation() {
    let root = slot(root(1, 2));
    let mut drain = drain_of(vec![root]);

    assert_eq!(
        drain.record_persistent_evidence(&root, &fork_conflict_evidence(1)),
        Some(RaiDrainOutcome::ReleasedConflict)
    );
    assert!(drain.is_complete());
    assert!(drain.finalized.is_empty());
}

#[test]
fn drain_finishes_only_after_every_cut_member_finalizes() {
    let first = slot(root(1, 2));
    let second = slot(root(3, 4));
    let mut drain = drain_of(vec![first, second]);

    drain.record_persistent_evidence(&first, &final_evidence(1, hash(10)));
    assert!(!drain.is_complete());
    drain.record_persistent_evidence(&second, &final_evidence(1, hash(11)));
    assert!(drain.is_complete());
}

#[test]
fn durable_finalization_replaces_an_earlier_drain_outcome() {
    let root = slot(root(1, 2));
    let selected = hash(10);
    let finalized = hash(11);
    let mut manager = RaiEpochManager::new(Arc::new(RepWeights::new()), BlockHash::zero());
    let mut drain = drain_of(vec![root]);
    drain.selected = one(root, selected);
    manager.drains.insert(zero(), drain);
    manager.initialize_drain_frontiers(zero(), vec![]);

    assert!(manager.record_finalized_drain(zero(), &root, finalized, &vec![]));

    let drain = manager.happy_path_drain(zero()).unwrap();
    assert_eq!(drain.finalized.get(&root), Some(&finalized));
    assert!(!drain.selected.contains_key(&root));
    assert!(!drain.released.contains_key(&root));
    assert_eq!(
        drain.finalized.len() + drain.selected.len() + drain.released.len(),
        drain.obligations.len()
    );
}

#[test]
fn successor_epoch_finalization_cannot_advance_captured_frontier() {
    let root = slot(root(1, 2));
    let mut manager = RaiEpochManager::new(weights(1, 100), BlockHash::zero());
    manager.drains.insert(zero(), drain_of(vec![root]));
    manager.initialize_drain_frontiers(zero(), vec![(account(7), info(2, 20))]);
    manager.record_drain_evidence(zero(), &root, &final_evidence(1, hash(30)), &vec![(account(7), info(3, 30))]);

    // The ledger could by now be ahead in the next epoch; the drain never asks it.
    assert_eq!(*manager.drain_frontiers(zero()).unwrap().get(&account(7)).unwrap(), info(3, 30));
}

#[test]
fn negative_epochs_use_genesis() {
    let genesis = weights(1, 100);
    let manager = RaiEpochManager::new(genesis.clone(), hash(7));

    assert!(Arc::ptr_eq(&manager.committee_at(-1).unwrap(), &genesis));
    assert!(Arc::ptr_eq(&manager.committee_at(-100).unwrap(), &genesis));
}

#[test]
fn early_epochs_collapse_duplicate_genesis_committees() {
    let manager = RaiEpochManager::new(weights(1, 100), hash(7));

    assert_eq!(manager.slot_committees(RaiEpoch::new(0)).unwrap().len(), 1);
    assert_eq!(manager.slot_committees(RaiEpoch::new(1)).unwrap().len(), 1);
}

#[test]
fn later_slots_select_both_historical_snapshots() {
    let first = weights(1, 100);
    let second = weights(2, 200);
    let mut manager = RaiEpochManager::new(weights(9, 900), hash(7));
    manager.insert_committee(RaiEpoch::new(1), first.clone());
    manager.insert_committee(RaiEpoch::new(2), second.clone());

    let selected = manager.slot_committees(RaiEpoch::new(4)).unwrap();
    assert_eq!(selected.len(), 2);
    assert!(selected[0].agrees(&first));
    assert!(selected[1].agrees(&second));
}

#[test]
fn close_selects_epoch_minus_two() {
    let expected = weights(1, 100);
    let mut manager = RaiEpochManager::new(weights(9, 900), hash(7));
    manager.insert_committee(RaiEpoch::new(2), expected.clone());

    assert!(Arc::ptr_eq(&manager.close_committee(RaiEpoch::new(4)).unwrap(), &expected));
}

#[test]
fn recorded_snapshot_is_not_changed_with_live_weights() {
    let first = PublicKey::from(1);
    let second = PublicKey::from(2);
    let mut live = RepWeights::new();
    live.insert(first, Amount::raw(100));
    let mut manager = RaiEpochManager::new(weights(9, 900), hash(7));

    let frozen = manager.snapshot_committee(zero(), &live);
    live.insert(first, Amount::zero());
    live.insert(second, Amount::raw(200));

    assert_eq!(frozen.weight(&first), Amount::raw(100));
    assert_eq!(frozen.weight(&second), Amount::zero());
    assert!(manager.committee_at(0).unwrap().agrees(&frozen));
}

#[test]
fn missing_history_prevents_committee_selection_for_vote_validation() {
    let manager = RaiEpochManager::new(weights(1, 100), hash(7));

    assert!(manager.slot_committees(RaiEpoch::new(3)).is_none());
    assert!(manager.close_committee(RaiEpoch::new(2)).is_none());
}

#[test]
fn governing_hash_is_genesis_then_epoch_minus_two_close() {
    let genesis = hash(7);
    let mut manager = RaiEpochManager::new(weights(1, 100), genesis);
    manager.record_close_hash(RaiEpoch::new(0), hash(40));
    manager.record_close_hash(RaiEpoch::new(1), hash(41));

    assert_eq!(manager.governing_hash(RaiEpoch::new(0)), Some(genesis));
    assert_eq!(manager.governing_hash(RaiEpoch::new(1)), Some(genesis));
    assert_eq!(manager.governing_hash(RaiEpoch::new(2)), Some(hash(40)));
    assert_eq!(manager.governing_hash(RaiEpoch::new(3)), Some(hash(41)));
}

#[test]
fn missing_epoch_minus_two_close_has_no_governing_context() {
    let manager = RaiEpochManager::new(weights(1, 100), hash(7));

    assert_eq!(manager.governing_hash(RaiEpoch::new(2)), None);
}

#[test]
fn round_zero_cut_decision_freezes_obligations_and_is_immutable() {
    let obligation = slot(root(11, 12));
    let mut manager = closing_manager(vec![]);
    let (root, hash) = manager.begin_cut_election(vec![obligation]).unwrap();
    assert_eq!(root, rai_close_cut_root(zero(), 0));
    assert_eq!(manager.closing_epoch().unwrap().phase, RaiClosingPhase::ElectingCut);

    assert_eq!(manager.install_cut(zero(), 1, hash).err(), Some(CloseCutDecisionError::MissingPreimage));
    assert_eq!(manager.install_cut(zero(), 0, hash).unwrap().to_vec(), vec![obligation]);
    assert_eq!(manager.closing_epoch().unwrap().phase, RaiClosingPhase::Draining);
    assert_eq!(manager.decided_close_hash(zero()), Some(hash));
    assert_eq!(
        manager.install_cut(zero(), 0, BlockHash::from(999)).err(),
        Some(CloseCutDecisionError::ImmutableDecision)
    );
}

#[test]
fn certified_cut_remains_valid_after_fresh_visibility_grows() {
    let first = slot(root(11, 12));
    let late = slot(root(21, 22));
    let mut manager = closing_manager(vec![]);
    let (_, certified) = manager.begin_cut_election(vec![first]).unwrap();

    let fresh = manager.refresh_close_cut_candidate(zero(), 0, vec![first, late]).unwrap();
    assert_ne!(fresh, certified);

    assert_eq!(manager.install_cut(zero(), 0, certified).unwrap().to_vec(), vec![first]);
    assert_eq!(manager.decided_close_hash(zero()), Some(certified));
}

#[test]
fn cut_starts_at_w_minus_f_report_weight() {
    let mut committee = RepWeights::new();
    committee.insert(PublicKey::from(1), Amount::raw(8));
    committee.insert(PublicKey::from(2), Amount::raw(9));
    committee.insert(PublicKey::from(3), Amount::raw(3));
    let mut manager = RaiEpochManager::new(Arc::new(committee), hash(7));
    manager.start_closing(NOW);
    manager.reports_mut().insert(report(1, vec![]), true).unwrap();

    assert!(manager.begin_cut_election(vec![]).is_none());
    assert_eq!(manager.closing_epoch().unwrap().phase, RaiClosingPhase::CollectingReports);

    manager.reports_mut().insert(report(2, vec![]), true).unwrap();
    assert!(manager.begin_cut_election(vec![]).is_some());
    assert_eq!(manager.closing_epoch().unwrap().phase, RaiClosingPhase::ElectingCut);
}

#[test]
fn advance_gate_skips_pending_and_decided_cut_candidates() {
    let mut manager = closing_manager(vec![]);
    let (_, selected) = manager.begin_cut_election(vec![]).unwrap();
    assert_eq!(manager.close_cuts.all().len(), 1);

    manager.visible_obligations.get_mut(&zero()).unwrap().insert(slot(root(11, 12)));
    assert!(manager.advance_close_cut_round().is_none());
    assert_eq!(manager.close_cuts.all().len(), 1);

    assert!(manager.store_close_cut_evidence(zero(), 0, final_evidence(1, selected)));
    manager.visible_obligations.get_mut(&zero()).unwrap().insert(slot(root(13, 14)));
    assert!(manager.advance_close_cut_round().is_none());
    assert_eq!(manager.close_cuts.all().len(), 1);
    assert_eq!(manager.close_cut_round(zero()), Some(0));
}

#[test]
fn advance_gate_materializes_dead_cut_candidate() {
    let later = slot(root(11, 12));
    let mut manager = closing_manager(vec![]);
    manager.begin_cut_election(vec![]).unwrap();
    manager.visible_obligations.get_mut(&zero()).unwrap().insert(later);
    assert!(manager.store_close_cut_evidence(zero(), 0, timeout_evidence(1)));

    let (_, fresh) = manager.advance_close_cut_round().unwrap();
    assert_eq!(manager.close_cuts.all().len(), 2);
    assert_eq!(manager.close_cut_round(zero()), Some(1));
    assert_eq!(manager.close_cuts.get(&fresh).unwrap().obligations.to_vec(), vec![later]);
}

#[test]
fn advance_gate_skips_pending_record_and_carries_live_hash() {
    let mut manager = closing_manager(vec![]);
    let (_, cut) = manager.begin_cut_election(vec![]).unwrap();
    assert!(manager.install_cut(zero(), 0, cut).is_ok());
    manager.initialize_drain_frontiers(zero(), vec![]);
    let (_, selected) = manager.begin_close_record(RepWeights::new()).unwrap();
    assert_eq!(manager.close_records.all().len(), 1);

    manager.drain_frontiers.get_mut(&zero()).unwrap().insert(account(1), info(1, 10));
    assert!(manager.advance_close_record_round(&vec![(account(2), info(2, 20))]).is_none());
    assert_eq!(manager.close_records.all().len(), 1);

    assert!(manager.store_close_record_evidence(zero(), 0, notarized_evidence(1, selected)));
    manager.drain_frontiers.get_mut(&zero()).unwrap().insert(account(3), info(3, 30));
    let (_, carried) = manager.advance_close_record_round(&vec![(account(4), info(4, 40))]).unwrap();
    assert_eq!(carried, selected);
    assert_eq!(manager.close_record_round(zero()), Some(1));
    assert_eq!(manager.close_records.all().len(), 1);
}

#[test]
fn cut_exclusion_releases_only_after_certified_close_installation() {
    let old = slot(root(11, 12));
    let mut manager = RaiEpochManager::new(weights(1, 100), hash(7));
    manager.record_known_slot(old);
    manager.start_closing(NOW);
    manager.reports_mut().insert(report(1, vec![]), true).unwrap();
    let (_, cut) = manager.begin_cut_election(vec![]).unwrap();
    assert!(manager.install_cut(zero(), 0, cut).is_ok());

    assert!(manager.certified_release(&old).is_none());

    manager.initialize_drain_frontiers(zero(), vec![]);
    let (_, close) = manager.begin_close_record(RepWeights::new()).unwrap();
    assert!(manager.install_close_record(zero(), 0, close).is_ok());

    assert_eq!(
        manager.certified_release(&old),
        Some(&RaiCertifiedRelease { close_epoch: zero(), close_record_hash: close })
    );
    assert!(!manager.slot_election_enabled(old.epoch, &old.root));
}

#[test]
fn included_timeout_release_enables_successor_retry_after_close_installation() {
    let old = slot(root(11, 12));
    let retry = RaiSlotId { epoch: RaiEpoch::new(1), root: old.root };
    let mut manager = closing_manager(vec![old]);
    let (_, cut) = manager.begin_cut_election(vec![old]).unwrap();
    assert!(manager.install_cut(zero(), 0, cut).is_ok());
    manager.initialize_drain_frontiers(zero(), vec![]);
    assert_eq!(
        manager.record_drain_evidence(zero(), &old, &timeout_evidence(1), &vec![]),
        Some(RaiDrainOutcome::ReleasedTimeout)
    );
    assert!(!manager.slot_election_enabled(retry.epoch, &retry.root));

    let (_, close) = manager.begin_close_record(RepWeights::new()).unwrap();
    assert!(manager.install_close_record(zero(), 0, close).is_ok());

    assert_eq!(
        manager.certified_release(&old),
        Some(&RaiCertifiedRelease { close_epoch: zero(), close_record_hash: close })
    );
    assert!(!manager.slot_election_enabled(old.epoch, &old.root));
    assert!(manager.slot_election_enabled(retry.epoch, &retry.root));
}

#[test]
fn certified_release_is_epoch_qualified() {
    let root = root(11, 12);
    let old = RaiSlotId { epoch: zero(), root };
    let retry = RaiSlotId { epoch: RaiEpoch::new(1), root };
    let later_retry = RaiSlotId { epoch: RaiEpoch::new(2), root };
    let mut manager = RaiEpochManager::new(weights(1, 100), hash(7));
    manager.record_known_slot(old);
    manager.record_known_slot(retry);
    manager.start_closing(NOW);
    manager.reports_mut().insert(report(1, vec![]), true).unwrap();
    let (_, cut) = manager.begin_cut_election(vec![]).unwrap();
    assert!(manager.install_cut(zero(), 0, cut).is_ok());

    // The successor epoch is open, but an unresolved old root stays disabled
    // there until the close certifies a release of the old slot.
    assert!(!manager.slot_election_enabled(retry.epoch, &retry.root));
    manager.initialize_drain_frontiers(zero(), vec![]);
    let (_, close) = manager.begin_close_record(RepWeights::new()).unwrap();
    assert!(manager.install_close_record(zero(), 0, close).is_ok());

    assert!(manager.certified_release(&old).is_some());
    assert!(manager.certified_release(&retry).is_none());
    assert!(manager.slot_election_enabled(retry.epoch, &retry.root));
    // The release moves the lock of the root on to the next epoch; it must not
    // enable every later retry.
    assert!(!manager.slot_election_enabled(later_retry.epoch, &later_retry.root));
}

#[test]
fn six_replicas_refresh_a_dead_split_record_round_from_exact_slot_payload() {
    const REPLICAS: usize = 6;
    let committee = weights(1, 100);
    let slot = slot(root(11, 12));
    let selected = hash(22);
    let account = account(33);
    let selected_frontier = ConfirmationHeightInfo::new(1, selected);
    let mut replicas: Vec<RaiEpochManager> =
        (0..REPLICAS).map(|_| RaiEpochManager::new(committee.clone(), hash(7))).collect();

    let mut round_zero = Vec::new();
    for (index, replica) in replicas.iter_mut().enumerate() {
        assert!(replica.start_closing(NOW));
        replica.reports_mut().insert(report(1, vec![]), true).unwrap();
        let (_, cut) = replica.begin_cut_election(vec![slot]).unwrap();
        assert!(replica.install_cut(zero(), 0, cut).is_ok());
        assert!(replica.initialize_drain_frontiers(zero(), vec![]));

        // Every replica derives the same resolution of the slot, but only half
        // of them have the validated block at first.
        let segment = if index >= REPLICAS / 2 { vec![(account, selected_frontier)] } else { vec![] };
        assert_eq!(
            replica.record_notarized_drain(zero(), &slot, selected, &segment),
            Some(RaiDrainOutcome::Selected(selected))
        );
        round_zero.push(replica.begin_close_record(committee.duplicate_weights()).unwrap().1);
        assert!(replica.store_close_record_evidence(zero(), 0, timeout_evidence(1)));
    }
    assert!(round_zero[..REPLICAS / 2].windows(2).all(|pair| pair[0] == pair[1]));
    assert!(round_zero[REPLICAS / 2..].windows(2).all(|pair| pair[0] == pair[1]));
    assert_ne!(round_zero[0], round_zero[REPLICAS / 2]);

    let mut round_one = Vec::new();
    for replica in &mut replicas {
        // A segment is taken in only for the very block that the replica's own
        // certificates selected.
        assert_eq!(
            replica.record_notarized_drain(zero(), &slot, selected, &vec![(account, selected_frontier)]),
            Some(RaiDrainOutcome::Selected(selected))
        );
        round_one.push(replica.advance_close_record_round(&vec![]).unwrap().1);
    }
    assert!(round_one.windows(2).all(|pair| pair[0] == pair[1]));
    assert_eq!(round_one[0], round_zero[REPLICAS / 2]);

    for replica in &mut replicas {
        assert!(replica.store_close_record_evidence(zero(), 1, final_evidence(1, round_one[0])));
        let tracker = replica.record_rounds.get_mut(&zero()).unwrap();
        assert_eq!(tracker.round(1).unwrap().derive(), RaiCloseRoundResult::Decided(round_one[0]));
        assert!(tracker.decide(1, round_one[0]));
        assert_eq!(tracker.decision(), Some((1, round_one[0])));
    }
}

trait DuplicateWeights {
    fn duplicate_weights(&self) -> RepWeights;
}

impl DuplicateWeights for Arc<RepWeights> {
    fn duplicate_weights(&self) -> RepWeights {
        self.as_ref().duplicate()
    }
}

#[test]
fn six_replicas_close_release_and_retry_deterministically() {
    const REPLICAS: u64 = 6;
    let mut members = RepWeights::new();
    for key in 1..=REPLICAS {
        members.insert(PublicKey::from(key), Amount::raw(1));
    }
    let committee = Arc::new(members);
    let mut replicas: Vec<RaiEpochManager> =
        (0..REPLICAS).map(|_| RaiEpochManager::new(committee.clone(), hash(7))).collect();

    let included: Vec<RaiSlotId> = (1..=3u64).map(|number| slot(root(number, number + 10))).collect();
    let omitted = slot(root(90, 91));
    let retry = RaiSlotId { epoch: RaiEpoch::new(1), root: omitted.root };

    // Every replica knows the old minority candidate, but only one member reports it.
    for replica in &mut replicas {
        for slot in included.iter().chain([&omitted]) {
            replica.record_known_slot(*slot);
        }
        assert!(replica.start_closing(NOW));
        assert_eq!(replica.current_epoch(), RaiEpoch::new(1));
        assert!(replica.certified_release(&omitted).is_none());
    }
    for replica in &mut replicas {
        for key in 1..=REPLICAS {
            let mut visible = included.clone();
            if key == 1 {
                visible.push(omitted);
            }
            replica.reports_mut().insert(report(key, visible), true).unwrap();
        }
    }

    let cut_hashes: Vec<BlockHash> =
        replicas.iter_mut().map(|replica| replica.begin_cut_election(vec![]).unwrap().1).collect();
    assert!(cut_hashes.windows(2).all(|pair| pair[0] == pair[1]));
    for (replica, cut) in replicas.iter_mut().zip(&cut_hashes) {
        assert_eq!(
            replica.install_cut(zero(), 0, *cut).unwrap().to_vec(),
            SortedSet::from_vec(&included).to_vec()
        );
    }

    let account = account(44);
    let candidate_hashes = [hash(101), hash(102), hash(103)];
    for replica in &mut replicas {
        assert!(replica.initialize_drain_frontiers(zero(), vec![(account, info(1, 100))]));
        for (index, slot) in included.iter().enumerate() {
            // Four of six equal members are exactly the final threshold.
            let mut evidence = RaiElectionVoteState::new(vec![committee.clone()]);
            for key in 1..=4 {
                evidence
                    .record_final_vote(PublicKey::from(key), candidate_hashes[index], RaiCommitteeScope::All)
                    .unwrap();
            }
            let segment = vec![(account, ConfirmationHeightInfo::new(index as u64 + 2, candidate_hashes[index]))];
            assert_eq!(
                replica.record_drain_evidence(zero(), slot, &evidence, &segment),
                Some(RaiDrainOutcome::Finalized(candidate_hashes[index]))
            );
        }
    }

    let close_hashes: Vec<BlockHash> =
        replicas.iter_mut().map(|replica| replica.begin_close_record(RepWeights::new()).unwrap().1).collect();
    assert!(close_hashes.windows(2).all(|pair| pair[0] == pair[1]));

    // A retry of the same root in the successor epoch is not released before the
    // close record is installed, and its epoch tells it apart from the old one.
    assert!(replicas.iter().all(|replica| replica.certified_release(&omitted).is_none()));
    assert_ne!(omitted, retry);

    let expected_frontier = ConfirmationHeightInfo::new(4, candidate_hashes[2]);
    for (replica, close) in replicas.iter_mut().zip(&close_hashes) {
        let installed =
            replica.install_certified_close_record(zero(), 0, *close, committee.duplicate_weights()).unwrap();
        assert_eq!(*installed.get(&account).unwrap(), expected_frontier);
    }

    for replica in &replicas {
        assert_eq!(replica.released_slots().keys_vec(), vec![omitted]);
        assert!(replica.certified_release(&omitted).is_some());
        assert!(replica.certified_release(&retry).is_none());
        assert!(replica.slot_election_enabled(retry.epoch, &retry.root));
        let finalized = &replica.happy_path_drain(zero()).unwrap().finalized;
        assert_eq!(finalized.len(), included.len());
        for (slot, hash) in included.iter().zip(candidate_hashes) {
            assert_eq!(finalized.get(slot), Some(&hash));
        }
    }
    assert!(replicas.windows(2).all(|pair| same_frontiers(
        pair[0].drain_frontiers(zero()).unwrap(),
        pair[1].drain_frontiers(zero()).unwrap()
    )));
}

#[test]
fn lagging_drain_retains_and_installs_remote_close_record() {
    let mut manager = closing_manager(vec![]);
    let (_, cut) = manager.begin_cut_election(vec![]).unwrap();
    assert!(manager.install_cut(zero(), 0, cut).is_ok());

    let remote = RaiCloseRecord::new(zero(), BlockHash::zero(), vec![(account(1), info(2, 20))]);
    let remote_hash = remote.hash();

    assert_eq!(manager.closing_epoch().unwrap().phase, RaiClosingPhase::Draining);
    assert_eq!(manager.reconcile_close_record(remote, 0), Some((zero(), 0, remote_hash)));
    assert!(manager.initialize_drain_frontiers(zero(), vec![(account(1), info(1, 10))]));
    let (_, local_hash) = manager.begin_close_record(plain_weights(1, 100)).unwrap();
    assert_ne!(local_hash, remote_hash);
    assert!(manager
        .close_record_tracker(zero())
        .unwrap()
        .round(0)
        .unwrap()
        .validated_preimages
        .contains(&remote_hash));

    let installed =
        manager.install_certified_close_record(zero(), 0, remote_hash, plain_weights(1, 100)).unwrap();
    assert_eq!(installed.get(&account(1)).unwrap().frontier, hash(20));
}

#[test]
fn close_record_waits_for_drain_validates_and_is_immutable() {
    let mut manager = closing_manager(vec![]);
    let (_, cut) = manager.begin_cut_election(vec![]).unwrap();
    assert!(manager.install_cut(zero(), 0, cut).is_ok());
    let frontiers = vec![(account(1), info(4, 40))];

    assert!(manager.begin_close_record(RepWeights::new()).is_none());
    assert!(manager.initialize_drain_frontiers(zero(), frontiers.clone()));
    let (root, close) = manager.begin_close_record(plain_weights(2, 200)).unwrap();
    assert_eq!(root, rai_close_record_root(zero(), 0));

    let mut expected = RaiFrontierMap::new();
    expected.insert(account(1), info(4, 40));
    let refused = |_: RaiEpoch, committed: &RaiFrontierMap| {
        assert!(same_frontiers(committed, &expected));
        false
    };
    assert_eq!(
        manager.install_certified_close_record_after(zero(), 0, close, plain_weights(2, 200), refused).err(),
        Some(CloseRecordDecisionError::LedgerCommitFailed)
    );
    assert_eq!(manager.closing_epoch().unwrap().phase, RaiClosingPhase::ElectingRecord);
    assert_eq!(manager.state().closed_through, None);
    assert_eq!(manager.installed_close_hash(zero()), None);

    assert!(same_frontiers(
        manager.install_certified_close_record(zero(), 0, close, plain_weights(2, 200)).unwrap(),
        &expected
    ));
    assert!(manager.closing_epoch().is_none());
    assert_eq!(manager.current_epoch(), RaiEpoch::new(1));
    assert_eq!(manager.committee_at(0).unwrap().weight(&PublicKey::from(2)), Amount::raw(200));
    assert_eq!(manager.installed_close_hash(zero()), Some(close));
    assert_eq!(
        manager.install_close_record(zero(), 0, hash(99)).err(),
        Some(CloseRecordDecisionError::ImmutableDecision)
    );
    assert!(manager.install_certified_close_record(zero(), 0, close, plain_weights(3, 300)).is_ok());
    assert_eq!(manager.current_epoch(), RaiEpoch::new(1));
    assert_eq!(manager.committee_at(0).unwrap().weight(&PublicKey::from(3)), Amount::zero());

    let uncalled = |_: RaiEpoch, _: &RaiFrontierMap| -> bool { panic!("a closed epoch commits nothing") };
    assert!(manager.install_certified_close_record_after(zero(), 5, close, plain_weights(3, 300), uncalled).is_ok());
    assert_eq!(
        manager.install_certified_close_record_after(zero(), 0, hash(99), plain_weights(3, 300), uncalled).err(),
        Some(CloseRecordDecisionError::ImmutableDecision)
    );

    let durable = manager.durable_close_state(zero()).unwrap();
    let mut restarted = RaiEpochManager::new(weights(1, 100), hash(7));
    restarted.restore_close_state(durable).unwrap();
    assert!(restarted.closing_epoch().is_none());
    assert_eq!(restarted.current_epoch(), RaiEpoch::new(1));
    assert!(restarted.committee_at(0).unwrap().agrees(&manager.committee_at(0).unwrap()));
    assert_eq!(restarted.installed_close_hash(zero()), Some(close));
    assert_eq!(restarted.governing_hash(RaiEpoch::new(1)), Some(hash(7)));
}

#[test]
fn pending_cut_obligation_blocks_record_creation() {
    let obligation = slot(root(11, 12));
    let nothing = root(0, 0);
    let mut manager = closing_manager(vec![]);
    let (_, cut) = manager.begin_cut_election(vec![obligation]).unwrap();
    assert!(manager.install_cut(zero(), 0, cut).is_ok());

    assert!(!manager.slot_election_enabled(zero(), &nothing));
    assert!(manager.slot_election_enabled(zero(), &obligation.root));
    assert!(manager.slot_election_enabled(RaiEpoch::new(1), &nothing));
    assert!(!manager.slot_election_enabled(RaiEpoch::new(1), &obligation.root));
    assert!(manager.begin_close_record(RepWeights::new()).is_none());
}

#[test]
fn closing_epoch_zero_keeps_epoch_one_open_and_addressable() {
    let mut manager = RaiEpochManager::new(weights(1, 100), hash(7));

    assert!(manager.start_closing(NOW));
    assert_eq!(manager.current_epoch(), RaiEpoch::new(1));
    assert_eq!(manager.state().open_started_at, NOW);
    assert_eq!(
        manager.closing_epoch(),
        Some(RaiClosingEpoch { epoch: zero(), phase: RaiClosingPhase::CollectingReports })
    );
    assert!(!manager.start_closing(NOW));
    assert_eq!(manager.current_epoch(), RaiEpoch::new(1));
    assert_eq!(manager.closing_epoch().unwrap().epoch, zero());
}

#[test]
fn close_transitions_are_idempotent() {
    let mut manager = closing_manager(vec![]);
    let (_, cut) = manager.begin_cut_election(vec![]).unwrap();
    assert!(manager.begin_cut_election(vec![]).is_none());
    assert!(manager.install_cut(zero(), 0, cut).is_ok());
    assert!(manager.install_cut(zero(), 0, cut).is_ok());

    manager.initialize_drain_frontiers(zero(), vec![(account(1), info(4, 40))]);
    let (_, record) = manager.begin_close_record(RepWeights::new()).unwrap();
    assert!(manager.begin_close_record(RepWeights::new()).is_none());
    assert!(manager.install_close_record(zero(), 0, record).is_ok());
    assert!(manager.install_close_record(zero(), 0, record).is_ok());
    assert_eq!(manager.state().closed_through, Some(zero()));
}

#[test]
fn replicas_bind_close_record_to_the_drained_cut() {
    let frontiers = vec![(account(2), info(5, 50)), (account(1), info(4, 40))];
    let mut hashes = Vec::new();

    for _ in 0..4 {
        let mut manager = closing_manager(vec![]);
        let (_, cut) = manager.begin_cut_election(vec![]).unwrap();
        assert!(manager.install_cut(zero(), 0, cut).is_ok());
        manager.initialize_drain_frontiers(zero(), frontiers.clone());
        hashes.push(manager.begin_close_record(RepWeights::new()).unwrap().1);
    }

    assert!(hashes.windows(2).all(|pair| pair[0] == pair[1]));
}

#[test]
fn close_record_rejects_unknown_and_noncanonical_preimages() {
    let mut manager = closing_manager(vec![]);
    let (_, cut) = manager.begin_cut_election(vec![]).unwrap();
    assert!(manager.install_cut(zero(), 0, cut).is_ok());
    let frontiers = vec![(account(1), info(4, 40))];
    manager.initialize_drain_frontiers(zero(), frontiers.clone());
    let (_, canonical) = manager.begin_close_record(RepWeights::new()).unwrap();

    assert_eq!(
        manager.install_close_record(zero(), 0, hash(999)).err(),
        Some(CloseRecordDecisionError::MissingPreimage)
    );

    for invalid in [
        RaiCloseRecord::new(zero(), hash(123), frontiers),
        RaiCloseRecord::new(zero(), BlockHash::zero(), vec![(account(1), info(5, 50))]),
    ] {
        let invalid_hash = manager.close_records.insert(invalid);
        manager.record_rounds.get_mut(&zero()).unwrap().add_validated_preimage(0, invalid_hash);
        assert_eq!(
            manager.install_close_record(zero(), 0, invalid_hash).err(),
            Some(CloseRecordDecisionError::InvalidRecord)
        );
    }

    assert!(manager.install_close_record(zero(), 0, canonical).is_ok());
    assert!(manager.install_close_record(zero(), 0, canonical).is_ok());
    assert_eq!(
        manager.install_close_record(zero(), 0, hash(998)).err(),
        Some(CloseRecordDecisionError::ImmutableDecision)
    );
}

#[test]
fn a_restart_takes_the_close_rounds_up_again() {
    let mut manager = closing_manager(vec![]);
    manager.begin_cut_election(vec![slot(root(11, 12))]).unwrap();
    let durable = manager.durable_close_round_state().unwrap();
    let mut restarted = RaiEpochManager::new(weights(1, 100), hash(7));
    restarted.restore_close_round_state(durable).unwrap();
    assert_eq!(restarted.closing_epoch(), manager.closing_epoch());
    assert_eq!(restarted.close_cut_round(zero()), Some(0));
}

#[test]
fn repeated_refresh_of_the_cut_has_nothing_to_add() {
    let mut manager = closing_manager(vec![]);
    manager.begin_cut_election(vec![]).unwrap();
    let later = slot(root(11, 12));

    let refreshed = manager.refresh_close_cut_candidate(zero(), 0, vec![later]).unwrap();
    assert_eq!(manager.close_cuts.get(&refreshed).unwrap().obligations.to_vec(), vec![later]);
    assert_eq!(manager.close_cut_round(zero()), Some(0));
    let cuts = manager.close_cuts.all().len();

    assert_eq!(manager.refresh_close_cut_candidate(zero(), 0, vec![later]), None);
    assert_eq!(manager.close_cuts.all().len(), cuts);
}

#[test]
fn refused_records_are_not_committed() {
    let uncalled = |_: RaiEpoch, _: &RaiFrontierMap| -> bool { panic!("a refused record is committed") };
    let mut manager = closing_manager(vec![]);
    let (_, cut) = manager.begin_cut_election(vec![]).unwrap();
    assert!(manager.install_cut(zero(), 0, cut).is_ok());
    assert!(manager.initialize_drain_frontiers(zero(), vec![(account(1), info(4, 40))]));
    let (_, close) = manager.begin_close_record(plain_weights(2, 200)).unwrap();

    assert_eq!(
        manager.install_certified_close_record_after(zero(), 0, hash(99), RepWeights::new(), uncalled).err(),
        Some(CloseRecordDecisionError::MissingPreimage)
    );
    assert!(manager.install_certified_close_record_after(zero(), 7, close, RepWeights::new(), uncalled).is_err());
    assert!(manager
        .install_certified_close_record_after(RaiEpoch::new(1), 0, close, RepWeights::new(), uncalled)
        .is_err());
    assert_eq!(manager.installed_close_hash(zero()), None);
}
