use rai_consensus::close_state::{EpochRecord, RaiCloseState};
use rai_consensus::close_values::{RaiClosedSlotState, VisibleSlots};
use rai_consensus::frontier_record::{RaiFrontierRecord, RaiFrontiers};
use rai_consensus::ordered::{Duplicate, SortedMap, SortedSet};
use rai_consensus::reconciliation::{
    RaiCloseReconDelta, RaiCloseReconError, RaiCloseReconMiss, RaiCloseReconRequest, RaiCloseReconciler,
    RaiCloseVersionKind, RaiFrontierReplacement,
};
use rai_consensus::types::{Account, BlockHash, RaiSlot};

fn cut(slots: Vec<RaiSlot>) -> VisibleSlots {
    SortedSet::from_vec(&slots)
}

fn frontiers(entries: Vec<(Account, BlockHash)>) -> RaiFrontiers {
    let mut frontiers = SortedMap::new();
    for (account, hash) in entries {
        frontiers.insert(account, hash);
    }
    frontiers
}

fn slot(account: u64, height: u64) -> RaiSlot {
    RaiSlot::new(Account::from(account), height)
}

#[test]
fn cut_delta_round_trip_is_hash_checked_and_cached() {
    let mut responder = RaiCloseState::<RaiFrontierRecord>::new();
    responder.mark_visible(0, slot(1, 1));
    let base_hash = responder.record_current_close_value(0);
    responder.mark_visible(0, slot(2, 1));
    let target_hash = responder.current_close_hash(0);

    let request = RaiCloseReconRequest {
        kind: RaiCloseVersionKind::Cut,
        epoch: 0,
        base_hash,
        target_hash,
    };
    let delta = RaiCloseReconciler::make_delta(&responder, &request).unwrap();

    let mut requester = RaiCloseState::<RaiFrontierRecord>::new();
    assert!(requester.cache_close_value(0, base_hash, cut(vec![slot(1, 1)])));
    let reconstructed =
        RaiCloseReconciler::apply_cut(&mut requester, &delta, |_| true).unwrap();
    assert_eq!(
        reconstructed,
        cut(vec![slot(1, 1), slot(2, 1)])
    );
    assert_eq!(requester.close_value(0, &target_hash), Some(&reconstructed));
}

#[test]
fn cut_delta_rejects_wrong_target_without_caching() {
    let base: VisibleSlots = cut(vec![slot(1, 1)]);
    let base_hash = RaiCloseState::<RaiFrontierRecord>::hash_close_cut(&base);
    let mut requester = RaiCloseState::<RaiFrontierRecord>::new();
    requester.cache_close_value(0, base_hash, base);
    let bogus_hash = BlockHash::from(99);
    let delta = RaiCloseReconDelta::Cut {
        epoch: 0,
        base_hash,
        target_hash: bogus_hash,
        added: cut(vec![slot(2, 1)]),
        removed: SortedSet::new(),
    };

    assert_eq!(
        RaiCloseReconciler::apply_cut(&mut requester, &delta, |_| true),
        Err(RaiCloseReconError::HashMismatch)
    );
    assert!(requester.close_value(0, &bogus_hash).is_none());
}

#[test]
fn frontier_delta_checks_expected_old_values_and_hash() {
    let mut responder = RaiCloseState::<RaiFrontierRecord>::new();
    responder.start_closing(0).unwrap();
    responder
        .install_cut(0, cut(vec![slot(1, 1)]))
        .unwrap();
    responder
        .record_cut_drain(0, &vec![(slot(1, 1), RaiClosedSlotState::Finalized(BlockHash::from(7)))])
        .unwrap();
    let base_hash = responder
        .record_current_close_record_value_with_frontiers(
            0,
            frontiers(vec![(Account::from(1), BlockHash::from(6))]),
        )
        .unwrap();
    let target_hash = responder.record_current_close_record_value(0).unwrap();
    let request = RaiCloseReconRequest {
        kind: RaiCloseVersionKind::Frontiers,
        epoch: 0,
        base_hash,
        target_hash,
    };
    let delta = RaiCloseReconciler::make_delta(&responder, &request).unwrap();
    let entries = responder
        .close_record_value(0, &target_hash)
        .unwrap()
        .entries
        .duplicate();

    let record =
        RaiCloseReconciler::apply_frontiers(&mut responder, &delta, entries, |_, _| true)
            .unwrap();
    assert_eq!(record.hash(), target_hash);
    assert_eq!(record.frontiers.get(&Account::from(1)), Some(&BlockHash::from(7)));
}

#[test]
fn responder_returns_miss_unless_both_preimages_are_retained() {
    let state = RaiCloseState::<RaiFrontierRecord>::new();
    let request = RaiCloseReconRequest {
        kind: RaiCloseVersionKind::Cut,
        epoch: 0,
        base_hash: BlockHash::from(1),
        target_hash: BlockHash::from(2),
    };
    assert_eq!(
        RaiCloseReconciler::make_delta(&state, &request),
        Err(RaiCloseReconMiss(request))
    );
}

#[test]
fn refused_deltas_name_their_reason() {
    let base = cut(vec![slot(1, 1)]);
    let base_hash = RaiCloseState::<RaiFrontierRecord>::hash_close_cut(&base);
    let mut state = RaiCloseState::<RaiFrontierRecord>::new();
    let delta = |added: VisibleSlots, removed: VisibleSlots, target_hash: BlockHash| RaiCloseReconDelta::Cut {
        epoch: 0,
        base_hash,
        target_hash,
        added,
        removed,
    };
    let grown_hash = RaiCloseState::<RaiFrontierRecord>::hash_close_cut(&cut(vec![slot(1, 1), slot(2, 1)]));
    let growth = delta(cut(vec![slot(2, 1)]), SortedSet::new(), grown_hash);
    assert_eq!(
        RaiCloseReconciler::apply_cut(&mut state, &growth, |_| true),
        Err(RaiCloseReconError::MissingBase)
    );

    state.cache_close_value(0, base_hash, base);
    let absent = delta(SortedSet::new(), cut(vec![slot(9, 1)]), grown_hash);
    assert_eq!(
        RaiCloseReconciler::apply_cut(&mut state, &absent, |_| true),
        Err(RaiCloseReconError::InvalidDelta)
    );
    assert_eq!(
        RaiCloseReconciler::apply_cut(&mut state, &growth, |_| false),
        Err(RaiCloseReconError::Inadmissible)
    );
    assert!(state.close_value(0, &grown_hash).is_none());
    assert_eq!(
        RaiCloseReconciler::apply_frontiers(&mut state, &growth, SortedMap::new(), |_, _| true),
        Err(RaiCloseReconError::WrongDeltaKind)
    );
    let replacement =
        RaiFrontierReplacement { account: Account::from(1), old: None, new: Some(BlockHash::from(3)) };
    let foreign = RaiCloseReconDelta::Frontiers {
        epoch: 0,
        base_hash: BlockHash::from(5),
        target_hash: BlockHash::from(6),
        replacements: vec![replacement],
    };
    assert_eq!(
        RaiCloseReconciler::apply_frontiers(&mut state, &foreign, SortedMap::new(), |_, _| true),
        Err(RaiCloseReconError::MissingBase)
    );
}
