use rai_consensus::close_state::{
    RaiCloseRecord, RaiCloseState, RaiEpochPhase, RaiEpochTransitionError, RaiPendingReportInsertError,
};
use rai_consensus::close_values::{RaiClosedSlotState, RaiVisibilityTracker};
use rai_consensus::ordered::{Duplicate, SortedMap, SortedSet};
use rai_consensus::types::{Account, BlockHash, PublicKey, RaiPendingReport, RaiSlot};

#[test]
fn stores_one_pending_report_per_reporter_per_epoch() {
    let key = PublicKey::from(1);
    let reporter = key;
    let mut state = RaiCloseState::<RaiCloseRecord>::new();
    let first = RaiPendingReport::new(key, 7, vec![slot(1)]);
    let duplicate = RaiPendingReport::new(key, 7, vec![slot(2)]);

    assert_eq!(state.insert_pending_report(first.duplicate()), Ok(()));
    assert_eq!(
        state.insert_pending_report(duplicate),
        Err(RaiPendingReportInsertError::Duplicate)
    );

    assert_eq!(state.pending_report_count(7), 1);
    assert_eq!(state.pending_report(7, &reporter), Some(&first));
    assert_eq!(
        state.insert_pending_report(RaiPendingReport::new(key, 8, vec![slot(2)])),
        Ok(())
    );
    assert_eq!(state.pending_report_count(8), 1);
}

#[test]
fn stores_reports_from_different_reporters_in_the_same_epoch() {
    let key1 = PublicKey::from(1);
    let key2 = PublicKey::from(2);
    let mut state = RaiCloseState::<RaiCloseRecord>::new();

    assert_eq!(
        state.insert_pending_report(RaiPendingReport::new(key1, 7, vec![slot(1)])),
        Ok(())
    );
    assert_eq!(
        state.insert_pending_report(RaiPendingReport::new(key2, 7, vec![slot(2)])),
        Ok(())
    );

    assert_eq!(state.pending_report_count(7), 2);
}

#[test]
fn tracks_visible_slots() {
    let mut state = RaiCloseState::<RaiCloseRecord>::new();

    assert_eq!(state.mark_visible(7, slot(2)), true);
    assert_eq!(state.mark_visible(7, slot(2)), false);
    assert_eq!(state.mark_visible(7, slot(1)), true);

    assert!(state.is_visible(7, &slot(1)));
    assert!(state.is_visible(7, &slot(2)));
    assert_eq!(
        state
            .visible_slots(7)
            .unwrap()
                .to_vec(),
        vec![slot(1), slot(2)]
    );
}

#[test]
fn records_current_close_value_for_visible_snapshot() {
    let mut state = RaiCloseState::<RaiCloseRecord>::new();
    state.mark_visible_slots(7, &vec![slot(1), slot(2)]);

    let hash = state.record_current_close_value(7);

    assert_eq!(
        state
            .close_value(7, &hash)
            .unwrap()
                .to_vec(),
        vec![slot(1), slot(2)]
    );
    assert_eq!(state.current_close_hash(7), hash);
}

#[test]
fn expanding_visible_epoch_records_new_close_hash() {
    let mut state = RaiCloseState::<RaiCloseRecord>::new();
    state.mark_visible(7, slot(1));
    let first_hash = state.record_current_close_value(7);

    assert!(state.mark_visible_slots(7, &vec![slot(2), slot(3)]));
    let second_hash = state.current_close_hash(7);

    assert_ne!(first_hash, second_hash);
    assert_eq!(
        state
            .close_value(7, &first_hash)
            .unwrap()
                .to_vec(),
        vec![slot(1)]
    );
    assert_eq!(
        state
            .close_value(7, &second_hash)
            .unwrap()
                .to_vec(),
        vec![slot(1), slot(2), slot(3)]
    );
    assert_eq!(state.close_values(7).unwrap().len(), 2);
}

#[test]
fn close_hash_is_stable_across_visible_slot_insertion_order() {
    let mut left = RaiVisibilityTracker::new();
    let mut right = RaiVisibilityTracker::new();

    left.mark_visible_slots(&vec![slot(1), slot(2), slot(3)]);
    right.mark_visible_slots(&vec![slot(3), slot(1), slot(2)]);

    assert_eq!(left.current_close_hash(), right.current_close_hash());
}

#[test]
fn initializes_epoch_zero_open() {
    let state = RaiCloseState::<RaiCloseRecord>::new();

    assert_eq!(state.current_epoch(), 0);
    assert_eq!(state.current_epoch_phase(), RaiEpochPhase::Open);
}

#[test]
fn transitions_open_to_closing_to_closed_and_opens_next_epoch() {
    let mut state = RaiCloseState::<RaiCloseRecord>::new();
    let cut = SortedSet::from_vec(&vec![slot(1)]);
    let closed_state = RaiClosedSlotState::Finalized(BlockHash::from(7));

    assert_eq!(state.start_closing(0), Ok(()));
    assert_eq!(state.current_epoch_phase(), RaiEpochPhase::Closing);
    assert_eq!(state.install_cut(0, cut), Ok(true));
    assert_eq!(state.record_cut_drain(0, &vec![(slot(1), closed_state)]), Ok(()));
    assert_eq!(
        state.advance_epoch(0),
        Err(RaiEpochTransitionError::CloseRecordMissing)
    );
    state.record_current_close_record_value(0).unwrap();
    assert_eq!(state.advance_epoch(0), Ok(1));

    assert_eq!(state.current_epoch(), 1);
    assert_eq!(state.epoch_phase(0), Some(RaiEpochPhase::Closed));
    assert_eq!(state.current_epoch_phase(), RaiEpochPhase::Open);
    assert_eq!(state.closed_slot_state(0, &slot(1)), Some(&closed_state));
}

#[test]
fn records_close_record_value_after_cut_drain() {
    let mut state = RaiCloseState::<RaiCloseRecord>::new();
    let cut = SortedSet::from_vec(&vec![slot(1)]);
    let closed_state = RaiClosedSlotState::Finalized(BlockHash::from(7));
    state.start_closing(0).unwrap();
    state.install_cut(0, cut).unwrap();

    assert_eq!(
        state.record_current_close_record_value(0),
        Err(RaiEpochTransitionError::CutNotDrained)
    );

    state
        .record_cut_drain(0, &vec![(slot(1), closed_state)])
        .unwrap();
    let hash = state.record_current_close_record_value(0).unwrap();

    assert!(state.has_close_record_value(0, &hash));
    assert_eq!(
        state
            .close_record_value(0, &hash)
            .unwrap()
            .entries
            .get(&slot(1)),
        Some(&closed_state)
    );
}

#[test]
fn close_record_roots_split_finalized_carry_and_released_slots() {
    let mut entries = SortedMap::new();
    entries.insert(slot(1), RaiClosedSlotState::Finalized(BlockHash::from(7)));
    entries.insert(slot(2), RaiClosedSlotState::Carry(BlockHash::from(8)));
    entries.insert(slot(3), RaiClosedSlotState::Released);

    let record = RaiCloseState::<RaiCloseRecord>::close_record_from_entries(BlockHash::from(6), &entries);

    assert_eq!(
        record.finalized_root,
        RaiCloseState::<RaiCloseRecord>::hash_close_record_finalized_entries(&entries)
    );
    assert_eq!(
        record.carry_root,
        RaiCloseState::<RaiCloseRecord>::hash_close_record_carry_entries(&entries)
    );

    let mut no_carry = entries.duplicate();
    no_carry.insert(slot(2), RaiClosedSlotState::Released);
    assert_ne!(
        record.carry_root,
        RaiCloseState::<RaiCloseRecord>::close_record_from_entries(BlockHash::from(6), &no_carry).carry_root
    );
}

#[test]
fn release_requires_closed_epoch_with_certified_release_case() {
    let mut excluded = RaiCloseState::<RaiCloseRecord>::new();
    excluded.start_closing(0).unwrap();
    excluded.install_cut(0, SortedSet::new()).unwrap();
    excluded
        .record_cut_drain(0, &Vec::new())
        .unwrap();
    excluded.record_current_close_record_value(0).unwrap();
    excluded.advance_epoch(0).unwrap();
    assert!(excluded.is_slot_vote_released(0, &slot(1)));

    let mut timed_out = RaiCloseState::<RaiCloseRecord>::new();
    timed_out.start_closing(0).unwrap();
    timed_out
        .install_cut(0, SortedSet::from_vec(&vec![slot(1)]))
        .unwrap();
    timed_out
        .record_cut_drain(0, &vec![(slot(1), RaiClosedSlotState::Released)])
        .unwrap();
    timed_out.record_current_close_record_value(0).unwrap();
    timed_out.advance_epoch(0).unwrap();
    assert!(timed_out.is_slot_vote_released(0, &slot(1)));

    let mut carried_or_finalized = RaiCloseState::<RaiCloseRecord>::new();
    carried_or_finalized.start_closing(0).unwrap();
    carried_or_finalized
        .install_cut(0, SortedSet::from_vec(&vec![slot(1)]))
        .unwrap();
    carried_or_finalized
        .record_cut_drain(0, &vec![(slot(1), RaiClosedSlotState::Carry(BlockHash::from(7)))])
        .unwrap();
    carried_or_finalized
        .record_current_close_record_value(0)
        .unwrap();
    carried_or_finalized.advance_epoch(0).unwrap();
    assert!(!carried_or_finalized.is_slot_vote_released(0, &slot(1)));
}

#[test]
fn closing_epoch_only_enables_votes_for_installed_cut() {
    let mut state = RaiCloseState::<RaiCloseRecord>::new();

    assert!(state.is_slot_vote_enabled(0, &slot(1)));
    state.start_closing(0).unwrap();
    assert!(!state.is_slot_vote_enabled(0, &slot(1)));
    state
        .install_cut(0, SortedSet::from_vec(&vec![slot(1)]))
        .unwrap();

    assert!(state.is_slot_vote_enabled(0, &slot(1)));
    assert!(!state.is_slot_vote_enabled(0, &slot(2)));
}

#[test]
fn closing_epoch_accepts_passive_votes_until_cut_is_installed() {
    let mut state = RaiCloseState::<RaiCloseRecord>::new();

    assert!(state.is_slot_vote_acceptable(0, &slot(1)));
    state.start_closing(0).unwrap();
    assert!(state.is_slot_vote_acceptable(0, &slot(1)));
    state
        .install_cut(0, SortedSet::from_vec(&vec![slot(1)]))
        .unwrap();

    assert!(state.is_slot_vote_acceptable(0, &slot(1)));
    assert!(!state.is_slot_vote_acceptable(0, &slot(2)));
}

#[test]
fn records_close_attempt_progress_once() {
    let mut state = RaiCloseState::<RaiCloseRecord>::new();

    assert!(state.record_close_attempt_started(0, 0));
    assert!(!state.record_close_attempt_started(0, 0));
    assert_eq!(state.started_close_attempts(0), vec![0]);
    assert!(state.close_attempt_started(0, 0));

    assert!(state.record_close_attempt_processed(0, 0));
    assert!(!state.record_close_attempt_processed(0, 0));
    assert!(state.close_attempt_processed(0, 0));
}

fn slot(account_height: u64) -> RaiSlot {
    RaiSlot::new(Account::from(1), account_height)
}

#[test]
fn refused_transitions_name_their_reason() {
    let mut state = RaiCloseState::<RaiCloseRecord>::new();
    assert_eq!(state.start_closing(1), Err(RaiEpochTransitionError::NotCurrent));
    assert_eq!(state.install_cut(0, SortedSet::new()), Err(RaiEpochTransitionError::NotClosing));
    state.start_closing(0).unwrap();
    assert_eq!(state.record_cut_drain(0, &Vec::new()), Err(RaiEpochTransitionError::CutMissing));
    state.install_cut(0, SortedSet::from_vec(&vec![slot(1)])).unwrap();
    assert_eq!(state.install_cut(0, SortedSet::from_vec(&vec![slot(1)])), Ok(false));
    assert_eq!(state.advance_epoch(0), Err(RaiEpochTransitionError::CutNotDrained));
    state.record_cut_drain(0, &vec![(slot(1), RaiClosedSlotState::Released)]).unwrap();
    state.record_current_close_record_value(0).unwrap();
    state.advance_epoch(0).unwrap();
    assert_eq!(state.start_closing(0), Err(RaiEpochTransitionError::NotCurrent));
}

#[test]
fn snapshot_restores_the_state() {
    let mut state = RaiCloseState::<RaiCloseRecord>::new();
    state.mark_visible(0, slot(2));
    state.record_current_close_value(0);
    state.insert_pending_report(RaiPendingReport::new(PublicKey::from(1), 0, vec![slot(2)])).unwrap();
    state.start_closing(0).unwrap();
    state.install_cut(0, SortedSet::from_vec(&vec![slot(2)])).unwrap();
    state.record_cut_drain(0, &vec![(slot(2), RaiClosedSlotState::Carry(BlockHash::from(5)))]).unwrap();
    state.record_current_close_record_value(0).unwrap();
    state.advance_epoch(0).unwrap();

    let stored = state.snapshot();
    let restored = RaiCloseState::from_snapshot(&stored);

    assert_eq!(restored.snapshot(), stored);
    assert_eq!(restored.current_epoch(), 1);
    assert_eq!(restored.certified_close_hash(0), state.certified_close_hash(0));
}
