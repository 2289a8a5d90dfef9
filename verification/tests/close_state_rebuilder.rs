use rai_consensus::active_elections::{
    RaiActiveElectionsSnapshot, RaiElectionSnapshot, RaiElectionStatus, RaiTallySnapshot, RaiVoteStateSnapshot,
};
use rai_consensus::close_state::{RaiCloseEpochSnapshot, RaiCloseStateSnapshot, RaiClosedSlotSnapshot, RaiEpochPhase};
use rai_consensus::close_state_rebuilder::RaiCloseStateRebuilder;
use rai_consensus::close_values::{
    RaiCloseValueSnapshot, RaiClosedSlotState, RaiVisibilityTracker, VisibleSlots,
};
use rai_consensus::committee::{
    Fixing, Membership, RaiCommittee, RaiCommitteeDeriver, RaiCommitteeProvider, RaiEpoch, RaiRepWeightSnapshot,
    SnapshotWeights,
};
use rai_consensus::frontier_record::RaiFrontierRecord;
use rai_consensus::ordered::{Duplicate, SortedSet};
use rai_consensus::types::{
    Account, Amount, BlockHash, PublicKey, RaiElectionId, RaiElectionValue, RaiPendingReport, RaiSlot,
};

type Snapshot = RaiCloseStateSnapshot<RaiFrontierRecord>;

#[test]
fn rebuilds_visibility_from_persisted_slot_votes() {
    let first = PublicKey::from(1);
    let second = PublicKey::from(2);
    let third = PublicKey::from(3);
    let fourth = PublicKey::from(4);
    let committee = committee_from_keys([first, second, third, fourth]);
    let slot = slot(1);
    let active_elections = RaiActiveElectionsSnapshot {
        elections: vec![slot_election_snapshot(
            slot,
            7,
            RaiElectionStatus::Active,
            vec![
                vote_state(first, 0, RaiElectionValue::Block(BlockHash::from(1))),
                vote_state(second, 0, RaiElectionValue::Block(BlockHash::from(1))),
            ],
            None,
        )],
    };

    let snapshot = rebuild_snapshot(
        committee,
        close_snapshot(7, vec![close_epoch(7)]),
        Some(&active_elections),
    );

    assert_eq!(snapshot.epochs[0].visible_slots, vec![slot]);
}

#[test]
fn rebuilds_visibility_from_persisted_pending_reports() {
    let first = PublicKey::from(1);
    let second = PublicKey::from(2);
    let third = PublicKey::from(3);
    let fourth = PublicKey::from(4);
    let committee = committee_from_keys([first, second, third, fourth]);
    let slot = slot(1);
    let mut epoch = close_epoch(7);
    epoch.pending_reports = vec![
        RaiPendingReport::new(first, 7, vec![slot]),
        RaiPendingReport::new(second, 7, vec![slot]),
    ];

    let snapshot = rebuild_snapshot(committee, close_snapshot(7, vec![epoch]), None);

    assert_eq!(snapshot.epochs[0].visible_slots, vec![slot]);
}

#[test]
fn records_current_close_value_after_rebuilding_visibility() {
    let first = PublicKey::from(1);
    let second = PublicKey::from(2);
    let third = PublicKey::from(3);
    let fourth = PublicKey::from(4);
    let committee = committee_from_keys([first, second, third, fourth]);
    let slot = slot(1);
    let mut epoch = close_epoch(7);
    epoch.started_close_attempts = vec![0];
    epoch.close_values = vec![RaiCloseValueSnapshot {
        hash: BlockHash::from(123),
        slots: vec![slot],
    }];
    let active_elections = RaiActiveElectionsSnapshot {
        elections: vec![slot_election_snapshot(
            slot,
            7,
            RaiElectionStatus::Active,
            vec![
                vote_state(first, 0, RaiElectionValue::Block(BlockHash::from(1))),
                vote_state(second, 0, RaiElectionValue::Block(BlockHash::from(1))),
            ],
            None,
        )],
    };

    let snapshot = rebuild_snapshot(
        committee,
        close_snapshot(7, vec![epoch]),
        Some(&active_elections),
    );
    let visible: VisibleSlots = SortedSet::from_vec(&vec![slot]);
    let close_hash = RaiVisibilityTracker::hash_visible_slots(&visible);

    assert_eq!(snapshot.epochs[0].close_values.len(), 1);
    assert_eq!(snapshot.epochs[0].close_values[0].hash, close_hash);
    assert_eq!(snapshot.epochs[0].close_values[0].slots, vec![slot]);
}

#[test]
fn rebuilds_cut_from_fast_close_cut_certificate() {
    let key = PublicKey::from(1);
    let committee = committee_from_keys([key]);
    let slot = slot(1);
    let cut: VisibleSlots = SortedSet::from_vec(&vec![slot]);
    let close_hash = RaiVisibilityTracker::hash_visible_slots(&cut);
    let mut epoch = close_epoch(7);
    epoch.phase = RaiEpochPhase::Closing;
    epoch.visible_slots = vec![slot];
    epoch.close_values = vec![RaiCloseValueSnapshot {
        hash: close_hash,
        slots: vec![slot],
    }];
    let active_elections = RaiActiveElectionsSnapshot {
        elections: vec![RaiElectionSnapshot {
            id: RaiElectionId::CloseCut {
                epoch: 7,
                attempt: 0,
            },
            status: RaiElectionStatus::Active,
            vote_states: vec![vote_state(key,
                0,
                RaiElectionValue::CloseCutHash(close_hash),
            )],
            tallies: vec![RaiTallySnapshot {
                value: RaiElectionValue::CloseCutHash(close_hash),
                per_committee: vec![1],
            }],
            notarization_tallies: Vec::new(),
            final_tallies: Vec::new(),
            winner: None,
            confirmed_value: None,
        }],
    };

    let snapshot = rebuild_snapshot(
        committee,
        close_snapshot(7, vec![epoch]),
        Some(&active_elections),
    );

    assert_eq!(snapshot.epochs[0].cut_set, Some(vec![slot]));
    assert_eq!(snapshot.epochs[0].processed_close_attempts, vec![0]);
}

#[test]
fn rebuilds_closed_slots_from_confirmed_cut_slot() {
    let key = PublicKey::from(1);
    let committee = committee_from_keys([key]);
    let slot = slot(1);
    let outcome = RaiElectionValue::Block(BlockHash::from(9));
    let mut epoch = close_epoch(7);
    epoch.phase = RaiEpochPhase::Closing;
    epoch.cut_set = Some(vec![slot]);
    let active_elections = RaiActiveElectionsSnapshot {
        elections: vec![slot_election_snapshot(
            slot,
            7,
            RaiElectionStatus::Confirmed,
            vec![vote_state(key, 0, outcome)],
            Some(outcome),
        )],
    };

    let snapshot = rebuild_snapshot(
        committee,
        close_snapshot(7, vec![epoch]),
        Some(&active_elections),
    );

    assert_eq!(
        snapshot.epochs[0].closed_slots,
        vec![RaiClosedSlotSnapshot {
            slot,
            state: RaiClosedSlotState::Finalized(BlockHash::from(9))
        }]
    );
}

fn rebuild_snapshot(
    committee: RaiCommittee,
    close_state: Snapshot,
    active_elections: Option<&RaiActiveElectionsSnapshot>,
) -> Snapshot {
    let provider = StaticCommitteeProvider { committee };
    let valid = close_state.epochs.iter().map(|epoch| vec![true; epoch.pending_reports.len()]).collect();
    RaiCloseStateRebuilder::new(&provider).rebuild_snapshot(&close_state, &valid, active_elections)
}

fn close_snapshot(
    current_epoch: RaiEpoch,
    epochs: Vec<RaiCloseEpochSnapshot<RaiFrontierRecord>>,
) -> Snapshot {
    RaiCloseStateSnapshot {
        current_epoch,
        epochs,
    }
}

fn close_epoch(epoch: RaiEpoch) -> RaiCloseEpochSnapshot<RaiFrontierRecord> {
    RaiCloseEpochSnapshot {
        epoch,
        phase: RaiEpochPhase::Open,
        close_hash: None,
        pending_reports: Vec::new(),
        visible_slots: Vec::new(),
        close_values: Vec::new(),
        started_close_attempts: Vec::new(),
        processed_close_attempts: Vec::new(),
        cut_set: None,
        closed_slots: Vec::new(),
        close_record_values: Vec::new(),
        started_close_record_attempts: Vec::new(),
        processed_close_record_attempts: Vec::new(),
    }
}

fn slot_election_snapshot(
    slot: RaiSlot,
    epoch: RaiEpoch,
    status: RaiElectionStatus,
    vote_states: Vec<RaiVoteStateSnapshot>,
    confirmed_value: Option<RaiElectionValue>,
) -> RaiElectionSnapshot {
    let tallies = confirmed_value
        .iter()
        .map(|value| RaiTallySnapshot {
            value: *value,
            per_committee: vec![vote_states.len()],
        })
        .collect();
    RaiElectionSnapshot {
        id: RaiElectionId::Slot { slot, epoch },
        status,
        vote_states,
        tallies,
        notarization_tallies: Vec::new(),
        final_tallies: Vec::new(),
        winner: confirmed_value,
        confirmed_value,
    }
}

fn vote_state(
    key: PublicKey,
    committee_index: usize,
    value: RaiElectionValue,
) -> RaiVoteStateSnapshot {
    RaiVoteStateSnapshot {
        voter: key,
        committee_index,
        first: Some(value),
        notarized: Vec::new(),
        final_vote: None,
    }
}

fn committee_from_keys<const N: usize>(keys: [PublicKey; N]) -> RaiCommittee {
    RaiCommitteeDeriver::new().derive_committee(&keys.map(|key| (key, Amount::raw(100))).to_vec())
}

fn slot(account_height: u64) -> RaiSlot {
    RaiSlot::new(Account::from(1), account_height)
}

struct StaticCommitteeProvider {
    committee: RaiCommittee,
}

impl RaiCommitteeProvider for StaticCommitteeProvider {
    fn genesis(&self) -> Membership {
        unreachable!("a model is never computed")
    }

    fn closed(&self, _epoch: RaiEpoch) -> Option<Membership> {
        unreachable!("a model is never computed")
    }

    fn closed_weights(&self, _epoch: RaiEpoch) -> Option<SnapshotWeights> {
        unreachable!("a model is never computed")
    }

    fn fixing(_live: SnapshotWeights) -> Option<Fixing> {
        unreachable!("a model is never computed")
    }

    fn closed_epoch_rep_weight_snapshot(&self, _epoch: RaiEpoch) -> Option<RaiRepWeightSnapshot> {
        None
    }

    fn snapshot_closed_epoch_committee(&mut self, epoch: RaiEpoch, _live: RaiRepWeightSnapshot) -> RaiCommittee {
        self.committee_at(Some(epoch))
    }

    fn genesis_committee(&self) -> RaiCommittee {
        self.committee.duplicate()
    }

    fn committee_for_closed_epoch(&self, _epoch: RaiEpoch) -> Option<RaiCommittee> {
        Some(self.committee.duplicate())
    }
}

#[test]
fn unsigned_reports_make_nothing_visible() {
    let keys = [PublicKey::from(1), PublicKey::from(2), PublicKey::from(3), PublicKey::from(4)];
    let mut epoch = close_epoch(7);
    epoch.pending_reports =
        vec![RaiPendingReport::new(keys[0], 7, vec![slot(1)]), RaiPendingReport::new(keys[1], 7, vec![slot(1)])];
    let provider = StaticCommitteeProvider { committee: committee_from_keys(keys) };

    let snapshot = RaiCloseStateRebuilder::new(&provider).rebuild_snapshot(
        &close_snapshot(7, vec![epoch]),
        &vec![vec![true, false]],
        None,
    );

    assert!(snapshot.epochs[0].visible_slots.is_empty());
}
