use rai_consensus::active_elections::{RaiElectionStatus, RaiTallySnapshot};
use rai_consensus::close_state::RaiEpochPhase;
use rai_consensus::close_values::RaiCloseValueSnapshot;
use rai_consensus::codec::DecodeError;
use rai_consensus::committee::{RaiCommittee, RaiCommitteeDeriver};
use rai_consensus::ordered::{Duplicate, SortedMap};
use rai_consensus::persistence::{
    deserialize_active_elections, deserialize_close_state, deserialize_committees, load, serialize_active_elections,
    serialize_close_state, serialize_committees, with_committee, RaiActiveElectionsSnapshot, RaiCloseEpochSnapshot,
    RaiCloseStateSnapshot, RaiClosedSlotSnapshot, RaiElectionSnapshot, RaiVoteSummary,
};
use rai_consensus::types::{
    Account, Amount, BlockHash, PublicKey, RaiElectionId, RaiElectionValue, RaiPendingReport, RaiSlot, RaiVoteKind,
};

fn committee(balance: u128) -> RaiCommittee {
    RaiCommitteeDeriver::new().derive_committee(&vec![(PublicKey::from(1), Amount::raw(balance))])
}

#[test]
fn close_state_roundtrip() {
    let key = PublicKey::from(1);
    let slot = RaiSlot::new(Account::from(2), 3);
    let outcome = RaiElectionValue::Block(BlockHash::from(4));
    let snapshot = RaiCloseStateSnapshot {
        current_epoch: 7,
        epochs: vec![RaiCloseEpochSnapshot {
            epoch: 7,
            phase: RaiEpochPhase::Closing,
            pending_reports: vec![RaiPendingReport::new(key, 7, vec![slot])],
            visible_slots: vec![slot],
            close_values: vec![RaiCloseValueSnapshot { hash: BlockHash::from(5), slots: vec![slot] }],
            started_close_attempts: vec![0],
            processed_close_attempts: vec![1],
            cut_set: Some(vec![slot]),
            closed_slots: vec![RaiClosedSlotSnapshot { slot, outcome }],
        }],
    };

    assert_eq!(deserialize_close_state(&serialize_close_state(&snapshot)).unwrap(), snapshot);
}

#[test]
fn active_elections_roundtrip() {
    let key = PublicKey::from(1);
    let slot = RaiSlot::new(Account::from(2), 3);
    let value = RaiElectionValue::Block(BlockHash::from(4));
    let snapshot = RaiActiveElectionsSnapshot {
        elections: vec![RaiElectionSnapshot {
            id: RaiElectionId::Slot { slot, epoch: 7 },
            status: RaiElectionStatus::Confirmed,
            votes: vec![RaiVoteSummary { voter: key, kind: RaiVoteKind::Final, value, committee_votes: 1 }],
            tallies: vec![RaiTallySnapshot { value, per_committee: vec![1] }],
            final_tallies: vec![RaiTallySnapshot { value, per_committee: vec![1] }],
            winner: Some(value),
            confirmed_value: Some(value),
        }],
    };

    assert_eq!(deserialize_active_elections(&serialize_active_elections(&snapshot)).unwrap(), snapshot);
}

#[test]
fn committees_roundtrip() {
    let committee = committee(100);
    let mut committees = SortedMap::new();
    committees.insert(3, committee.duplicate());

    let decoded = deserialize_committees(&serialize_committees(&committees)).unwrap();

    assert_eq!(decoded.keys_vec(), vec![3]);
    assert_eq!(decoded.get(&3), Some(&committee));
}

#[test]
fn lmdb_persistence_saves_and_loads_snapshots() {
    let slot = RaiSlot::new(Account::from(2), 3);
    let value = RaiElectionValue::Block(BlockHash::from(4));
    let close_state = RaiCloseStateSnapshot {
        current_epoch: 1,
        epochs: vec![RaiCloseEpochSnapshot {
            epoch: 0,
            phase: RaiEpochPhase::Closed,
            pending_reports: Vec::new(),
            visible_slots: vec![slot],
            close_values: Vec::new(),
            started_close_attempts: vec![0],
            processed_close_attempts: vec![0],
            cut_set: Some(vec![slot]),
            closed_slots: vec![RaiClosedSlotSnapshot { slot, outcome: value }],
        }],
    };
    let active_elections = RaiActiveElectionsSnapshot {
        elections: vec![RaiElectionSnapshot {
            id: RaiElectionId::Slot { slot, epoch: 0 },
            status: RaiElectionStatus::Confirmed,
            votes: Vec::new(),
            tallies: Vec::new(),
            final_tallies: Vec::new(),
            winner: Some(value),
            confirmed_value: Some(value),
        }],
    };
    let committee = committee(100);

    let stored_close_state = serialize_close_state(&close_state);
    let stored_elections = serialize_active_elections(&active_elections);
    let stored_committees = with_committee(None, 0, committee.duplicate()).unwrap();
    let loaded = load(Some(stored_close_state), Some(stored_elections), Some(stored_committees)).unwrap();

    assert_eq!(loaded.close_state, Some(close_state));
    assert_eq!(loaded.active_elections, Some(active_elections));
    assert_eq!(loaded.committees.keys_vec(), vec![0]);
    assert_eq!(loaded.committees.get(&0), Some(&committee));
}

#[test]
fn nothing_stored_loads_as_nothing() {
    let loaded = load(None, None, None).unwrap();
    assert_eq!(loaded.close_state, None);
    assert_eq!(loaded.active_elections, None);
    assert!(loaded.committees.is_empty());
}

#[test]
fn a_committee_replaces_the_one_stored_for_its_epoch() {
    let first = with_committee(None, 2, committee(100)).unwrap();
    let second = with_committee(Some(first), 3, committee(200)).unwrap();
    let third = with_committee(Some(second), 2, committee(300)).unwrap();

    let committees = deserialize_committees(&third).unwrap();
    assert_eq!(committees.keys_vec(), vec![2, 3]);
    assert_eq!(committees.get(&2), Some(&committee(300)));
    assert_eq!(committees.get(&3), Some(&committee(200)));
}

#[test]
fn damaged_bytes_are_refused() {
    let snapshot = RaiCloseStateSnapshot { current_epoch: 7, epochs: Vec::new() };
    let bytes = serialize_close_state(&snapshot);

    let mut short = bytes.clone();
    short.pop();
    assert_eq!(deserialize_close_state(&short), Err(DecodeError::UnexpectedEnd));

    let mut long = bytes.clone();
    long.push(0);
    assert_eq!(deserialize_close_state(&long), Err(DecodeError::TooMuchData));

    let mut other_version = bytes.clone();
    other_version[0] = 255;
    assert_eq!(deserialize_close_state(&other_version), Err(DecodeError::InvalidData));
    assert_eq!(load(Some(other_version), None, None), Err(DecodeError::InvalidData));
}
