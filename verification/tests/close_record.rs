use rai_consensus::close_record::{RaiCloseRecord, RaiCloseRecordStore};
use rai_consensus::types::{Account, BlockHash, ConfirmationHeightInfo, RaiEpoch};

fn info(height: u64, hash: u64) -> ConfirmationHeightInfo {
    ConfirmationHeightInfo::new(height, BlockHash::from(hash))
}

fn record(previous: u64, frontiers: Vec<(u64, ConfirmationHeightInfo)>) -> RaiCloseRecord {
    let frontiers = frontiers.into_iter().map(|(account, info)| (Account::from(account), info)).collect();
    RaiCloseRecord::new(RaiEpoch::new(7), BlockHash::from(previous), frontiers)
}

#[test]
fn frontier_encoding_is_deterministic() {
    let a = record(6, vec![(2, info(4, 40)), (1, info(3, 30))]);
    let b = record(6, vec![(1, info(3, 30)), (2, info(4, 40))]);
    assert_eq!(a.canonical_bytes(), b.canonical_bytes());
    assert_eq!(a.hash(), b.hash());
}

#[test]
fn previous_close_hash_is_bound() {
    let frontiers = vec![(1, info(3, 30))];
    assert_ne!(record(6, frontiers.clone()).hash(), record(5, frontiers).hash());
}

#[test]
fn a_stored_record_is_found_by_its_hash() {
    let mut store = RaiCloseRecordStore::default();
    let hash = store.insert(record(6, vec![(1, info(3, 30))]));
    assert_eq!(store.get(&hash).unwrap().hash(), hash);
    assert!(store.get(&BlockHash::from(1)).is_none());
    assert_eq!(store.all().len(), 1);
}
