use std::sync::Arc;

use rai_consensus::ordered::Duplicate;
use rai_consensus::rep_weights::RepWeights;
use rai_consensus::report::{
    visible_from_slot_votes, RaiCloseCut, RaiCloseCutStore, RaiReport, RaiReportStore, ReportError, ReportInsert,
};
use rai_consensus::types::{Amount, BlockHash, PublicKey, QualifiedRoot, RaiEpoch, Root, Signature};

fn root(n: u64) -> QualifiedRoot {
    QualifiedRoot::new(Root::from(n), BlockHash::from(n + 100))
}

fn weights(items: &[(u64, u128)]) -> Arc<RepWeights> {
    let mut result = RepWeights::new();
    for (key, weight) in items {
        result.insert(PublicKey::from(*key), Amount::raw(*weight));
    }
    Arc::new(result)
}

fn report(key: u64, epoch: u64, roots: Vec<QualifiedRoot>) -> RaiReport<QualifiedRoot> {
    RaiReport::new(PublicKey::from(key), RaiEpoch::new(epoch), roots, Signature::new())
}

#[test]
fn report_signatures_are_checked() {
    let mut signed = report(1, 4, vec![root(1)]);
    let message = signed.signing_bytes();
    assert_eq!(signed.signing_bytes(), message);
    signed.visible_obligations.insert(root(2));
    assert_ne!(signed.signing_bytes(), message);
    let mut store = RaiReportStore::default();
    assert_eq!(store.insert(signed, false), Err(ReportError::InvalidSignature));
    assert_eq!(store.insert(report(1, 4, vec![root(1)]), true), Ok(ReportInsert::Added));
}

#[test]
fn equivocation_removes_report_and_weight() {
    let committee = weights(&[(1, 50)]);
    let mut store = RaiReportStore::default();
    store.insert(report(1, 4, vec![root(1)]), true).unwrap();
    assert_eq!(store.insert(report(1, 4, vec![root(2)]), true).unwrap(), ReportInsert::Equivocation);
    assert_eq!(store.report_weight(RaiEpoch::new(4), &PublicKey::from(1), &committee), Amount::zero());
    assert!(store.visible_from_reports(RaiEpoch::new(4), &committee).is_empty());
    assert!(store.is_equivocator(RaiEpoch::new(4), &PublicKey::from(1)));
}

#[test]
fn a_repeated_report_is_a_duplicate() {
    let mut store = RaiReportStore::default();
    store.insert(report(1, 4, vec![root(1)]), true).unwrap();
    assert_eq!(store.insert(report(1, 4, vec![root(1)]), true), Ok(ReportInsert::Duplicate));
}

#[test]
fn report_and_vote_visibility_use_the_applicable_committees() {
    let committee = weights(&[(1, 50)]);
    let mut reports = RaiReportStore::default();
    reports.insert(report(1, 3, vec![root(2)]), true).unwrap();
    reports.insert(report(2, 3, vec![root(3)]), true).unwrap();
    assert_eq!(reports.visible_from_reports(RaiEpoch::new(3), &committee).to_vec(), vec![root(2)]);
    let votes = vec![(PublicKey::from(1), root(4)), (PublicKey::from(2), root(5))];
    assert_eq!(visible_from_slot_votes(&votes, &vec![committee]).to_vec(), vec![root(4)]);
}

#[test]
fn cut_is_canonical_and_hash_validates_preimage() {
    let a = RaiCloseCut::new(RaiEpoch::new(7), vec![root(2), root(1), root(2)]);
    let b = RaiCloseCut::new(RaiEpoch::new(7), vec![root(1), root(2)]);
    assert_eq!(a.canonical_bytes(), b.canonical_bytes());
    assert_eq!(a.hash(), b.hash());
    assert_ne!(a.hash(), RaiCloseCut::new(RaiEpoch::new(7), vec![root(1)]).hash());
    let mut store = RaiCloseCutStore::default();
    let hash = store.insert(a.duplicate());
    assert!(store.get(&hash).unwrap().agrees(&a));
}

#[test]
fn quorum_and_full_coverage_count_the_weight_of_reports() {
    let committee = weights(&[(1, 1), (2, 1), (3, 1), (4, 1), (5, 1), (6, 1)]);
    let mut store = RaiReportStore::default();
    for key in 1..=4 {
        store.insert(report(key, 3, vec![]), true).unwrap();
    }
    assert!(!store.has_quorum(RaiEpoch::new(3), &committee));
    store.insert(report(5, 3, vec![]), true).unwrap();
    assert!(store.has_quorum(RaiEpoch::new(3), &committee));
    assert!(!store.has_full_coverage(RaiEpoch::new(3), &committee));
    store.insert(report(6, 3, vec![]), true).unwrap();
    assert!(store.has_full_coverage(RaiEpoch::new(3), &committee));
}
