use rai_consensus::committee::{
    RaiCommittee, RaiCommitteeDeriver, RaiCommitteeProvider, RaiCommitteeSet, RaiCommitteeThresholds,
    RaiRepWeightSnapshot, RepWeightRaiCommitteeProvider,
};
use rai_consensus::ordered::SortedMap;
use rai_consensus::types::{Amount, PublicKey, RaiVoteScope};

fn derive<const N: usize>(balances: [(PublicKey, Amount); N]) -> RaiCommittee {
    RaiCommitteeDeriver::new().derive_committee(&balances.to_vec())
}

fn accounts(committee: &RaiCommittee) -> Vec<PublicKey> {
    committee.members().iter().map(|member| member.account).collect()
}

#[test]
fn derives_genesis_committee_from_genesis_balance() {
    let genesis = PublicKey::from(1);
    let committee = RaiCommitteeDeriver::new().derive_genesis_committee(&vec![(genesis, Amount::raw(u128::MAX))]);

    assert_eq!(committee.members().len(), 1);
    assert_eq!(committee.members()[0].account, genesis);
    assert_eq!(committee.members()[0].balance, Amount::raw(u128::MAX));
    assert_eq!(committee.thresholds().finalization, 1);
}

#[test]
fn derives_principal_members_from_balances() {
    let large = PublicKey::from(1);
    let small = PublicKey::from(2);

    let committee = RaiCommitteeDeriver::new().derive_closed_epoch_committee(
        7,
        &vec![(small, Amount::raw(1)), (large, Amount::raw(9999)), (PublicKey::from(3), Amount::raw(0))],
    );

    assert_eq!(accounts(&committee), vec![large]);
}

#[test]
fn orders_members_deterministically_by_account() {
    let committee = derive([
        (PublicKey::from(3), Amount::raw(100)),
        (PublicKey::from(1), Amount::raw(100)),
        (PublicKey::from(2), Amount::raw(100)),
    ]);

    assert_eq!(accounts(&committee), vec![PublicKey::from(1), PublicKey::from(2), PublicKey::from(3)]);
}

#[test]
fn deduplicates_committees_with_the_same_members() {
    let first = derive([(PublicKey::from(1), Amount::raw(1))]);
    let second = derive([(PublicKey::from(1), Amount::raw(2))]);
    let committees = RaiCommitteeSet::new(vec![first, second]);

    assert_eq!(committees.len(), 1);
}

#[test]
fn provider_keeps_closed_epoch_committee_fixed_from_weight_snapshot() {
    let first = PublicKey::from(1);
    let second = PublicKey::from(2);
    let weights = || RaiRepWeightSnapshot::from_weights(vec![(first, Amount::raw(100))]);
    let mut provider = RepWeightRaiCommitteeProvider::new(weights());

    let closed_committee = provider.snapshot_closed_epoch_committee(0, weights());
    let moved = RaiRepWeightSnapshot::from_weights(vec![(first, Amount::raw(0)), (second, Amount::raw(100))]);
    assert_eq!(provider.snapshot_closed_epoch_committee(0, moved), closed_committee);

    let loaded_committee = provider.committee_for_closed_epoch(0).unwrap();
    assert_eq!(loaded_committee, closed_committee);
    assert!(loaded_committee.contains(&first));
    assert!(!loaded_committee.contains(&second));
}

#[test]
fn provider_derives_closed_epoch_committee_from_loaded_weight_snapshot() {
    let historical = PublicKey::from(1);
    let current = PublicKey::from(2);
    let weights = RaiRepWeightSnapshot::from_weights(vec![(current, Amount::raw(100))]);
    let mut snapshots = SortedMap::new();
    snapshots.insert(4, RaiRepWeightSnapshot::from_weights(vec![(historical, Amount::raw(100))]));
    let provider = RepWeightRaiCommitteeProvider::with_closed_epoch_snapshots(weights, snapshots, SortedMap::new());

    let committee = provider.committee_for_closed_epoch(4).unwrap();

    assert!(committee.contains(&historical));
    assert!(!committee.contains(&current));
    assert!(provider.committee_for_closed_epoch(5).is_none());
}

#[test]
fn scopes_name_one_of_the_voter_s_committees() {
    let shared = PublicKey::from(1);
    let committees = RaiCommitteeSet::new(vec![
        derive([(shared, Amount::raw(1)), (PublicKey::from(2), Amount::raw(1))]),
        derive([(shared, Amount::raw(1)), (PublicKey::from(3), Amount::raw(1))]),
    ]);

    assert_eq!(committees.committee_indexes_for(&shared), vec![0, 1]);
    assert_eq!(committees.scoped_committee_indexes_for(&shared, RaiVoteScope::Committee(1)), vec![1]);
    assert!(committees.scoped_committee_indexes_for(&PublicKey::from(2), RaiVoteScope::Committee(1)).is_empty());
    assert!(!committees.contains(&PublicKey::from(4)));
}

#[test]
fn snapshot_restores_the_committee() {
    let committee = derive([(PublicKey::from(1), Amount::raw(3)), (PublicKey::from(2), Amount::raw(4))]);
    assert_eq!(RaiCommittee::from_snapshot(committee.snapshot()), committee);
    assert_eq!(committee.thresholds(), RaiCommitteeThresholds::for_size(2));
}

#[test]
fn the_order_of_balances_does_not_matter() {
    let balances = [
        (PublicKey::from(3), Amount::raw(700)),
        (PublicKey::from(1), Amount::raw(900)),
        (PublicKey::from(2), Amount::raw(800)),
    ];
    let forward = derive(balances);
    let backward = derive([balances[2], balances[1], balances[0]]);
    assert_eq!(forward, backward);
    assert_eq!(forward.len(), 3);
}
