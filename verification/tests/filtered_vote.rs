use rai_consensus::close_round::{RaiCloseElectionId, RaiCloseKind};
use rai_consensus::filtered_vote::{
    FilteredVote, RaiLeafElection, RaiVoteEntry, RaiVoteMetadata, ReceivedVote, VoteDelivery,
};
use rai_consensus::types::{BlockHash, QualifiedRoot, RaiCommitteeScope, RaiEpoch, RaiSlotId, RaiVotePhase, Root};

fn metadata(epoch: u64, phase: RaiVotePhase, scope: RaiCommitteeScope) -> RaiVoteMetadata {
    let epoch = RaiEpoch::new(epoch);
    let root = QualifiedRoot::new(Root::from(111), BlockHash::from(222));
    RaiVoteMetadata { election_id: RaiLeafElection::Slot(RaiSlotId { epoch, root }), phase, epoch, scope }
}

fn vote() -> ReceivedVote {
    ReceivedVote::new(
        vec![BlockHash::from(1), BlockHash::from(2)],
        vec![
            metadata(0, RaiVotePhase::First, RaiCommitteeScope::All),
            metadata(1, RaiVotePhase::Final, RaiCommitteeScope::Newer),
        ],
        VoteDelivery::Direct,
        None,
    )
}

#[test]
fn hash_filter_preserves_rai_leaf_metadata_pairing() {
    let selected_hash = BlockHash::from(2);
    let selected_metadata = metadata(1, RaiVotePhase::Final, RaiCommitteeScope::Newer);
    let filtered = FilteredVote::new(vote(), selected_hash);

    let entries = filtered.filtered_rai_entries();

    assert_eq!(entries, vec![RaiVoteEntry { metadata: selected_metadata, hash: selected_hash }]);
    assert_eq!(filtered.filtered_blocks(), vec![selected_hash]);
}

#[test]
fn a_vote_without_filter_counts_for_every_block() {
    let unfiltered = FilteredVote::from(vote());

    assert!(unfiltered.filter.is_zero());
    assert_eq!(unfiltered.filtered_blocks(), vec![BlockHash::from(1), BlockHash::from(2)]);
    assert_eq!(unfiltered.filtered_rai_entries().len(), 2);
}

#[test]
fn an_unknown_block_leaves_nothing() {
    let filtered = FilteredVote::new(vote(), BlockHash::from(3));
    assert!(filtered.filtered_blocks().is_empty());
    assert!(filtered.filtered_rai_entries().is_empty());
}

#[test]
fn leaves_of_close_elections_are_filtered_alike() {
    let epoch = RaiEpoch::new(3);
    let close = RaiVoteMetadata {
        election_id: RaiLeafElection::Close(RaiCloseElectionId { kind: RaiCloseKind::Record, epoch, round: 1 }),
        phase: RaiVotePhase::Notar,
        epoch,
        scope: RaiCommitteeScope::All,
    };
    let hash = BlockHash::from(9);
    let vote = ReceivedVote::new(
        vec![BlockHash::from(1), hash],
        vec![metadata(3, RaiVotePhase::First, RaiCommitteeScope::All), close],
        VoteDelivery::Direct,
        None,
    );
    assert_eq!(FilteredVote::new(vote, hash).filtered_rai_entries(), vec![RaiVoteEntry { metadata: close, hash }]);
}
