use rai_consensus::active_elections::RaiActiveElections;
use rai_consensus::admissibility::RaiDefaultAdmissibilityValidator;
use rai_consensus::close_state::RaiCloseState;
use rai_consensus::committee::{RaiRepWeightSnapshot, RepWeightRaiCommitteeProvider};
use rai_consensus::slot_election_activator::{
    RaiBlockSource, RaiProcessedBlock, RaiSlotBlock, RaiSlotElectionActivator,
};
use rai_consensus::types::{Account, Amount, BlockHash, PublicKey, RaiElectionId, RaiElectionValue, RaiSlot};
use rai_consensus::vote_processor::RaiVoteProcessor;

type Processor = RaiVoteProcessor<RaiDefaultAdmissibilityValidator, RepWeightRaiCommitteeProvider>;

fn processor(weights: RaiRepWeightSnapshot) -> Processor {
    RaiVoteProcessor::new(RaiActiveElections::new(), RaiCloseState::new(), weights)
}

fn test_block() -> RaiSlotBlock {
    RaiSlotBlock { account: Account::from(42), height: 5, hash: BlockHash::from(43) }
}

fn processed_block_from(block: RaiSlotBlock, source: RaiBlockSource, accepted: bool) -> RaiProcessedBlock {
    RaiProcessedBlock { source, accepted, saved_block: Some(block) }
}

fn slot_election_id(block: &RaiSlotBlock, epoch: u64) -> RaiElectionId {
    RaiElectionId::Slot { slot: RaiSlot::new(block.account, block.height), epoch }
}

/// Activates the blocks of the results without any voter.
fn handle(processor: &mut Processor, results: Vec<RaiProcessedBlock>) {
    for block in RaiSlotElectionActivator::activated_blocks(&results) {
        RaiSlotElectionActivator::activate_block(processor, &block, &Vec::new(), &RaiRepWeightSnapshot::default());
    }
}

#[test]
fn successful_processed_block_starts_slot_election() {
    let mut processor = processor(RaiRepWeightSnapshot::default());
    let block = test_block();

    handle(&mut processor, vec![processed_block_from(block, RaiBlockSource::Local, true)]);

    assert!(processor.active_elections.contains(&slot_election_id(&block, 0)));
}

#[test]
fn failed_processed_block_does_not_start_slot_election() {
    let mut processor = processor(RaiRepWeightSnapshot::default());
    let block = test_block();

    handle(&mut processor, vec![processed_block_from(block, RaiBlockSource::Local, false)]);

    assert!(!processor.active_elections.contains(&slot_election_id(&block, 0)));
}

#[test]
fn live_processed_block_starts_slot_election() {
    let mut processor = processor(RaiRepWeightSnapshot::default());
    let block = test_block();

    handle(&mut processor, vec![processed_block_from(block, RaiBlockSource::Live, true)]);

    assert!(processor.active_elections.contains(&slot_election_id(&block, 0)));
}

#[test]
fn live_processed_block_starts_in_successor_epoch_while_current_epoch_closes() {
    let mut processor = processor(RaiRepWeightSnapshot::default());
    let block = test_block();
    processor.close_state.start_closing(0).unwrap();

    handle(&mut processor, vec![processed_block_from(block, RaiBlockSource::Local, true)]);

    assert!(processor.active_elections.contains(&slot_election_id(&block, 1)));
}

#[test]
fn blocks_of_other_sources_and_unsaved_blocks_start_nothing() {
    let results = vec![
        processed_block_from(test_block(), RaiBlockSource::Other, true),
        RaiProcessedBlock { source: RaiBlockSource::Live, accepted: true, saved_block: None },
        processed_block_from(test_block(), RaiBlockSource::LiveOriginator, true),
    ];
    assert_eq!(RaiSlotElectionActivator::activated_blocks(&results), vec![test_block()]);
}

#[test]
fn own_representatives_cast_first_votes() {
    let voter = PublicKey::from(1);
    let live = RaiRepWeightSnapshot::from_weights(vec![(voter, Amount::raw(100))]);
    let mut processor = processor(RaiRepWeightSnapshot::from_weights(vec![(voter, Amount::raw(100))]));
    let block = test_block();

    let activation = RaiSlotElectionActivator::activate_block(&mut processor, &block, &vec![voter], &live);

    assert!(activation.activated);
    assert_eq!(activation.votes.len(), 1);
    assert_eq!(activation.votes[0].voter, voter);
    assert_eq!(activation.votes[0].value, RaiElectionValue::Block(block.hash));
    let election = processor.active_elections.election(&slot_election_id(&block, 0)).unwrap();
    assert_eq!(election.tally(&RaiElectionValue::Block(block.hash)), 1);
}

#[test]
fn vacancy_shrinks_with_each_election() {
    let mut elections = RaiActiveElections::new();
    assert_eq!(RaiSlotElectionActivator::vacancy(&elections), 5000);
    elections.insert(slot_election_id(&test_block(), 0)).unwrap();
    assert_eq!(RaiSlotElectionActivator::vacancy(&elections), 4999);
}

#[test]
fn every_key_votes_where_no_representative_is_known() {
    let keys = vec![PublicKey::from(1), PublicKey::from(2)];
    assert_eq!(RaiSlotElectionActivator::voting_keys(Vec::new(), keys.clone()), keys);
    assert_eq!(RaiSlotElectionActivator::voting_keys(vec![keys[1]], keys.clone()), vec![keys[1]]);
}
