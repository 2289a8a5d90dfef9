use rai_consensus::fork_cache_updater::{BlockStatus, ForkCacheUpdater, ProcessResult};
use rai_consensus::local_votes_remover::{LocalVote, LocalVotesRemover};
use rai_consensus::ordered::SortedSet;
use rai_consensus::ordering_election::{
    quorum_size, ArchipelagoState, FlaggedValue, Message, OrderingElection, Outgoing, PartialCertificate,
};
use rai_consensus::ordering_scheduler::OrderingScheduler;
use rai_consensus::types::{BlockHash, PublicKey};

fn blocks(hashes: &[u64]) -> SortedSet<BlockHash> {
    SortedSet::from_vec(&hashes.iter().map(|hash| BlockHash::from(*hash)).collect())
}

fn rep(id: u64) -> PublicKey {
    PublicKey::from(id)
}

/// Answers of a quorum of four validators in the first step.
fn through_first_step(election: &mut OrderingElection) -> Outgoing {
    for id in 1..=2 {
        let response = Message::RStepResponse { rank: 0, max_rank: 0, value: blocks(&[1]) };
        assert!(election.handle_message(rep(id), response, &PartialCertificate::new(), 4).outgoing.is_none());
    }
    let response = Message::RStepResponse { rank: 0, max_rank: 3, value: blocks(&[1, 2]) };
    election.handle_message(rep(3), response, &PartialCertificate::new(), 4).outgoing.unwrap()
}

fn flag_of(outgoing: &Outgoing) -> Option<bool> {
    match outgoing {
        Outgoing::Broadcast { message: Message::BStepQuery { flag, .. }, .. } => Some(*flag),
        _ => None,
    }
}

fn through_second_step(election: &mut OrderingElection, dissent: bool) -> Outgoing {
    let mut last = None;
    for id in 1..=3 {
        let value = if dissent && id == 2 { blocks(&[9]) } else { blocks(&[1, 2]) };
        let response = Message::AStepResponse { rank: 0, values: vec![value] };
        last = election.handle_message(rep(id), response, &PartialCertificate::new(), 4).outgoing;
    }
    last.unwrap()
}

fn answer_last_step(election: &mut OrderingElection, flags: &[bool]) {
    for (at, flag) in flags.iter().enumerate() {
        let pairs = vec![FlaggedValue { flag: *flag, value: blocks(&[7]) }];
        election.b_responses.insert(rep(at as u64 + 1), pairs);
    }
}

#[test]
fn quorum_is_twice_the_faulty_members_and_one() {
    assert_eq!(quorum_size(1), 1);
    assert_eq!(quorum_size(4), 3);
    assert_eq!(quorum_size(6), 3);
    assert_eq!(quorum_size(7), 5);
}

#[test]
fn an_election_starts_by_asking_for_ranks() {
    let (election, outgoing) = OrderingElection::create_ordering_election(blocks(&[1, 2]), 1_000);

    assert_eq!(election.rank, 0);
    assert_eq!(election.timeout_ms, 31_000);
    assert!(matches!(election.state, ArchipelagoState::RStep));
    assert_eq!(
        outgoing,
        Outgoing::Broadcast {
            message: Message::RStepQuery { rank: 0, value: blocks(&[1, 2]) },
            certificate: PartialCertificate::new(),
        }
    );
}

#[test]
fn the_value_of_the_highest_rank_is_adopted() {
    let (mut election, _) = OrderingElection::create_ordering_election(blocks(&[1]), 0);
    let outgoing = through_first_step(&mut election);

    assert_eq!(election.current_value, blocks(&[1, 2]));
    assert!(matches!(election.state, ArchipelagoState::AStep));
    match outgoing {
        Outgoing::Broadcast { message, certificate } => {
            assert_eq!(message, Message::AStepQuery { rank: 0, value: blocks(&[1, 2]) });
            assert_eq!(certificate.responses.keys_vec(), vec![rep(1), rep(2), rep(3)]);
        }
        Outgoing::Reply { .. } => panic!("a step starts with a broadcast"),
    }
}

#[test]
fn agreement_is_flagged_and_dissent_is_not() {
    let (mut election, _) = OrderingElection::create_ordering_election(blocks(&[1]), 0);
    through_first_step(&mut election);
    assert_eq!(flag_of(&through_second_step(&mut election, false)), Some(true));

    let (mut election, _) = OrderingElection::create_ordering_election(blocks(&[1]), 0);
    through_first_step(&mut election);
    assert_eq!(flag_of(&through_second_step(&mut election, true)), Some(false));
}

#[test]
fn a_quorum_of_flags_completes_and_one_flag_is_followed() {
    let (mut election, _) = OrderingElection::create_ordering_election(blocks(&[1]), 0);
    answer_last_step(&mut election, &[true, true, true]);
    assert_eq!(election.process_b_responses(4, 0), None);
    assert!(matches!(election.state, ArchipelagoState::Completed));

    let (mut election, _) = OrderingElection::create_ordering_election(blocks(&[1]), 0);
    answer_last_step(&mut election, &[false, true, false]);
    assert!(election.process_b_responses(4, 5_000).is_some());
    assert_eq!(election.rank, 1);
    assert_eq!(election.current_value, blocks(&[7]));
    assert_eq!(election.timeout_ms, 35_000);

    let (mut election, _) = OrderingElection::create_ordering_election(blocks(&[1]), 0);
    answer_last_step(&mut election, &[false, false, false]);
    assert!(election.process_b_responses(4, 0).is_some());
    assert_eq!(election.current_value, blocks(&[1]));
}

#[test]
fn queries_are_answered_with_the_own_value() {
    let (mut election, _) = OrderingElection::create_ordering_election(blocks(&[1]), 0);
    let query = Message::RStepQuery { rank: 0, value: blocks(&[2]) };
    let handled = election.handle_message(rep(9), query, &PartialCertificate::new(), 4);
    assert!(handled.accepted);
    assert_eq!(
        handled.outgoing,
        Some(Outgoing::Reply {
            recipient: rep(9),
            message: Message::RStepResponse { rank: 0, max_rank: 0, value: blocks(&[1]) },
        })
    );

    let uncertified = Message::RStepQuery { rank: 2, value: blocks(&[2]) };
    assert!(!election.handle_message(rep(9), uncertified, &PartialCertificate::new(), 4).accepted);
    assert_eq!(election.rank, 0);
}

#[test]
fn a_timeout_starts_the_next_round() {
    let (mut election, _) = OrderingElection::create_ordering_election(blocks(&[1]), 0);
    assert_eq!(election.check_timeout(29_999), None);
    assert_eq!(election.rank, 0);
    assert!(election.check_timeout(30_001).is_some());
    assert_eq!(election.rank, 1);
}

#[test]
fn committed_blocks_are_handed_out_at_the_threshold() {
    let mut scheduler = OrderingScheduler::new();
    for hash in 1..1000 {
        let committed = scheduler.increment_committed_count(BlockHash::from(hash));
        assert_eq!(committed.count, hash as usize);
        assert!(committed.blocks_to_order.is_none());
    }
    let due = scheduler.increment_committed_count(BlockHash::from(1000));
    assert_eq!(due.blocks_to_order.unwrap().len(), 1000);
    assert_eq!(scheduler.increment_committed_count(BlockHash::from(1001)).count, 1);
}

#[test]
fn only_votes_of_the_epoch_are_removed() {
    let votes = vec![
        LocalVote { voter: rep(1), epoch: 4 },
        LocalVote { voter: rep(2), epoch: 5 },
        LocalVote { voter: rep(3), epoch: 4 },
    ];
    assert_eq!(LocalVotesRemover::remove_local_votes_in_epoch(&votes, 4), vec![rep(1), rep(3)]);
}

#[test]
fn only_forks_are_cached() {
    let results = vec![
        ProcessResult { hash: BlockHash::from(1), status: BlockStatus::Progress },
        ProcessResult { hash: BlockHash::from(2), status: BlockStatus::Fork },
        ProcessResult { hash: BlockHash::from(3), status: BlockStatus::Refused },
    ];
    assert_eq!(ForkCacheUpdater::new().update(&results), vec![BlockHash::from(2)]);
}
