use rai_consensus::dependency_closure::{BlockGraph, ClosureError, Dependencies, KnownBlock};
use rai_consensus::epoch_commitment::{closure_commitment, cut_slots_hash, local_finalization, DependencyDeath};
use rai_consensus::epoch_coordinator::{
    recover_cut, Branch, Candidate, EpochCoordinator, EpochFacts, EpochFinalization, EpochStart, EpochStep, Loss, PendingElection,
    Phase, Successor,
};
use rai_consensus::epoch_reports::{EpochReportChunk, EpochReportRequest};
use rai_consensus::ordered::{Pair, SortedMap, SortedSet};
use rai_consensus::types::{Amount, BlockHash, PublicKey, Root};
use rai_consensus::vote_gate::{SlotRoot, VoteGate};

fn hash(value: u64) -> BlockHash {
    BlockHash::from(value)
}

fn key(value: u64) -> PublicKey {
    PublicKey::from(value)
}

fn genesis() -> BlockHash {
    hash(1_000)
}

fn slot_after(previous: BlockHash) -> SlotRoot {
    SlotRoot { root: Root { hi: previous.hi, lo: previous.lo }, previous }
}

/// A block outside the ledger that depends on its predecessor alone.
fn change(previous: BlockHash) -> KnownBlock {
    KnownBlock {
        slot: slot_after(previous),
        previous,
        height: None,
        balance: None,
        dependencies: Dependencies::Listed { first: previous, second: BlockHash::zero() },
    }
}

fn receive_of(previous: BlockHash, source: BlockHash) -> KnownBlock {
    KnownBlock {
        slot: slot_after(previous),
        previous,
        height: None,
        balance: None,
        dependencies: Dependencies::Listed { first: previous, second: source },
    }
}

fn saved(previous: BlockHash, height: u64) -> KnownBlock {
    let mut block = change(previous);
    block.height = Some(height);
    block.balance = Some(Amount::raw(1));
    block
}

fn state(previous: BlockHash, balance: u128, link: BlockHash) -> KnownBlock {
    KnownBlock {
        slot: slot_after(previous),
        previous,
        height: None,
        balance: Some(Amount::raw(balance)),
        dependencies: Dependencies::State { previous, link, balance: Amount::raw(balance) },
    }
}

fn graph() -> BlockGraph {
    let mut blocks = SortedMap::new();
    let mut first = saved(BlockHash::zero(), 1);
    first.balance = Some(Amount::raw(1_000));
    blocks.insert(genesis(), first);
    BlockGraph {
        genesis: genesis(),
        blocks,
        certified: SortedMap::new(),
        cemented: SortedMap::new(),
        assigned: SortedMap::new(),
    }
}

fn facts() -> EpochFacts {
    EpochFacts {
        graph: graph(),
        finalized: SortedMap::new(),
        repair: SortedMap::new(),
        observed: SortedSet::new(),
        terminated: SortedSet::new(),
        wanting: SortedSet::new(),
    }
}

/// Adds a block that is a candidate in its election.
fn offer(facts: &mut EpochFacts, hash: BlockHash, block: KnownBlock) {
    facts.graph.blocks.insert(hash, block);
    let mut candidates = match facts.repair.remove(&block.slot) {
        Some(candidates) => candidates,
        None => SortedSet::new(),
    };
    candidates.insert(hash);
    facts.repair.insert(block.slot, candidates);
}

fn finalize(facts: &mut EpochFacts, hash: BlockHash) {
    let slot = facts.graph.blocks.get(&hash).unwrap().slot;
    let mut more = SortedMap::new();
    more.insert(slot, hash);
    facts.merge_finalized(&more);
}

fn pairs(map: &SortedMap<SlotRoot, BlockHash>) -> Vec<(SlotRoot, BlockHash)> {
    (0..map.len()).map(|i| (map.key_at(i), *map.value_at(i))).collect()
}

fn sorted(mut entries: Vec<(SlotRoot, BlockHash)>) -> Vec<(SlotRoot, BlockHash)> {
    entries.sort();
    entries
}

fn coordinator() -> EpochCoordinator {
    EpochCoordinator::new(SortedSet::new())
}

fn round_coordinator() -> EpochCoordinator {
    let mut coordinator = EpochCoordinator::new(SortedSet::from_vec(&vec![key(1), key(2)]));
    coordinator.closing_epoch = 1;
    coordinator.phase = Phase::Converging;
    coordinator
}

fn deliver_round(source: &EpochCoordinator, target: &mut EpochCoordinator, round: u32) {
    let report = *source.local_round_reports.get(&Pair(1, round)).unwrap();
    target.receive_finalization(report, true);
}

fn chunk(epoch: u64, reporter: u64, chunk_index: u16, chunk_count: u16, elections: Vec<SlotRoot>) -> EpochReportChunk {
    EpochReportChunk { reporter: key(reporter), epoch, chunk_index, chunk_count, elections }
}

fn finalization(epoch: u64, round: u32, reporter: u64, finalized: u64, non_cut_count: u64) -> EpochFinalization {
    EpochFinalization { reporter: key(reporter), epoch, round, finalized_hash: hash(finalized), non_cut_count }
}

const PARENT: u64 = 100;
const CHILD: u64 = 101;
const WINNER: u64 = 102;

/// A child and its parent that were rolled back for another block.
fn rolled_back_dependency_fixture(coordinator: &mut EpochCoordinator) -> EpochFacts {
    let mut facts = facts();
    offer(&mut facts, hash(PARENT), change(genesis()));
    offer(&mut facts, hash(CHILD), change(hash(PARENT)));
    facts.graph.blocks.insert(hash(WINNER), saved(genesis(), 2));
    coordinator.closing_epoch = 2;
    coordinator.phase = Phase::Cut;
    coordinator.cut = SortedSet::from_vec(&vec![slot_after(hash(PARENT))]);
    coordinator.recovery_cut = SortedSet::from_vec(&vec![slot_after(hash(PARENT))]);
    facts
}

#[test]
fn retained_dead_cut_slot_resolves_with_same_commitment_as_active_election() {
    let mut commitments = Vec::new();
    for active_before_conflict in [false, true] {
        let mut c = coordinator();
        let mut facts = facts();
        let (source, receive, winner) = (hash(10), hash(12), hash(11));
        let account = hash(77);
        let mut body = receive_of(BlockHash::zero(), source);
        body.slot = slot_after(account);
        let slot = body.slot;
        facts.graph.blocks.insert(source, change(genesis()));
        facts.graph.blocks.insert(winner, saved(genesis(), 2));
        facts.graph.cemented.insert(slot_after(genesis()), winner);
        if active_before_conflict {
            offer(&mut facts, receive, body);
        }
        c.closing_epoch = 2;
        c.phase = Phase::Cut;
        c.cut = SortedSet::from_vec(&vec![slot]);
        c.recovery_cut = SortedSet::from_vec(&vec![slot]);
        assert!(c.receive_recovery_block(receive, slot).is_empty());
        offer(&mut facts, receive, body);
        let mut missing = SortedSet::new();
        match facts.graph.checked_dependency_closure(2, &vec![receive], &mut missing) {
            Err(ClosureError::FinalizedConflict { hash, winner: competitor }) => {
                assert_eq!(hash, source);
                assert_eq!(competitor, winner);
            }
            _ => panic!("the source lost"),
        }
        let closure = c.complete_cut_dependency_closure(&mut facts).unwrap();
        assert!(c.dependency_dead.contains_key(&receive));
        assert!(facts.cut_is_resolved(&c.cut, &c.dependency_dead));
        assert_eq!(
            closure.dependency_deaths.to_vec(),
            vec![DependencyDeath { candidate: receive, dependency: source, winner }]
        );
        commitments.push(closure_commitment(2, &c.cut, &closure));

        // A viable alternative must prevent excluding the entire slot.
        let live = hash(13);
        let mut alternative = receive_of(BlockHash::zero(), winner);
        alternative.slot = slot;
        offer(&mut facts, live, alternative);
        c.epoch_dependency_closure(&mut facts, false);
        assert!(!c.dependency_dead.contains_key(&live));
        assert!(!facts.cut_is_resolved(&c.cut, &c.dependency_dead));
    }
    assert_eq!(commitments[0], commitments[1]);
}

#[test]
fn rolled_back_child_is_excluded_only_after_competing_parent_is_finalized() {
    let mut a = round_coordinator();
    let mut b = round_coordinator();
    for (coordinator, id) in [(&mut a, 1), (&mut b, 2)] {
        let mut facts = rolled_back_dependency_fixture(coordinator);
        coordinator.epoch_dependency_closure(&mut facts, true);
        assert!(coordinator.dependency_dead.is_empty());
        assert!(!facts.cut_is_resolved(&coordinator.cut, &coordinator.dependency_dead));
        facts.graph.cemented.insert(slot_after(genesis()), hash(WINNER));
        coordinator.epoch_dependency_closure(&mut facts, true);
        assert_eq!(
            *coordinator.dependency_dead.get(&hash(CHILD)).unwrap(),
            Loss { dependency: hash(PARENT), winner: hash(WINNER) }
        );
        assert!(facts.cut_is_resolved(&coordinator.cut, &coordinator.dependency_dead));
        assert!(!facts.terminated.contains(&slot_after(hash(PARENT))));
        assert!(coordinator.send_local_finalization(&mut facts, Some(key(id))).is_some());
        let closure = coordinator.local_round_snapshot.as_ref().unwrap();
        assert!(closure.finalized.is_empty());
        assert_eq!(
            closure.dependency_deaths.to_vec(),
            vec![DependencyDeath { candidate: hash(CHILD), dependency: hash(PARENT), winner: hash(WINNER) }]
        );
        assert_ne!(
            closure_commitment(2, &coordinator.cut, closure).hash,
            local_finalization(2, &coordinator.cut, &closure.finalized).hash
        );
    }
    let from_a = *a.local_round_reports.get(&Pair(2, 0)).unwrap();
    let from_b = *b.local_round_reports.get(&Pair(2, 0)).unwrap();
    a.receive_finalization(from_b, true);
    b.receive_finalization(from_a, true);
    let mut gate = VoteGate::default();
    assert!(a.evaluate_finalizations(&mut gate, Some(key(1))).is_some());
    assert!(b.evaluate_finalizations(&mut gate, Some(key(2))).is_some());
    assert_eq!(a.phase, Phase::Complete);
    assert_eq!(b.phase, Phase::Complete);
    assert_eq!(
        a.local_round_reports.get(&Pair(2, 0)).unwrap().finalized_hash,
        b.local_round_reports.get(&Pair(2, 0)).unwrap().finalized_hash
    );
}

/// Two blocks after the first one, and a successor of the lower of them.
fn fork_candidates(facts: &mut EpochFacts) -> (BlockHash, BlockHash, BlockHash) {
    let (a, b, c) = (hash(220), hash(210), hash(230));
    offer(facts, a, change(genesis()));
    offer(facts, b, change(genesis()));
    offer(facts, c, change(b));
    (a, b, c)
}

#[test]
fn finalized_slot_does_not_commit_irrelevant_losing_alternatives() {
    let mut coordinator = coordinator();
    coordinator.closing_epoch = 1;
    let mut facts = facts();
    let (a, b, _) = fork_candidates(&mut facts);
    coordinator.cut.insert(slot_after(genesis()));
    finalize(&mut facts, a);
    let closure = coordinator.complete_cut_dependency_closure(&mut facts).unwrap();
    assert!(coordinator.dependency_dead.contains_key(&b));
    assert!(closure.dependency_deaths.is_empty());
    assert_eq!(pairs(&closure.finalized), vec![(slot_after(genesis()), a)]);
}

#[test]
fn dependency_death_propagates_but_an_unresolved_alternative_keeps_slot_open() {
    let mut coordinator = coordinator();
    let mut facts = rolled_back_dependency_fixture(&mut coordinator);
    facts.graph.cemented.insert(slot_after(genesis()), hash(WINNER));
    let (descendant, dead_receive, live_receive) = (hash(110), hash(111), hash(112));
    offer(&mut facts, descendant, change(hash(CHILD)));
    coordinator.cut.insert(slot_after(hash(CHILD)));
    offer(&mut facts, dead_receive, receive_of(hash(123), hash(PARENT)));
    offer(&mut facts, live_receive, receive_of(hash(123), hash(WINNER)));
    coordinator.cut.insert(slot_after(hash(123)));
    coordinator.epoch_dependency_closure(&mut facts, true);
    assert!(coordinator.dependency_dead.contains_key(&descendant));
    assert!(coordinator.dependency_dead.contains_key(&dead_receive));
    assert!(!coordinator.dependency_dead.contains_key(&live_receive));
    assert_eq!(
        facts.unresolved_slots(&coordinator.cut, &coordinator.dependency_dead).to_vec(),
        vec![slot_after(hash(123))]
    );
    assert!(coordinator.missing_vote_blocks.contains(&Pair(2, hash(123))));
    assert!(!facts.cut_is_resolved(&coordinator.cut, &coordinator.dependency_dead));
}

#[test]
fn early_next_epoch_report_survives_previous_epoch_completion() {
    let mut a = round_coordinator();
    let mut b = round_coordinator();
    let mut gate = VoteGate::default();
    a.next_start = Some(EpochStart { epoch: 2, starts_at_unix_ms: 1, closes_at_unix_ms: 2 });
    let slot = SlotRoot { root: Root::from(77), previous: hash(77) };
    let early = chunk(2, 2, 0, 1, vec![slot]);
    assert!(a.receive_report(&early, true).is_none());
    assert!(a.receive_report(&early, true).is_none());
    assert!(a.reports.is_empty());
    assert!(a.cut.is_empty());
    assert_eq!(a.next_epoch_reports.len(), 1);
    a.send_local_finalization(&mut facts(), Some(key(1)));
    b.send_local_finalization(&mut facts(), Some(key(2)));
    deliver_round(&b, &mut a, 0);
    assert!(a.evaluate_finalizations(&mut gate, Some(key(1))).is_some());
    assert_eq!(a.closing_epoch, 2);
    assert!(a.next_epoch_reports.is_empty());
    assert_eq!(*a.reports.get(&key(2)).unwrap().chunks.get(&0).unwrap(), vec![slot]);
    a.close(&mut gate, 2, &vec![], vec![], Some(key(1)), 10);
    assert!(a.all_reports_complete());
}

#[test]
fn missing_report_chunks_are_recovered_from_peer_after_it_advances() {
    let mut a = round_coordinator();
    let mut b = round_coordinator();
    a.phase = Phase::Collecting;
    a.receive_report(&chunk(1, 1, 0, 1, vec![]), true);
    for index in 0..2u16 {
        let slot = SlotRoot { root: Root::from(100 + index as u64), previous: hash(0) };
        b.local_report_chunks.insert(Pair(1, index), chunk(1, 2, index, 2, vec![slot]));
    }
    b.closing_epoch = 2;
    b.phase = Phase::Complete;
    for index in 0..2u16 {
        let requests = a.missing_report_requests(Some(key(1)));
        assert_eq!(requests.len(), 1);
        assert_eq!(requests[0].reporter, key(2));
        assert_eq!(requests[0].request.chunk_index, index);
        assert_eq!(requests[0].request.requester, key(1));
        let chunk = b.receive_report_request(&requests[0].request, true).unwrap();
        a.receive_report(&chunk, true);
        a.receive_report(&chunk, true);
    }
    assert!(a.all_reports_complete());
    assert!(a.missing_report_requests(Some(key(1))).is_empty());
    let stranger = EpochReportRequest { requester: key(3), epoch: 1, chunk_index: 0 };
    assert!(b.receive_report_request(&stranger, true).is_none());
    let altered = EpochReportRequest { requester: key(1), epoch: 1, chunk_index: 1 };
    assert!(b.receive_report_request(&altered, false).is_none());
}

#[test]
fn buffered_report_authentication_and_first_commitment_are_preserved() {
    let mut a = round_coordinator();
    let mut invalid = chunk(2, 2, 0, 1, vec![]);
    invalid.epoch = 1;
    a.receive_report(&invalid, false);
    a.receive_report(&chunk(2, 3, 0, 1, vec![]), true);
    assert!(a.reports.is_empty());
    assert!(a.next_epoch_reports.is_empty());
    a.receive_report(&chunk(2, 2, 0, 1, vec![]), true);
    a.receive_report(&chunk(2, 2, 0, 1, vec![SlotRoot { root: Root::from(1), previous: hash(1) }]), true);
    assert!(a.next_epoch_reports.get(&key(2)).unwrap().chunks.get(&0).unwrap().is_empty());
}

/// Finalizes one block after the first one.
fn finalize_test_block(facts: &mut EpochFacts) -> BlockHash {
    let block = hash(500);
    offer(facts, block, change(genesis()));
    finalize(facts, block);
    block
}

#[test]
fn local_round_commitment_is_immutable_and_unanimity_seals_its_snapshot() {
    let mut a = round_coordinator();
    let mut b = round_coordinator();
    let mut gate = VoteGate::default();
    let mut known = facts();
    a.send_local_finalization(&mut known, Some(key(1)));
    b.send_local_finalization(&mut facts(), Some(key(2)));
    let committed = *a.local_round_reports.get(&Pair(1, 0)).unwrap();
    finalize_test_block(&mut known);
    assert!(a.send_local_finalization(&mut known, Some(key(1))).is_none());
    assert_eq!(*a.local_round_reports.get(&Pair(1, 0)).unwrap(), committed);
    assert_ne!(a.live_epoch_hash, Some(committed.finalized_hash));
    assert_eq!(known.finalized.len(), 1);
    deliver_round(&a, &mut b, 0);
    deliver_round(&b, &mut a, 0);
    let sealed_a = a.evaluate_finalizations(&mut gate, Some(key(1))).unwrap();
    let sealed_b = b.evaluate_finalizations(&mut gate, Some(key(2))).unwrap();
    assert_eq!(a.phase, Phase::Complete);
    assert_eq!(b.phase, Phase::Complete);
    assert!(sealed_a.finalized.is_empty());
    assert_eq!(pairs(&sealed_a.finalized), pairs(&sealed_b.finalized));
    assert_eq!(*a.local_round_reports.get(&Pair(1, 0)).unwrap(), committed);
}

#[test]
fn lagging_pr_reaches_count_then_highest_pr_follows_its_next_round_report() {
    let mut a = round_coordinator();
    let mut b = round_coordinator();
    let mut gate = VoteGate::default();
    let (mut known_a, mut known_b) = (facts(), facts());
    finalize_test_block(&mut known_a);
    a.send_local_finalization(&mut known_a, Some(key(1)));
    b.send_local_finalization(&mut known_b, Some(key(2)));
    deliver_round(&a, &mut b, 0);
    deliver_round(&b, &mut a, 0);
    assert!(a.evaluate_finalizations(&mut gate, Some(key(1))).is_none());
    assert!(b.evaluate_finalizations(&mut gate, Some(key(2))).is_none());
    assert_eq!(a.finalization_round, 1);
    assert_eq!(b.target_non_cut_count, 1);
    a.send_local_finalization(&mut known_a, Some(key(1)));
    b.send_local_finalization(&mut known_b, Some(key(2)));
    assert!(!a.local_round_reports.contains_key(&Pair(1, 1)));
    assert!(!b.local_round_reports.contains_key(&Pair(1, 1)));
    finalize_test_block(&mut known_b);
    b.send_local_finalization(&mut known_b, Some(key(2)));
    assert!(b.local_round_reports.contains_key(&Pair(1, 1)));
    a.send_local_finalization(&mut known_a, Some(key(1)));
    assert!(!a.local_round_reports.contains_key(&Pair(1, 1)));
    deliver_round(&b, &mut a, 1);
    a.send_local_finalization(&mut known_a, Some(key(1)));
    deliver_round(&a, &mut b, 1);
    let sealed_a = a.evaluate_finalizations(&mut gate, Some(key(1))).unwrap();
    let sealed_b = b.evaluate_finalizations(&mut gate, Some(key(2))).unwrap();
    assert_eq!(a.phase, Phase::Complete);
    assert_eq!(b.phase, Phase::Complete);
    assert_eq!(pairs(&sealed_a.finalized), pairs(&sealed_b.finalized));
}

#[test]
fn previous_highest_count_does_not_cap_next_round_report() {
    let mut coordinator = round_coordinator();
    coordinator.finalization_round = 1;
    coordinator.target_non_cut_count = 1;
    coordinator.wait_for_round_peer = true;
    let mut facts = facts();
    let parent = finalize_test_block(&mut facts);
    offer(&mut facts, hash(501), change(parent));
    finalize(&mut facts, hash(501));
    coordinator.send_local_finalization(&mut facts, Some(key(1)));
    let report = *coordinator.local_round_reports.get(&Pair(1, 1)).unwrap();
    assert_eq!(report.non_cut_count, 2);
    assert_eq!(coordinator.local_round_snapshot.as_ref().unwrap().finalized.len(), 2);
    assert_eq!(coordinator.live_epoch_hash, Some(report.finalized_hash));
}

#[test]
fn recovery_keeps_cut_non_cut_and_next_epoch_elections_while_waiting_for_round() {
    let mut coordinator = round_coordinator();
    let slots: Vec<SlotRoot> = (1..=3).map(|previous| slot_after(hash(previous))).collect();
    coordinator.cut.insert(slots[0]);
    coordinator.wait_for_round_peer = true;
    coordinator.target_non_cut_count = 100;
    for phase in [Phase::Collecting, Phase::Cut, Phase::Converging] {
        coordinator.phase = phase;
        let asked = coordinator.vote_recovery_slots(&slots, &vec![]);
        assert_eq!(asked.len(), 3);
        for slot in &slots {
            assert!(asked.contains(slot));
        }
    }
    assert_eq!(coordinator.vote_recovery_slots(&vec![slots[0], slots[2]], &vec![]).len(), 2);
}

#[test]
fn conflicting_current_and_future_round_reports_never_replace_first_commitment() {
    let mut coordinator = round_coordinator();
    for round in [0, 2] {
        for value in [7, 8] {
            coordinator.receive_finalization(finalization(1, round, 2, value, value), true);
        }
    }
    assert_eq!(coordinator.finalization_reports.get(&key(2)).unwrap().finalized_hash, hash(7));
    assert_eq!(coordinator.future_finalization_reports.get(&2).unwrap().get(&key(2)).unwrap().non_cut_count, 7);
}

#[test]
fn tied_highest_counts_have_one_next_round_initiator() {
    let mut a = round_coordinator();
    let mut b = round_coordinator();
    let mut gate = VoteGate::default();
    for (coordinator, own) in [(&mut a, 1), (&mut b, 2)] {
        for id in [1, 2] {
            coordinator.receive_finalization(finalization(1, 0, id, id, 0), true);
        }
        coordinator.evaluate_finalizations(&mut gate, Some(key(own)));
    }
    assert_ne!(a.wait_for_round_peer, b.wait_for_round_peer);
    let initiator = a.committee.at(0);
    assert_eq!(!a.wait_for_round_peer, a.committee_key(&vec![key(1)]).unwrap() == initiator);
}

#[test]
fn sealed_pr_retransmits_commitment_until_delayed_peer_can_seal() {
    let mut a = round_coordinator();
    let mut b = round_coordinator();
    let mut gate = VoteGate::default();
    a.send_local_finalization(&mut facts(), Some(key(1)));
    b.send_local_finalization(&mut facts(), Some(key(2)));
    // The first report of one is lost, but that of the other arrives.
    deliver_round(&b, &mut a, 0);
    a.evaluate_finalizations(&mut gate, Some(key(1)));
    assert_eq!(a.phase, Phase::Complete);
    assert_ne!(b.phase, Phase::Complete);
    a.next_finalization_broadcast_ms = 0;
    let retransmissions = a.rebroadcast_finalizations(1_000);
    assert!(!retransmissions.is_empty());
    for report in retransmissions {
        b.receive_finalization(report, true);
    }
    b.evaluate_finalizations(&mut gate, Some(key(2)));
    assert_eq!(b.phase, Phase::Complete);
}

#[test]
fn updated_cut_at_highest_count_can_initiate_next_round_without_peer() {
    let mut coordinator = round_coordinator();
    let mut facts = facts();
    finalize_test_block(&mut facts);
    let slot = slot_after(genesis());
    coordinator.cut.insert(slot);
    // The previous round committed a timeout for this cut slot. A late
    // certificate now supplies its value without changing the non-cut count.
    let previous = finalization(1, 0, 1, 9, 0);
    coordinator.local_round_cut_hashes.insert(Pair(1, 0), hash(99));
    coordinator.local_round_reports.insert(Pair(1, 0), previous);
    coordinator.finalization_round = 1;
    coordinator.target_non_cut_count = 0;
    coordinator.wait_for_round_peer = true;
    coordinator.send_local_finalization(&mut facts, Some(key(1)));
    let report = *coordinator.local_round_reports.get(&Pair(1, 1)).unwrap();
    assert_eq!(report.non_cut_count, 0);
    assert_ne!(report.finalized_hash, previous.finalized_hash);
    assert_eq!(*coordinator.local_round_reports.get(&Pair(1, 0)).unwrap(), previous);
    assert_eq!(coordinator.finalization_reports.len(), 1);
}

#[test]
fn vote_for_missing_body_starts_its_epoch_when_body_arrives() {
    let mut coordinator = coordinator();
    coordinator.committee.insert(key(1));
    let block = hash(600);
    let attach = coordinator.observe_vote_blocks(&key(1), 2, &vec![block], true, &SortedSet::new(), &SortedSet::new());
    assert!(attach.is_empty());
    assert!(coordinator.missing_vote_blocks.contains(&Pair(2, block)));
    assert_eq!(coordinator.receive_recovery_block(block, slot_after(hash(5))), vec![2]);
}

#[test]
fn retained_recovery_body_still_starts_an_absent_election() {
    let mut coordinator = coordinator();
    coordinator.committee.insert(key(1));
    let block = hash(600);
    let known = SortedSet::from_vec(&vec![block]);
    let attach = coordinator.observe_vote_blocks(&key(1), 1, &vec![block], true, &known, &SortedSet::new());
    assert_eq!(attach.to_vec(), vec![block]);
    assert!(coordinator.missing_vote_blocks.is_empty());
}

#[test]
fn finalized_dependency_closure_moves_unsealed_ancestors_to_earlier_epoch() {
    let mut coordinator = coordinator();
    coordinator.closing_epoch = 1;
    let mut facts = facts();
    let (parent, child) = (hash(300), hash(301));
    offer(&mut facts, parent, change(genesis()));
    offer(&mut facts, child, change(parent));
    facts.graph.certified.insert(slot_after(genesis()), parent);
    finalize(&mut facts, child);
    let closure = coordinator.complete_cut_dependency_closure(&mut facts).unwrap();
    let expected = sorted(vec![(slot_after(genesis()), parent), (slot_after(parent), child)]);
    assert_eq!(pairs(&closure.finalized), expected);
    assert_eq!(pairs(&facts.finalized), expected);
}

#[test]
fn finalized_dependency_closure_preserves_sealed_ancestors() {
    let mut coordinator = coordinator();
    coordinator.closing_epoch = 2;
    let mut facts = facts();
    let (parent, child) = (hash(300), hash(301));
    offer(&mut facts, parent, change(genesis()));
    offer(&mut facts, child, change(parent));
    facts.graph.certified.insert(slot_after(genesis()), parent);
    facts.graph.assigned.insert(slot_after(genesis()), 1);
    finalize(&mut facts, child);
    let closure = coordinator.complete_cut_dependency_closure(&mut facts).unwrap();
    assert_eq!(pairs(&closure.finalized), vec![(slot_after(parent), child)]);
    assert_eq!(pairs(&facts.finalized), vec![(slot_after(parent), child)]);
}

#[test]
fn descendant_selects_lower_hash_ancestor_independent_of_input_order() {
    let mut facts = facts();
    let (a, b, c) = fork_candidates(&mut facts);
    let mut missing = SortedSet::new();
    for candidates in [vec![a, b, c], vec![c, b, a]] {
        let selected =
            facts.graph.select_compatible_candidates(1, SortedMap::new(), &candidates, &mut missing).unwrap();
        assert_eq!(pairs(&selected), sorted(vec![(slot_after(genesis()), b), (slot_after(b), c)]));
    }
    let selected = facts.graph.select_compatible_candidates(1, SortedMap::new(), &vec![b, a], &mut missing).unwrap();
    assert_eq!(pairs(&selected), vec![(slot_after(genesis()), a)]);
}

#[test]
fn cut_closure_uses_all_certificates_and_commits_compatible_winners() {
    let mut coordinator = coordinator();
    coordinator.closing_epoch = 1;
    let mut facts = facts();
    let (a, b, c) = fork_candidates(&mut facts);
    for (block, slot) in [(a, slot_after(genesis())), (b, slot_after(genesis())), (c, slot_after(b))] {
        coordinator.cut.insert(slot);
        facts.observed.insert(block);
        facts.terminated.insert(slot);
    }
    assert_eq!(facts.observed.len(), 3);
    let closure = coordinator.complete_cut_dependency_closure(&mut facts).unwrap();
    assert_eq!(pairs(&closure.finalized), sorted(vec![(slot_after(genesis()), b), (slot_after(b), c)]));
    assert_eq!(closure.cut_winners.to_vec(), vec![b, c]);
    assert!(facts.finalized.is_empty());
}

#[test]
fn descendant_cannot_replace_finalized_competing_ancestor() {
    let mut facts = facts();
    let (a, b, c) = fork_candidates(&mut facts);
    finalize(&mut facts, a);
    facts.graph.assigned.insert(slot_after(genesis()), 1);
    let mut missing = SortedSet::new();
    let selected = facts.graph.select_compatible_candidates(2, SortedMap::new(), &vec![b, c], &mut missing).unwrap();
    assert!(selected.is_empty());
}

#[test]
fn retained_state_send_does_not_treat_recipient_as_dependency() {
    let mut facts = facts();
    let recipient = hash(123);
    let (parent, send) = (hash(400), hash(401));
    facts.graph.blocks.insert(parent, state(genesis(), 100, hash(124)));
    facts.graph.blocks.insert(send, state(parent, 99, recipient));
    assert!(facts.graph.blocks.get(&parent).unwrap().height.is_none());
    let mut missing = SortedSet::new();
    let closure = facts.graph.dependency_closure(2, &vec![send], &mut missing);
    assert!(closure.is_some());
    assert_eq!(
        pairs(&closure.unwrap()),
        sorted(vec![(slot_after(genesis()), parent), (slot_after(parent), send)])
    );
    assert!(!missing.contains(&Pair(2, recipient)));
}

#[test]
fn unknown_state_predecessor_is_recovered_before_interpreting_link() {
    let mut facts = facts();
    let previous = hash(123);
    let recipient = hash(124);
    facts.graph.blocks.insert(hash(401), state(previous, 99, recipient));
    let mut missing = SortedSet::new();
    assert!(facts.graph.dependency_closure(2, &vec![hash(401)], &mut missing).is_none());
    assert_eq!(missing.to_vec(), vec![Pair(2, previous)]);
}

#[test]
fn retained_state_receive_still_recovers_its_source() {
    let mut facts = facts();
    let source = hash(123);
    facts.graph.blocks.insert(hash(400), state(genesis(), 100, hash(124)));
    facts.graph.blocks.insert(hash(401), state(hash(400), 101, source));
    let mut missing = SortedSet::new();
    assert!(facts.graph.dependency_closure(2, &vec![hash(401)], &mut missing).is_none());
    assert_eq!(missing.to_vec(), vec![Pair(2, source)]);
}

#[test]
fn already_cemented_send_and_its_parent_inherit_receivers_finalization_epoch() {
    let mut coordinator = coordinator();
    coordinator.closing_epoch = 1;
    let mut facts = facts();
    let (parent, send, receive) = (hash(300), hash(301), hash(302));
    facts.graph.blocks.insert(parent, saved(genesis(), 2));
    facts.graph.blocks.insert(send, saved(parent, 3));
    let mut body = receive_of(BlockHash::zero(), send);
    body.slot = slot_after(hash(2));
    body.height = Some(1);
    facts.graph.blocks.insert(receive, body);
    facts.graph.cemented.insert(slot_after(genesis()), parent);
    facts.graph.cemented.insert(slot_after(parent), send);
    finalize(&mut facts, receive);
    let closure = coordinator.complete_cut_dependency_closure(&mut facts).unwrap();
    assert_eq!(closure.finalized.len(), 3);
    for (slot, block) in [(slot_after(genesis()), parent), (slot_after(parent), send), (slot_after(hash(2)), receive)] {
        assert_eq!(closure.finalized.get(&slot), Some(&block));
    }
}

#[test]
fn an_epoch_runs_from_its_schedule_to_its_seal() {
    let mut gate = VoteGate::default();
    let mut c = EpochCoordinator::new(SortedSet::from_vec(&vec![key(1)]));
    let start = EpochStart { epoch: 1, starts_at_unix_ms: 100, closes_at_unix_ms: 300 };
    assert!(c.schedule(&mut gate, start));
    let sooner = EpochStart { epoch: 1, starts_at_unix_ms: 100, closes_at_unix_ms: 200 };
    assert!(!c.schedule(&mut gate, sooner));
    assert_eq!(c.phase, Phase::Scheduled { start: sooner });
    let slot = slot_after(hash(7));
    assert!(!gate.enter(&slot.with_epoch(1)));
    assert!(matches!(c.next_step(99), EpochStep::Idle));
    assert!(matches!(c.next_step(100), EpochStep::Start));
    c.start(&mut gate);
    assert!(gate.enter(&slot.with_epoch(1)));
    assert!(!c.schedule(&mut gate, EpochStart { epoch: 2, starts_at_unix_ms: 200, closes_at_unix_ms: 400 }));
    assert!(matches!(c.next_step(199), EpochStep::Idle));
    assert!(matches!(c.next_step(200), EpochStep::Close { epoch: 1 }));
    let pending = vec![
        PendingElection { slot, hash: hash(8) },
        PendingElection { slot: slot_after(hash(9)), hash: hash(10) },
        PendingElection { slot: slot_after(hash(11)), hash: hash(12) },
    ];
    let candidates = vec![Candidate { hash: hash(8), slot, previous: genesis(), source: BlockHash::zero() }];
    let chunks = c.close(&mut gate, 1, &pending, candidates, Some(key(1)), 2);
    assert_eq!(chunks.len(), 2);
    assert_eq!(chunks[0].elections, vec![slot, slot_after(hash(9))]);
    assert_eq!(chunks[1].elections, vec![slot_after(hash(11))]);
    assert_eq!((chunks[1].chunk_index, chunks[1].chunk_count), (1, 2));
    assert_eq!(c.open_epoch, Some(2));
    assert_eq!(c.provisional_cut().len(), 3);
    assert!(!gate.enter(&slot.with_epoch(1)));
    assert!(gate.enter(&slot.with_epoch(2)));
    assert!(matches!(c.next_step(200), EpochStep::InstallCut));
    let mut known = facts();
    let earlier = SortedSet::from_vec(&vec![slot_after(hash(9))]);
    let installed = c.install_cut(&mut gate, 1, &earlier, &vec![], &known.graph, SortedMap::new());
    assert_eq!(c.cut.to_vec(), SortedSet::from_vec(&vec![slot, slot_after(hash(11))]).to_vec());
    assert_eq!(installed.cut, vec![hash(8), hash(12)]);
    assert_eq!(installed.non_cut, vec![hash(10)]);
    assert_eq!(installed.cut_hash, cut_slots_hash(&c.cut));
    assert_ne!(installed.cut_hash, cut_slots_hash(&SortedSet::new()));
    // What a candidate of the cut stands on may be voted on too.
    assert!(installed.drain_cut.contains(&slot_after(BlockHash::zero())));
    assert_eq!(installed.drain_cut.len(), 4);
    assert!(matches!(c.next_step(200), EpochStep::Drain));
    known.wanting.insert(slot);
    assert!(c.drain(&mut gate, &mut known, &SortedMap::new(), Some(key(1))).is_none());
    assert_eq!(c.phase, Phase::Cut);
    known.terminated.insert(slot);
    known.terminated.insert(slot_after(hash(11)));
    assert!(c.drain(&mut gate, &mut known, &SortedMap::new(), Some(key(1))).is_none());
    assert!(!c.recovery_pass_complete);
    known.wanting.remove(&slot);
    assert!(c.drain(&mut gate, &mut known, &SortedMap::new(), Some(key(1))).is_some());
    assert!(matches!(c.next_step(200), EpochStep::Converge));
    let round = c.converge(&mut gate, &mut known, Some(key(1)));
    assert!(round.report.is_none());
    let sealed = round.sealed.unwrap();
    assert_eq!((sealed.epoch, sealed.round, sealed.non_cut_count), (1, 0, 0));
    assert_eq!(c.closing_epoch, 2);
    assert!(gate.enter(&slot.with_epoch(1)));
}

#[test]
fn missing_blocks_are_asked_for_and_attached_once_a_second() {
    let mut c = coordinator();
    let found = SortedSet::from_vec(&vec![Pair(1, hash(1)), Pair(1, hash(2)), Pair(2, hash(3)), Pair(2, hash(4))]);
    let saved = SortedSet::from_vec(&vec![hash(1), hash(4)]);
    let retained = SortedSet::from_vec(&vec![hash(2)]);
    let active = SortedSet::from_vec(&vec![Pair(2, hash(4))]);
    let recovery = c.recover_blocks(0, &found, &saved, &retained, &active).unwrap();
    assert_eq!(recovery.attach.to_vec(), vec![Pair(1, hash(1))]);
    assert_eq!(recovery.batches.len(), 1);
    assert_eq!(recovery.batches.get(&2).unwrap().to_vec(), vec![hash(3)]);
    assert_eq!(c.missing_vote_blocks.to_vec(), vec![Pair(2, hash(3))]);
    assert!(c.recover_blocks(999, &SortedSet::new(), &saved, &retained, &active).is_none());
    assert!(c.recover_blocks(1_000, &SortedSet::new(), &saved, &retained, &active).is_some());
}

#[test]
fn votes_and_reports_are_asked_for_once_a_second() {
    let mut c = round_coordinator();
    let slots = vec![slot_after(hash(3)), slot_after(hash(1)), slot_after(hash(2))];
    assert_eq!(
        c.request_election_votes(0, &slots, &vec![], 2),
        vec![vec![slots[1], slots[2]], vec![slots[0]]]
    );
    assert!(c.request_election_votes(999, &slots, &vec![], 2).is_empty());
    c.phase = Phase::Collecting;
    assert_eq!(c.request_missing_reports(0, Some(key(1))).len(), 1);
    assert!(c.request_missing_reports(999, Some(key(1))).is_empty());
    assert_eq!(c.request_missing_reports(1_000, None).len(), 0);
}

#[test]
fn finalizations_are_expanded_once() {
    let mut c = coordinator();
    let mut known = facts();
    offer(&mut known, hash(300), change(genesis()));
    offer(&mut known, hash(301), change(hash(300)));
    finalize(&mut known, hash(301));
    let closure = c.expand_finalizations(1, &known.graph, &known.finalized).unwrap();
    assert_eq!(closure.len(), 2);
    assert!(c.expand_finalizations(1, &known.graph, &known.finalized).is_none());
    assert!(c.expand_finalizations(2, &known.graph, &known.finalized).is_some());
}

#[test]
fn absent_elections_of_the_cut_are_sorted_by_what_the_ledger_has() {
    let (a, b, c) = (slot_after(hash(1)), slot_after(hash(2)), slot_after(hash(3)));
    let mut successors = SortedMap::new();
    successors.insert(a, Successor { hash: hash(10), confirmed: true });
    successors.insert(b, Successor { hash: hash(20), confirmed: false });
    let recovery = recover_cut(&vec![a, b, c], &successors);
    assert_eq!(pairs(&recovery.finalized), vec![(a, hash(10))]);
    assert_eq!(recovery.restart.to_vec(), vec![hash(20)]);
}

#[test]
fn contradicting_dependencies_are_a_conflict() {
    let mut facts = facts();
    let (a, b, _) = fork_candidates(&mut facts);
    facts.graph.blocks.insert(hash(240), receive_of(a, b));
    let mut missing = SortedSet::new();
    assert!(matches!(
        facts.graph.checked_dependency_closure(1, &vec![hash(240)], &mut missing),
        Err(ClosureError::Conflict)
    ));
    facts.graph.blocks.insert(hash(241), receive_of(a, hash(999)));
    assert!(matches!(
        facts.graph.checked_dependency_closure(1, &vec![hash(241)], &mut missing),
        Err(ClosureError::MissingDependency)
    ));
    assert_eq!(missing.to_vec(), vec![Pair(1, hash(999))]);
}

#[test]
fn finalized_retained_descendant_installs_its_branch_in_dependency_order() {
    let mut coordinator = EpochCoordinator::new(SortedSet::new());
    let (parent, child, provisional) = (BlockHash::from(10), BlockHash::from(11), BlockHash::from(12));
    let held = SortedSet::from_vec(&vec![provisional]);
    let branch = Branch::Whole(vec![parent, child]);

    assert_eq!(coordinator.install_finalized_branch(2, child, &branch, &held), vec![parent, child]);

    let held = SortedSet::from_vec(&vec![parent]);
    assert_eq!(coordinator.install_finalized_branch(2, child, &branch, &held), vec![child]);
    let held = SortedSet::from_vec(&vec![parent, child]);
    assert!(coordinator.install_finalized_branch(2, child, &branch, &held).is_empty());
    assert!(coordinator.install_finalized_branch(2, child, &Branch::Refused, &SortedSet::new()).is_empty());
    assert!(coordinator.missing_vote_blocks.is_empty());
}

#[test]
fn a_gap_in_a_finalized_branch_is_asked_for() {
    let mut coordinator = EpochCoordinator::new(SortedSet::new());
    let branch = Branch::Missing(BlockHash::from(10));
    assert!(coordinator.install_finalized_branch(2, BlockHash::from(11), &branch, &SortedSet::new()).is_empty());
    assert!(coordinator.missing_vote_blocks.contains(&Pair(2, BlockHash::from(10))));
}

#[test]
fn a_cemented_slot_drains_the_cut_at_once() {
    let mut coordinator = round_coordinator();
    let mut known = facts();
    let block = hash(500);
    offer(&mut known, block, change(genesis()));
    let slot = slot_after(genesis());
    coordinator.cut.insert(slot);
    coordinator.recovery_cut.insert(slot);
    coordinator.phase = Phase::Cut;
    let mut gate = VoteGate::default();
    assert!(coordinator.drain(&mut gate, &mut known, &SortedMap::new(), Some(key(1))).is_none());
    assert_eq!(coordinator.phase, Phase::Cut);

    let mut recovered = SortedMap::new();
    recovered.insert(slot, block);
    assert!(coordinator.drain(&mut gate, &mut known, &recovered, Some(key(1))).is_some());
    assert_eq!(coordinator.phase, Phase::Converging);
}

#[test]
fn a_selection_contradicts_no_cemented_block() {
    let mut facts = facts();
    let (a, b, c) = fork_candidates(&mut facts);
    facts.graph.cemented.insert(slot_after(genesis()), a);
    let mut missing = SortedSet::new();
    let selected =
        facts.graph.select_compatible_candidates(1, SortedMap::new(), &vec![a, b, c], &mut missing).unwrap();
    assert_eq!(selected.get(&slot_after(genesis())), Some(&a));
    assert!(!selected.contains_key(&slot_after(b)));
}
