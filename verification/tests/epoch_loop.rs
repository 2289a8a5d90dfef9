use std::cell::RefCell;
use std::sync::Arc;

use rai_consensus::close_record::RaiFrontierMap;
use rai_consensus::close_round::RaiCloseKind;
use rai_consensus::election_vote_state::RaiElectionVoteState;
use rai_consensus::epoch::{RaiClosingEpoch, RaiClosingPhase, RaiEpochManager};
use rai_consensus::epoch_loop::{CommandLog, RaiEpochEvent, RaiEpochLoop, RaiEpochLoopDriver};
use rai_consensus::ordered::SortedSet;
use rai_consensus::rep_weights::RepWeights;
use rai_consensus::report::RaiReport;
use rai_consensus::types::{
    Account, Amount, BlockHash, ConfirmationHeightInfo, PublicKey, QualifiedRoot, RaiCommitteeScope, RaiEpoch, RaiSlotId,
    Root, Signature, Timestamp,
};

#[derive(Default)]
struct TestDriver {
    reports: Vec<RaiReport<RaiSlotId>>,
    close_starts: Vec<(RaiCloseKind, RaiEpoch, u32, BlockHash)>,
}

impl RaiEpochLoopDriver for TestDriver {
    fn commands(&self) -> CommandLog {
        unreachable!("the log is never read at run time")
    }

    fn start_close_election(
        &mut self,
        kind: RaiCloseKind,
        epoch: RaiEpoch,
        round: u32,
        _root: QualifiedRoot,
        hash: BlockHash,
    ) {
        self.close_starts.push((kind, epoch, round, hash));
    }

    fn close_election_winner(&self, _kind: RaiCloseKind, _epoch: RaiEpoch, _round: u32) -> Option<BlockHash> {
        None
    }

    fn apply_decided_cut(&mut self, _epoch: RaiEpoch, _included: &SortedSet<RaiSlotId>) {}

    fn commit_close_record(&mut self, _epoch: RaiEpoch, _frontiers: &RaiFrontierMap) -> bool {
        true
    }

    fn sign_report(&self, _message: &Vec<u8>) -> Signature {
        Signature::new()
    }

    fn broadcast_report(&mut self, report: RaiReport<RaiSlotId>) {
        self.reports.push(report);
    }
}

const SECOND: u128 = 1_000_000_000;

fn at(nanos: u128) -> Timestamp {
    Timestamp { nanos: 1_000 * SECOND + nanos }
}

fn epoch_loop(duration: u128) -> RaiEpochLoop<TestDriver> {
    RaiEpochLoop::new(
        RaiEpochManager::new(Arc::new(RepWeights::new()), BlockHash::zero()),
        TestDriver::default(),
        PublicKey::from(1),
        duration,
        at(0),
    )
}

#[test]
fn deadline_opens_successor_and_emits_one_report() {
    let duration = 30 * SECOND;
    let mut service = epoch_loop(duration);

    service.process(RaiEpochEvent::Tick(at(duration - 1)));
    assert_eq!(service.epoch_state().open_epoch, RaiEpoch::new(0));
    assert!(service.epoch_state().closing.is_none());
    assert!(service.driver().reports.is_empty());

    let deadline = at(duration);
    service.process(RaiEpochEvent::Tick(deadline));
    assert_eq!(service.epoch_state().open_epoch, RaiEpoch::new(1));
    assert_eq!(service.epoch_state().open_started_at, deadline);
    assert_eq!(
        service.epoch_state().closing,
        Some(RaiClosingEpoch { epoch: RaiEpoch::new(0), phase: RaiClosingPhase::CollectingReports })
    );
    assert_eq!(service.driver().reports.len(), 1);
    assert_eq!(service.driver().reports[0].epoch, RaiEpoch::new(0));

    service.process(RaiEpochEvent::Tick(at(2 * duration)));
    service.process(RaiEpochEvent::Tick(at(3 * duration)));
    assert_eq!(service.driver().reports.len(), 1);
}

#[test]
fn stop_makes_the_loop_inert() {
    let mut service = epoch_loop(SECOND);
    service.process(RaiEpochEvent::Stop);
    service.process(RaiEpochEvent::Tick(at(SECOND)));

    assert!(service.is_stopped());
    assert_eq!(service.epoch_state().open_epoch, RaiEpoch::new(0));
    assert!(service.driver().reports.is_empty());
}

#[test]
fn report_quorum_at_epoch_boundary_waits_for_collection_grace() {
    let duration = 30 * SECOND;
    let mut committee = RepWeights::new();
    committee.insert(PublicKey::from(1), Amount::raw(1));
    committee.insert(PublicKey::from(2), Amount::raw(1));
    let mut service = RaiEpochLoop::new(
        RaiEpochManager::new(Arc::new(committee), BlockHash::zero()),
        TestDriver::default(),
        PublicKey::from(1),
        duration,
        at(0),
    );

    // The remote report plus the one that is made at the boundary form a
    // complete quorum. Closing must still pass through the collection barrier
    // instead of starting from a subset that hangs on the order of arrival.
    let report = RaiReport::new(PublicKey::from(2), RaiEpoch::new(0), vec![], Signature::new());
    service.process(RaiEpochEvent::ReportReceived { report, authentic: true });
    service.process(RaiEpochEvent::Tick(at(duration)));
    assert!(service.driver().close_starts.is_empty());
    assert_eq!(service.epoch_state().closing.unwrap().phase, RaiClosingPhase::CollectingReports);

    service.process(RaiEpochEvent::Tick(at(duration + 1_000_000)));
    assert_eq!(service.driver().close_starts.len(), 1);
}

/// Knows one slot, its votes, and the winners of round zero.
struct AnsweringDriver {
    slot: RaiSlotId,
    started: Vec<(RaiCloseKind, BlockHash)>,
    reports: Vec<RaiReport<RaiSlotId>>,
    signed: RefCell<Vec<Vec<u8>>>,
    applied: Vec<Vec<RaiSlotId>>,
    committed: Vec<Vec<Account>>,
}

const WINNER: u64 = 40;

fn committee() -> RepWeights {
    let mut weights = RepWeights::new();
    weights.insert(PublicKey::from(1), Amount::raw(1));
    weights
}

impl RaiEpochLoopDriver for AnsweringDriver {
    fn commands(&self) -> CommandLog {
        unreachable!("the log is never read at run time")
    }

    fn visible_obligations(&self, epoch: RaiEpoch) -> SortedSet<RaiSlotId> {
        if epoch == self.slot.epoch {
            SortedSet::from_vec(&vec![self.slot])
        } else {
            SortedSet::new()
        }
    }

    fn start_close_election(
        &mut self,
        kind: RaiCloseKind,
        _epoch: RaiEpoch,
        _round: u32,
        _root: QualifiedRoot,
        hash: BlockHash,
    ) {
        self.started.push((kind, hash));
    }

    fn close_election_winner(&self, kind: RaiCloseKind, _epoch: RaiEpoch, round: u32) -> Option<BlockHash> {
        self.started.iter().find(|start| start.0 == kind && round == 0).map(|start| start.1)
    }

    fn slot_vote_evidence(&self, epoch: RaiEpoch, root: &QualifiedRoot) -> Option<RaiElectionVoteState> {
        if epoch != self.slot.epoch || *root != self.slot.root {
            return None;
        }
        let mut votes = RaiElectionVoteState::new(vec![Arc::new(committee())]);
        votes.record_final_vote(PublicKey::from(1), BlockHash::from(WINNER), RaiCommitteeScope::All).unwrap();
        Some(votes)
    }

    fn epoch_frontier_segment(
        &self,
        _epoch: RaiEpoch,
        _root: &QualifiedRoot,
        winner: BlockHash,
    ) -> Vec<(Account, ConfirmationHeightInfo)> {
        vec![(Account::from(5), ConfirmationHeightInfo::new(2, winner))]
    }

    fn apply_decided_cut(&mut self, _epoch: RaiEpoch, included: &SortedSet<RaiSlotId>) {
        self.applied.push(included.to_vec());
    }

    fn certified_weights(&self, _epoch: RaiEpoch) -> Option<RepWeights> {
        Some(committee())
    }

    fn commit_close_record(&mut self, _epoch: RaiEpoch, frontiers: &RaiFrontierMap) -> bool {
        self.committed.push(frontiers.keys_vec());
        true
    }

    fn sign_report(&self, message: &Vec<u8>) -> Signature {
        self.signed.borrow_mut().push(message.clone());
        Signature { r_hi: 1, r_lo: 2, s_hi: 3, s_lo: 4 }
    }

    fn broadcast_report(&mut self, report: RaiReport<RaiSlotId>) {
        self.reports.push(report);
    }
}

#[test]
fn the_loop_acts_on_what_its_driver_says() {
    let epoch = RaiEpoch::new(0);
    let root = QualifiedRoot::new(Root::from(11), BlockHash::from(12));
    let slot = RaiSlotId { epoch, root };
    let driver = AnsweringDriver {
        slot,
        started: Vec::new(),
        reports: Vec::new(),
        signed: RefCell::new(Vec::new()),
        applied: Vec::new(),
        committed: Vec::new(),
    };
    let manager = RaiEpochManager::new(Arc::new(committee()), BlockHash::zero());
    let mut service = RaiEpochLoop::new(manager, driver, PublicKey::from(1), SECOND, at(0));

    service.process(RaiEpochEvent::Tick(at(SECOND)));
    let report = &service.driver().reports[0];
    assert_eq!(report.visible_obligations.to_vec(), vec![slot]);
    assert_eq!(report.signature.s_lo, 4);
    assert_eq!(service.driver().signed.borrow().clone(), vec![report.signing_bytes()]);

    service.process(RaiEpochEvent::Tick(at(SECOND + 1)));
    assert_eq!(service.driver().started.len(), 1);

    // Nobody won a later round.
    service.process(RaiEpochEvent::CloseElectionChanged { kind: RaiCloseKind::Cut, epoch, round: 1 });
    assert!(service.driver().applied.is_empty());
    service.process(RaiEpochEvent::CloseElectionChanged { kind: RaiCloseKind::Cut, epoch, round: 0 });
    assert_eq!(service.driver().applied, vec![vec![slot]]);

    let other = QualifiedRoot::new(Root::from(13), BlockHash::from(14));
    service.process(RaiEpochEvent::SlotEvidenceChanged { epoch, root: other });
    assert_eq!(service.driver().started.len(), 1);
    service.process(RaiEpochEvent::SlotEvidenceChanged { epoch, root });
    assert_eq!(service.driver().started.len(), 2);
    assert_eq!(service.driver().started[1].0, RaiCloseKind::Record);

    service.process(RaiEpochEvent::CloseElectionChanged { kind: RaiCloseKind::Record, epoch, round: 0 });
    assert_eq!(service.driver().committed, vec![vec![Account::from(5)]]);
    assert!(service.epoch_state().closing.is_none());
}
