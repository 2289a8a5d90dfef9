use rai_consensus::close_state::{RaiCloseRecord, RaiCloseState};
use rai_consensus::committee::{
    Fixing, Membership, RaiCommittee, RaiCommitteeDeriver, RaiCommitteeProvider, RaiEpoch, RaiRepWeightSnapshot,
    SnapshotWeights,
};
use rai_consensus::ordered::Duplicate;
use rai_consensus::pending_report_processor::{RaiPendingReportProcessError, RaiPendingReportProcessor};
use rai_consensus::types::{Account, Amount, PublicKey, RaiPendingReport, RaiSlot};

#[test]
fn processes_valid_report_into_visibility_state() {
    let mut fixture = Fixture::new();
    let report = RaiPendingReport::new(fixture.reporter, 7, vec![slot(1), slot(2)]);

    assert_eq!(fixture.process(&report), Ok(()));

    let state = &fixture.close_state;
    assert_eq!(state.pending_report_count(7), 1);
    assert_eq!(
        state.pending_report(7, &fixture.reporter),
        Some(&report)
    );
    assert!(state.is_visible(7, &slot(1)));
    assert!(state.is_visible(7, &slot(2)));
}

#[test]
fn invalid_signature_is_rejected_before_state_update() {
    let mut fixture = Fixture::new();
    let mut report = RaiPendingReport::new(fixture.reporter, 7, vec![slot(1)]);
    report.slots.push(slot(2));

    assert_eq!(
        fixture.process_forged(&report),
        Err(RaiPendingReportProcessError::Invalid)
    );

    let state = &fixture.close_state;
    assert_eq!(state.pending_report_count(7), 0);
    assert!(!state.is_visible(7, &slot(1)));
    assert!(!state.is_visible(7, &slot(2)));
}

#[test]
fn invalid_reporter_is_rejected_before_state_update() {
    let mut fixture = Fixture::new();
    let outsider = PublicKey::from(2);
    let report = RaiPendingReport::new(outsider, 7, vec![slot(1)]);

    assert_eq!(
        fixture.process(&report),
        Err(RaiPendingReportProcessError::InvalidReporter)
    );

    let state = &fixture.close_state;
    assert_eq!(state.pending_report_count(7), 0);
    assert!(!state.is_visible(7, &slot(1)));
}

#[test]
fn duplicate_reporter_is_rejected_before_visibility_update() {
    let mut fixture = Fixture::new();
    let first = RaiPendingReport::new(fixture.reporter, 7, vec![slot(1)]);
    let second = RaiPendingReport::new(fixture.reporter, 7, vec![slot(2)]);

    assert_eq!(fixture.process(&first), Ok(()));
    assert_eq!(
        fixture.process(&second),
        Err(RaiPendingReportProcessError::Duplicate)
    );

    let state = &fixture.close_state;
    assert_eq!(state.pending_report_count(7), 1);
    assert!(state.is_visible(7, &slot(1)));
    assert!(!state.is_visible(7, &slot(2)));
}

#[test]
fn duplicate_report_is_ignored_for_visibility_quorum() {
    let first_reporter = PublicKey::from(1);
    let second_reporter = PublicKey::from(2);
    let third_reporter = PublicKey::from(3);
    let fourth_reporter = PublicKey::from(4);
    let mut fixture = Fixture::with_committee(
        first_reporter,
        committee_from_keys([
            first_reporter,
            second_reporter,
            third_reporter,
            fourth_reporter,
        ]),
    );
    let target = slot(1);
    let first = RaiPendingReport::new(first_reporter, 7, vec![target]);
    let duplicate = RaiPendingReport::new(first_reporter, 7, vec![target]);

    assert_eq!(fixture.process(&first), Ok(()));
    assert_eq!(
        fixture.process(&duplicate),
        Err(RaiPendingReportProcessError::Duplicate)
    );
    assert!(!fixture.close_state.is_visible(7, &target));

    let second = RaiPendingReport::new(second_reporter, 7, vec![target]);
    assert_eq!(fixture.process(&second), Ok(()));

    let state = &fixture.close_state;
    assert_eq!(state.pending_report_count(7), 2);
    assert!(state.is_visible(7, &target));
}

#[test]
fn invalid_signature_is_rejected_and_does_not_count_toward_visibility() {
    let first_reporter = PublicKey::from(1);
    let invalid_reporter = PublicKey::from(2);
    let second_valid_reporter = PublicKey::from(3);
    let fourth_reporter = PublicKey::from(4);
    let mut fixture = Fixture::with_committee(
        first_reporter,
        committee_from_keys([
            first_reporter,
            invalid_reporter,
            second_valid_reporter,
            fourth_reporter,
        ]),
    );
    let target = slot(1);

    assert_eq!(
        fixture.process(&RaiPendingReport::new(first_reporter, 7, vec![target])),
        Ok(())
    );

    let mut invalid = RaiPendingReport::new(invalid_reporter, 7, vec![target]);
    invalid.slots.push(slot(2));
    assert_eq!(
        fixture.process_forged(&invalid),
        Err(RaiPendingReportProcessError::Invalid)
    );
    assert!(!fixture.close_state.is_visible(7, &target));

    assert_eq!(
        fixture.process(&RaiPendingReport::new(second_valid_reporter,
            7,
            vec![target]
        )),
        Ok(())
    );
    assert!(fixture.close_state.is_visible(7, &target));
}

#[test]
fn f_plus_one_reports_per_relevant_committee_make_slot_visible() {
    let first_a = PublicKey::from(1);
    let second_a = PublicKey::from(2);
    let third_a = PublicKey::from(3);
    let fourth_a = PublicKey::from(4);
    let first_b = PublicKey::from(5);
    let second_b = PublicKey::from(6);
    let third_b = PublicKey::from(7);
    let fourth_b = PublicKey::from(8);
    let committee_a = committee_from_keys([first_a, second_a, third_a, fourth_a]);
    let committee_b = committee_from_keys([first_b, second_b, third_b, fourth_b]);
    assert_eq!(committee_a.thresholds().max_faulty + 1, 2);
    assert_eq!(committee_b.thresholds().max_faulty + 1, 2);
    let mut fixture = Fixture::with_provider(
        first_a,
        StaticCommitteeProvider::with_closed_committees(
            committee_a.duplicate(),
            [(4, committee_a), (5, committee_b)],
        ),
    );
    let target = slot(1);

    for reporter in [first_a, second_a, first_b] {
        assert_eq!(
            fixture.process(&RaiPendingReport::new(reporter, 7, vec![target])),
            Ok(())
        );
    }
    assert!(!fixture.close_state.is_visible(7, &target));

    assert_eq!(
        fixture.process(&RaiPendingReport::new(second_b, 7, vec![target])),
        Ok(())
    );
    assert!(fixture.close_state.is_visible(7, &target));
}

struct Fixture {
    close_state: RaiCloseState<RaiCloseRecord>,
    processor: RaiPendingReportProcessor<StaticCommitteeProvider>,
    reporter: PublicKey,
}

impl Fixture {
    fn new() -> Self {
        let reporter = PublicKey::from(1);
        Self::with_committee(reporter, committee([(reporter, Amount::raw(100))]))
    }

    fn with_committee(reporter: PublicKey, committee: RaiCommittee) -> Self {
        Self::with_provider(reporter, StaticCommitteeProvider::single(committee))
    }

    fn with_provider(reporter: PublicKey, provider: StaticCommitteeProvider) -> Self {
        Self {
            close_state: RaiCloseState::new(),
            processor: RaiPendingReportProcessor::with_committee_provider(provider),
            reporter,
        }
    }

    fn process(&mut self, report: &RaiPendingReport) -> Result<(), RaiPendingReportProcessError> {
        self.processor.process(&mut self.close_state, report, true)
    }

    fn process_forged(&mut self, report: &RaiPendingReport) -> Result<(), RaiPendingReportProcessError> {
        self.processor.process(&mut self.close_state, report, false)
    }
}

struct StaticCommitteeProvider {
    genesis_committee: RaiCommittee,
    closed_committees: Vec<(RaiEpoch, RaiCommittee)>,
    complete: bool,
}

impl StaticCommitteeProvider {
    fn single(committee: RaiCommittee) -> Self {
        Self { genesis_committee: committee, closed_committees: Vec::new(), complete: true }
    }

    fn with_closed_committees<const N: usize>(
        genesis_committee: RaiCommittee,
        closed_committees: [(RaiEpoch, RaiCommittee); N],
    ) -> Self {
        Self { genesis_committee, closed_committees: closed_committees.into_iter().collect(), complete: true }
    }
}

impl RaiCommitteeProvider for StaticCommitteeProvider {
    fn genesis(&self) -> Membership {
        unreachable!("a model is never computed")
    }

    fn closed(&self, _epoch: RaiEpoch) -> Option<Membership> {
        unreachable!("a model is never computed")
    }

    fn closed_weights(&self, _epoch: RaiEpoch) -> Option<SnapshotWeights> {
        unreachable!("a model is never computed")
    }

    fn fixing(_live: SnapshotWeights) -> Option<Fixing> {
        unreachable!("a model is never computed")
    }

    fn closed_epoch_rep_weight_snapshot(&self, _epoch: RaiEpoch) -> Option<RaiRepWeightSnapshot> {
        None
    }

    fn snapshot_closed_epoch_committee(&mut self, epoch: RaiEpoch, _live: RaiRepWeightSnapshot) -> RaiCommittee {
        self.committee_at(Some(epoch))
    }

    fn genesis_committee(&self) -> RaiCommittee {
        self.genesis_committee.duplicate()
    }

    fn committee_for_closed_epoch(&self, epoch: RaiEpoch) -> Option<RaiCommittee> {
        match self.closed_committees.iter().find(|known| known.0 == epoch) {
            Some(known) => Some(known.1.duplicate()),
            None if self.complete => Some(self.genesis_committee.duplicate()),
            None => None,
        }
    }
}

fn committee<const N: usize>(values: [(PublicKey, Amount); N]) -> RaiCommittee {
    RaiCommitteeDeriver::new().derive_committee(&values.to_vec())
}

fn committee_from_keys<const N: usize>(keys: [PublicKey; N]) -> RaiCommittee {
    committee(keys.map(|key| (key, Amount::raw(100))))
}

fn slot(account_height: u64) -> RaiSlot {
    RaiSlot::new(Account::from(1), account_height)
}

#[test]
fn report_of_an_epoch_without_committee_history_is_refused() {
    let reporter = PublicKey::from(1);
    let mut provider = StaticCommitteeProvider::single(committee([(reporter, Amount::raw(100))]));
    provider.complete = false;
    let mut fixture = Fixture::with_provider(reporter, provider);

    assert_eq!(
        fixture.process(&RaiPendingReport::new(reporter, 7, vec![slot(1)])),
        Err(RaiPendingReportProcessError::MissingCommitteeHistory)
    );
}
