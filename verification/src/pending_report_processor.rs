//! Taking in the reports of pending slots.
use vstd::prelude::*;

use crate::close_state::{
    stored_reports, CloseEpoch, CloseState, EpochRecord, RaiCloseState,
};
use crate::committee::{
    election_committees, Membership, RaiCommittee, RaiCommitteeProvider, RaiCommitteeSet, RaiEpoch,
};
use crate::ordered::{
    ascending, lemma_ascending, pairs_of, sorted_map_is_finite, sorted_set_is_finite, Duplicate, SortedSet,
};
use crate::types::{PendingReport, PublicKey, RaiElectionId, RaiPendingReport, RaiSlot};

verus! {

broadcast use {sorted_set_is_finite, sorted_map_is_finite};

/// Why a report is not taken in.
#[derive(Clone, Copy, Debug, PartialEq, Eq, Structural)]
pub enum RaiPendingReportProcessError {
    Invalid,
    InvalidReporter,
    MissingCommitteeHistory,
    Duplicate,
}

/// The members of a committee that report a slot.
pub open spec fn reporters(reports: Map<PublicKey, PendingReport>, slot: RaiSlot, m: Membership) -> Set<PublicKey> {
    reports.dom().filter(|reporter: PublicKey| reports[reporter].slots.contains(slot) && m.contains(reporter))
}

/// Every committee has so many reporters of a slot that one is not faulty.
pub open spec fn reported_visible(
    reports: Map<PublicKey, PendingReport>,
    slot: RaiSlot,
    committees: Seq<Membership>,
) -> bool {
    forall|i: int|
        0 <= i < committees.len() ==> (#[trigger] committees[i]).reaches(
            reporters(reports, slot, committees[i]).len() as int,
            committees[i].thresholds.max_faulty + 1,
        )
}

/// Some committee has the member.
pub open spec fn seated(committees: Seq<Membership>, account: PublicKey) -> bool {
    exists|i: int| 0 <= i < committees.len() && (#[trigger] committees[i]).contains(account)
}

/// The election whose committees judge a report.
pub open spec fn report_election(report: PendingReport) -> RaiElectionId {
    RaiElectionId::CloseCut { epoch: report.epoch, attempt: 0 }
}

/// The state that keeps a report, before visibility is looked at.
pub open spec fn with_report<V>(state: CloseState<V>, report: PendingReport) -> CloseState<V> {
    let before = state.epoch(report.epoch);
    state.with_epoch(
        report.epoch,
        CloseEpoch { pending_reports: before.pending_reports.insert(report.reporter, report), ..before },
    )
}

/// The reported slots that are visible once these reports are kept.
pub open spec fn newly_visible(
    reports: Map<PublicKey, PendingReport>,
    slots: Seq<RaiSlot>,
    committees: Seq<Membership>,
) -> Set<RaiSlot> {
    slots.to_set().filter(|slot: RaiSlot| committees.len() > 0 && reported_visible(reports, slot, committees))
}

/// The state after a report was taken in.
pub open spec fn after_report<V>(state: CloseState<V>, report: PendingReport, committees: Seq<Membership>) -> CloseState<
    V,
> {
    let kept = with_report(state, report);
    let epoch = kept.epoch(report.epoch);
    kept.with_epoch(
        report.epoch,
        CloseEpoch { visibility: epoch.visibility.marked(newly_visible(epoch.pending_reports, report.slots, committees)), ..epoch },
    )
}

/// Why a report is not taken in.
pub open spec fn report_error<V>(
    state: CloseState<V>,
    report: PendingReport,
    committees: Option<Seq<Membership>>,
    authentic: bool,
) -> Option<RaiPendingReportProcessError> {
    if !authentic {
        Some(RaiPendingReportProcessError::Invalid)
    } else if committees is None {
        Some(RaiPendingReportProcessError::MissingCommitteeHistory)
    } else if !seated(committees->0, report.reporter) {
        Some(RaiPendingReportProcessError::InvalidReporter)
    } else if state.epoch(report.epoch).pending_reports.contains_key(report.reporter) {
        Some(RaiPendingReportProcessError::Duplicate)
    } else {
        None
    }
}

pub(crate) fn names_slot(slots: &Vec<RaiSlot>, slot: &RaiSlot) -> (r: bool)
    ensures
        r == slots@.contains(*slot),
{
    for i in 0..slots.len()
        invariant
            forall|j: int| 0 <= j < i ==> slots@[j] != *slot,
    {
        if slots[i] == *slot {
            return true;
        }
    }
    false
}

fn count_reporters(reports: &Vec<RaiPendingReport>, slot: &RaiSlot, committee: &RaiCommittee, Ghost(all): Ghost<
    Map<PublicKey, PendingReport>,
>) -> (r: usize)
    requires
        reports.deep_view() == stored_reports(all),
        all.dom().finite(),
        forall|reporter: PublicKey| #[trigger] all.contains_key(reporter) ==> all[reporter].reporter == reporter,
    ensures
        r == reporters(all, *slot, committee@).len(),
{
    let mut found: SortedSet<PublicKey> = SortedSet::new();
    let ghost keys = ascending(all.dom());
    proof {
        lemma_ascending(all.dom());
        assert(reports@.len() == reports.deep_view().len());
    }
    for i in 0..reports.len()
        invariant
            reports.deep_view() == stored_reports(all),
            reports@.len() == keys.len(),
            keys == ascending(all.dom()),
            keys.no_duplicates(),
            forall|j: int| 0 <= j < keys.len() ==> all.contains_key(#[trigger] keys[j]),
            forall|reporter: PublicKey| #[trigger] all.contains_key(reporter) ==> all[reporter].reporter == reporter,
            forall|reporter: PublicKey| #[trigger]
                found@.contains(reporter) == (keys.take(i as int).contains(reporter) && all[reporter].slots.contains(
                    *slot,
                ) && committee@.contains(reporter)),
    {
        let report = &reports[i];
        proof {
            assert(report.deep_view() == reports.deep_view()[i as int]);
            assert(pairs_of(all)[i as int].1 == all[keys[i as int]]);
            assert(all.contains_key(keys[i as int]));
            assert(keys.take(i + 1) =~= keys.take(i as int).push(keys[i as int]));
        }
        if names_slot(&report.slots, slot) && committee.contains(&report.reporter) {
            found.insert(report.reporter);
        }
        proof {
            assert forall|reporter: PublicKey| #[trigger] found@.contains(reporter) == (keys.take(i + 1).contains(
                reporter,
            ) && all[reporter].slots.contains(*slot) && committee@.contains(reporter)) by {
                let before = keys.take(i as int);
                let after = keys.take(i + 1);
                if before.contains(reporter) {
                    let j = choose|j: int| 0 <= j < before.len() && before[j] == reporter;
                    assert(after[j] == reporter);
                }
                if after.contains(reporter) {
                    let j = choose|j: int| 0 <= j < after.len() && after[j] == reporter;
                    if j < i {
                        assert(before[j] == reporter);
                    }
                }
                assert(after[i as int] == keys[i as int]);
            }
        }
    }
    proof {
        assert(keys.take(keys.len() as int) =~= keys);
        assert forall|reporter: PublicKey| found@.contains(reporter) == reporters(all, *slot, committee@).contains(
            reporter,
        ) by {
            if all.contains_key(reporter) {
                assert(keys.contains(reporter));
            }
            if keys.contains(reporter) {
                assert(keys.to_set().contains(reporter));
            }
        }
        assert(found@ =~= reporters(all, *slot, committee@));
    }
    found.len()
}

/// Whether every committee has so many reporters of a slot that one is not faulty.
pub fn report_visibility_reached<R: EpochRecord>(
    close_state: &RaiCloseState<R>,
    epoch: RaiEpoch,
    slot: &RaiSlot,
    committees: &RaiCommitteeSet,
) -> (r: bool)
    ensures
        r == (committees@.len() > 0 && reported_visible(close_state@.epoch(epoch).pending_reports, *slot, committees@)),
{
    let n: usize = committees.len();
    if n == 0 {
        return false;
    }
    let reports = close_state.pending_reports(epoch);
    let ghost all = close_state@.epoch(epoch).pending_reports;
    for i in 0..n
        invariant
            n == committees@.len(),
            reports.deep_view() == stored_reports(all),
            all.dom().finite(),
            forall|reporter: PublicKey| #[trigger] all.contains_key(reporter) ==> all[reporter].reporter == reporter,
            all == close_state@.epoch(epoch).pending_reports,
            forall|j: int|
                0 <= j < i ==> (#[trigger] committees@[j]).reaches(
                    reporters(all, *slot, committees@[j]).len() as int,
                    committees@[j].thresholds.max_faulty + 1,
                ),
    {
        let committee = committees.at(i);
        let count = count_reporters(&reports, slot, committee, Ghost(all));
        if !committee.has_visibility_quorum(count) {
            return false;
        }
    }
    true
}

/// Takes in reports of pending slots.
pub struct RaiPendingReportProcessor<P: RaiCommitteeProvider> {
    pub committee_provider: P,
}

impl<P: RaiCommitteeProvider> RaiPendingReportProcessor<P> {
    pub fn with_committee_provider(committee_provider: P) -> (r: Self)
        ensures
            r.committee_provider == committee_provider,
    {
        RaiPendingReportProcessor { committee_provider }
    }

    /// Takes in a report; `authentic` says whether its signature is right.
    pub fn process<R: EpochRecord>(
        &self,
        close_state: &mut RaiCloseState<R>,
        report: &RaiPendingReport,
        authentic: bool,
    ) -> (r: Result<(), RaiPendingReportProcessError>)
        ensures
            ({
                let committees = election_committees(&self.committee_provider, report_election(report.deep_view()));
                match r {
                    Ok(_) => {
                        &&& report_error(old(close_state)@, report.deep_view(), committees, authentic) is None
                        &&& final(close_state)@ == after_report(old(close_state)@, report.deep_view(), committees->0)
                    },
                    Err(error) => {
                        &&& report_error(old(close_state)@, report.deep_view(), committees, authentic) == Some(error)
                        &&& final(close_state)@ == old(close_state)@
                    },
                }
            }),
    {
        if !authentic {
            return Err(RaiPendingReportProcessError::Invalid);
        }
        let election_id = RaiElectionId::CloseCut { epoch: report.epoch, attempt: 0 };
        let committees = match self.committee_provider.try_committees_for(&election_id) {
            Some(committees) => committees,
            None => return Err(RaiPendingReportProcessError::MissingCommitteeHistory),
        };
        if !committees.contains(&report.reporter) {
            return Err(RaiPendingReportProcessError::InvalidReporter);
        }
        let copy = report.duplicate();
        proof {
            assert(copy.epoch == report.epoch && copy.reporter == report.reporter);
        }
        if close_state.insert_pending_report(copy).is_err() {
            return Err(RaiPendingReportProcessError::Duplicate);
        }
        let ghost kept = close_state@;
        let mut visible: Vec<RaiSlot> = Vec::new();
        for i in 0..report.slots.len()
            invariant
                kept == close_state@,
                forall|slot: RaiSlot| #[trigger]
                    visible@.contains(slot) == ((exists|j: int| 0 <= j < i && #[trigger] report.slots@[j] == slot)
                        && committees@.len() > 0 && reported_visible(
                        kept.epoch(report.epoch).pending_reports,
                        slot,
                        committees@,
                    )),
        {
            let slot = report.slots[i];
            let ghost known = visible@;
            if report_visibility_reached(close_state, report.epoch, &slot, &committees) {
                visible.push(slot);
                proof {
                    assert forall|s: RaiSlot| #[trigger] visible@.contains(s) == (known.contains(s) || s == slot) by {
                        assert(visible@[known.len() as int] == slot);
                        if known.contains(s) {
                            let j = choose|j: int| 0 <= j < known.len() && known[j] == s;
                            assert(visible@[j] == s);
                        }
                    }
                }
            }
        }
        proof {
            assert(visible@.to_set() =~= newly_visible(
                kept.epoch(report.epoch).pending_reports,
                report.slots@,
                committees@,
            ));
        }
        close_state.mark_visible_slots(report.epoch, &visible);
        Ok(())
    }
}

/// A reporter counts once: a report of the same reporter in the same epoch
/// changes nothing, whatever it reports.
pub proof fn second_report_is_refused<V>(
    state: CloseState<V>,
    first: PendingReport,
    second: PendingReport,
    committees: Seq<Membership>,
)
    requires
        first.reporter == second.reporter,
        first.epoch == second.epoch,
    ensures
        report_error(after_report(state, first, committees), second, Some(committees), true) is Some,
{
}

/// A report makes nothing invisible.
pub proof fn reports_keep_slots_visible<V>(
    state: CloseState<V>,
    report: PendingReport,
    committees: Seq<Membership>,
    slot: RaiSlot,
)
    requires
        state.epoch(report.epoch).visibility.visible.contains(slot),
    ensures
        after_report(state, report, committees).epoch(report.epoch).visibility.visible.contains(slot),
{
}

/// A slot is visible by reports exactly if in every committee at least one member more
/// than may be faulty has reported it.
pub proof fn visible_slots_have_a_correct_reporter(
    reports: Map<PublicKey, PendingReport>,
    slot: RaiSlot,
    committees: Seq<Membership>,
)
    requires
        forall|i: int| 0 <= i < committees.len() ==> (#[trigger] committees[i]).members.len() > 0,
    ensures
        reported_visible(reports, slot, committees) <==> forall|i: int|
            0 <= i < committees.len() ==> (#[trigger] members_naming(reports, slot, committees[i])).len()
                >= committees[i].thresholds.max_faulty + 1,
{
    assert forall|i: int| 0 <= i < committees.len() implies #[trigger] members_naming(reports, slot, committees[i])
        == reporters(reports, slot, committees[i]) by {
        assert(members_naming(reports, slot, committees[i]) =~= reporters(reports, slot, committees[i]));
    }
    if reported_visible(reports, slot, committees) {
        assert forall|i: int| 0 <= i < committees.len() implies (#[trigger] members_naming(reports, slot, committees[i])).len()
            >= committees[i].thresholds.max_faulty + 1 by {
            assert(committees[i].reaches(
                reporters(reports, slot, committees[i]).len() as int,
                committees[i].thresholds.max_faulty + 1,
            ));
        }
    } else {
        let i = choose|i: int|
            0 <= i < committees.len() && !(#[trigger] committees[i]).reaches(
                reporters(reports, slot, committees[i]).len() as int,
                committees[i].thresholds.max_faulty + 1,
            );
        assert(members_naming(reports, slot, committees[i]).len() < committees[i].thresholds.max_faulty + 1);
    }
}

/// The members of a committee that have reported the slot.
pub open spec fn members_naming(reports: Map<PublicKey, PendingReport>, slot: RaiSlot, m: Membership) -> Set<PublicKey> {
    Set::new(
        |k: PublicKey|
            reports.contains_key(k) && reports[k].slots.contains(slot) && exists|i: int|
                0 <= i < m.members.len() && (#[trigger] m.members[i]).account == k,
    )
}

/// A report is taken exactly if it is authentic, the committees of its epoch are known
/// and seat the reporter, and the reporter has not reported yet. It is then kept, and
/// makes visible those of its slots that enough members have reported by now; other
/// epochs are left alone.
pub proof fn reports_make_slots_visible<V>(
    state: CloseState<V>,
    report: PendingReport,
    committees: Option<Seq<Membership>>,
    authentic: bool,
    slot: RaiSlot,
    other: RaiEpoch,
)
    requires
        other != report.epoch,
        committees is Some ==> committees->0.len() > 0,
    ensures
        report_error(state, report, committees, authentic) is None <==> {
            &&& authentic
            &&& committees is Some
            &&& exists|i: int, j: int|
                0 <= i < committees->0.len() && 0 <= j < committees->0[i].members.len() && (
                #[trigger] committees->0[i].members[j]).account == report.reporter
            &&& !state.epoch(report.epoch).pending_reports.contains_key(report.reporter)
        },
        committees matches Some(list) ==> {
            let after = after_report(state, report, list);
            let before = state.epoch(report.epoch);
            let now = after.epoch(report.epoch);
            &&& now.pending_reports == before.pending_reports.insert(report.reporter, report)
            &&& now.visibility.visible.contains(slot) <==> before.visibility.visible.contains(slot) || (report.slots.contains(
                slot,
            ) && reported_visible(now.pending_reports, slot, list))
            &&& now.phase == before.phase && now.cut == before.cut
            &&& after.epoch(other) == state.epoch(other)
            &&& after.current == state.current
        },
{
    if committees is Some {
        let list = committees->0;
        if seated(list, report.reporter) {
            let i = choose|i: int| 0 <= i < list.len() && (#[trigger] list[i]).contains(report.reporter);
            let j = choose|j: int|
                0 <= j < list[i].members.len() && (#[trigger] list[i].members[j]).account == report.reporter;
            assert(list[i].members[j].account == report.reporter);
        }
        if exists|i: int, j: int|
            0 <= i < list.len() && 0 <= j < list[i].members.len() && (#[trigger] list[i].members[j]).account
                == report.reporter {
            let (i, j) = choose|i: int, j: int|
                0 <= i < list.len() && 0 <= j < list[i].members.len() && (#[trigger] list[i].members[j]).account
                    == report.reporter;
            assert(list[i].contains(report.reporter));
        }
        assert(report.slots.to_set().contains(slot) == report.slots.contains(slot));
    }
}

/// Reports about an epoch are judged by the committees of the first attempt at its cut.
pub proof fn reports_are_judged_by_the_cut_committees(report: PendingReport)
    ensures
        report_election(report) matches RaiElectionId::CloseCut { epoch, attempt } && epoch == report.epoch && attempt == 0,
{
}

}
