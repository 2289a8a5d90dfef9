//! Rebuilding the epochs from what was stored.
use vstd::prelude::*;

use crate::active_elections::{
    Election, RaiActiveElectionsSnapshot, RaiElection, RaiElectionOutcome, RaiElectionSnapshot, RaiElectionStatus,
    StoredElection, StoredSeat,
};
use crate::close_state::{
    closed_pairs, reports_keyed, restore_closed_slots, CloseEpoch, CloseState, EpochRecord, Package, RaiCloseAttempt,
    RaiCloseEpochSnapshot, RaiCloseEpochState, RaiCloseRecordValue, RaiCloseState, RaiCloseStateSnapshot,
    RaiEpochPhase, StoredEpoch, StoredPackage, StoredState,
};
use crate::close_values::{
    names_sets, visible_hash, CloseRecordEntries, RaiClosedSlotState, RaiVisibilityTracker, StoredCloseValue, Visibility,
    VisibleSlots,
};
use crate::committee::{
    election_committees, Membership, RaiCommittee, RaiCommitteeProvider, RaiCommitteeSet, RaiEpoch,
};
use crate::frontier_record::{close_frontiers, closed_frontiers, FrontierRecord, RaiFrontierRecord, RaiFrontiers};
use crate::ordered::{
    ascending, lemma_ascending, lemma_take_distinct, lemma_take_set, map_of, sorted_map_is_finite,
    sorted_set_is_finite, Duplicate, Key, Pair, SortedMap, SortedSet,
};
use crate::pending_report_processor::{names_slot, reported_visible, reporters};
use crate::types::{
    Account, BlockHash, PendingReport, PublicKey, RaiElectionId, RaiElectionValue, RaiPendingReport, RaiSlot,
};
use crate::vote_processor::{closed_slot_state_from_outcome, closed_state, fast_hash};

verus! {

broadcast use {sorted_set_is_finite, sorted_map_is_finite};

/// The model of an epoch whose records hold frontiers.
pub type FrontierEpoch = CloseEpoch<FrontierRecord>;

/// The models of all such epochs.
pub type FrontierEpochs = Map<RaiEpoch, FrontierEpoch>;

type EpochState = RaiCloseEpochState<RaiFrontierRecord>;

/// What is known of an epoch; an unknown epoch is open.
pub open spec fn epoch_in(epochs: FrontierEpochs, epoch: RaiEpoch) -> FrontierEpoch {
    if epochs.contains_key(epoch) {
        epochs[epoch]
    } else {
        CloseEpoch::open()
    }
}

/// Whether the check of the report at a position succeeded.
pub open spec fn is_valid(valid: Seq<bool>, i: int) -> bool {
    0 <= i < valid.len() && valid[i]
}

/// The first valid report of each reporter.
pub open spec fn valid_reports(stored: Seq<PendingReport>, valid: Seq<bool>, epoch: RaiEpoch) -> Map<
    PublicKey,
    PendingReport,
>
    decreases stored.len(),
{
    if stored.len() == 0 {
        Map::empty()
    } else {
        let earlier = valid_reports(stored.drop_last(), valid, epoch);
        let report = stored.last();
        if report.epoch == epoch && is_valid(valid, stored.len() - 1) && !earlier.contains_key(report.reporter) {
            earlier.insert(report.reporter, report)
        } else {
            earlier
        }
    }
}

/// The stored sets that stand under their own hash.
pub open spec fn true_close_values(stored: Seq<StoredCloseValue>) -> Map<BlockHash, Set<RaiSlot>>
    decreases stored.len(),
{
    if stored.len() == 0 {
        Map::empty()
    } else {
        let earlier = true_close_values(stored.drop_last());
        let slots = stored.last().slots.to_set();
        if visible_hash(slots) == stored.last().hash {
            earlier.insert(stored.last().hash, slots)
        } else {
            earlier
        }
    }
}

/// The stored records that stand under their own hash.
pub open spec fn true_records(stored: Seq<StoredPackage<FrontierRecord>>) -> Map<BlockHash, Package<FrontierRecord>>
    decreases stored.len(),
{
    if stored.len() == 0 {
        Map::empty()
    } else {
        let earlier = true_records(stored.drop_last());
        let last = stored.last();
        if RaiFrontierRecord::digest(last.record) == last.hash {
            earlier.insert(
                last.hash,
                Package { record: last.record, entries: map_of(closed_pairs(last.states)) },
            )
        } else {
            earlier
        }
    }
}

/// What can be believed of a stored epoch.
pub open spec fn believed(stored: StoredEpoch<FrontierRecord>, valid: Seq<bool>) -> FrontierEpoch {
    let records = true_records(stored.records);
    CloseEpoch {
        phase: stored.phase,
        close_hash: if stored.close_hash is Some && records.contains_key(stored.close_hash->0) {
            stored.close_hash
        } else {
            None
        },
        pending_reports: valid_reports(stored.pending_reports, valid, stored.epoch),
        visibility: Visibility {
            visible: stored.visible_slots.to_set(),
            close_values: true_close_values(stored.close_values),
        },
        started_cuts: stored.started_cuts.to_set(),
        processed_cuts: stored.processed_cuts.to_set(),
        cut: match stored.cut {
            Some(cut) => Some(cut.to_set()),
            None => None,
        },
        closed_slots: map_of(closed_pairs(stored.closed_slots)),
        records,
        started_records: stored.started_records.to_set(),
        processed_records: stored.processed_records.to_set(),
    }
}

/// What can be believed of stored epochs; the last of one number counts.
pub open spec fn believed_epochs(stored: Seq<StoredEpoch<FrontierRecord>>, valid: Seq<Seq<bool>>) -> FrontierEpochs
    decreases stored.len(),
{
    if stored.len() == 0 {
        Map::empty()
    } else {
        let i = stored.len() - 1;
        believed_epochs(stored.drop_last(), valid).insert(
            stored.last().epoch,
            believed(
                stored.last(),
                if i < valid.len() {
                    valid[i]
                } else {
                    Seq::empty()
                },
            ),
        )
    }
}

/// The slots that some report names.
pub open spec fn reported_slots(reports: Map<PublicKey, PendingReport>) -> Set<RaiSlot> {
    Set::new(
        |slot: RaiSlot|
            exists|reporter: PublicKey| #[trigger]
                reports.contains_key(reporter) && reports[reporter].slots.contains(slot),
    )
}

/// The slots that the reports make visible.
pub open spec fn visible_by_reports(
    reports: Map<PublicKey, PendingReport>,
    committees: Option<Seq<Membership>>,
) -> Set<RaiSlot> {
    reported_slots(reports).filter(
        |slot: RaiSlot|
            committees is Some && committees->0.len() > 0 && reported_visible(reports, slot, committees->0),
    )
}

/// Everyone with a stored seat.
pub open spec fn stored_voters(seats: Seq<StoredSeat>) -> Set<PublicKey> {
    Set::new(|voter: PublicKey| exists|i: int| 0 <= i < seats.len() && (#[trigger] seats[i]).voter == voter)
}

/// The members of a committee with a stored seat.
pub open spec fn voters_among(seats: Seq<StoredSeat>, m: Membership) -> Set<PublicKey> {
    stored_voters(seats).filter(|voter: PublicKey| m.contains(voter))
}

/// Some committee has so many voters of an election that one is not faulty.
pub open spec fn visible_by_votes(seats: Seq<StoredSeat>, committees: Seq<Membership>) -> bool {
    exists|i: int|
        0 <= i < committees.len() && (#[trigger] committees[i]).reaches(
            voters_among(seats, committees[i]).len() as int,
            committees[i].thresholds.max_faulty + 1,
        )
}

/// A closing or closed epoch stays so, an open one starts to close.
pub open spec fn not_open(phase: RaiEpochPhase) -> RaiEpochPhase {
    if phase == RaiEpochPhase::Open {
        RaiEpochPhase::Closing
    } else {
        phase
    }
}

/// What a stored election says of its epoch.
pub open spec fn with_election<P: RaiCommitteeProvider>(
    epochs: FrontierEpochs,
    election: StoredElection,
    provider: &P,
) -> FrontierEpochs {
    let e = epoch_in(epochs, election.id.epoch_of());
    match election.id {
        RaiElectionId::Slot { slot, epoch } => match election_committees(provider, election.id) {
            Some(committees) => if visible_by_votes(election.vote_states, committees) {
                epochs.insert(
                    epoch,
                    CloseEpoch {
                        visibility: Visibility { visible: e.visibility.visible.insert(slot), ..e.visibility },
                        ..e
                    },
                )
            } else {
                epochs
            },
            None => epochs,
        },
        RaiElectionId::CloseCut { epoch, attempt } => epochs.insert(
            epoch,
            CloseEpoch { started_cuts: e.started_cuts.insert(attempt), phase: not_open(e.phase), ..e },
        ),
        RaiElectionId::CloseRecord { epoch, attempt } => epochs.insert(
            epoch,
            CloseEpoch { started_records: e.started_records.insert(attempt), phase: not_open(e.phase), ..e },
        ),
    }
}

pub open spec fn with_elections<P: RaiCommitteeProvider>(
    epochs: FrontierEpochs,
    elections: Seq<StoredElection>,
    provider: &P,
) -> FrontierEpochs
    decreases elections.len(),
{
    if elections.len() == 0 {
        epochs
    } else {
        with_election(with_elections(epochs, elections.drop_last(), provider), elections.last(), provider)
    }
}

/// The values with a set under its hash, unless the hash is taken.
pub open spec fn with_value(values: Map<BlockHash, Set<RaiSlot>>, slots: Set<RaiSlot>) -> Map<BlockHash, Set<RaiSlot>> {
    if values.contains_key(visible_hash(slots)) {
        values
    } else {
        values.insert(visible_hash(slots), slots)
    }
}

/// An epoch with the close values that its visible slots allow.
pub open spec fn with_close_values(e: FrontierEpoch) -> FrontierEpoch {
    let visible = if e.cut is Some {
        e.visibility.visible.union(e.cut->0)
    } else {
        e.visibility.visible
    };
    let allowed = e.visibility.close_values.restrict(
        e.visibility.close_values.dom().filter(
            |hash: BlockHash| e.visibility.close_values[hash].subset_of(visible),
        ),
    );
    let with_cut = if e.cut is Some {
        with_value(allowed, e.cut->0)
    } else {
        allowed
    };
    let close_values = if e.started_cuts != Set::<RaiCloseAttempt>::empty() || with_cut != Map::<
        BlockHash,
        Set<RaiSlot>,
    >::empty() || e.cut is Some {
        with_value(with_cut, visible)
    } else {
        with_cut
    };
    CloseEpoch { visibility: Visibility { visible, close_values }, ..e }
}

/// The merged outcome of a stored election.
pub open spec fn stored_outcome<P: RaiCommitteeProvider>(election: StoredElection, provider: &P) -> Option<
    RaiElectionOutcome,
> {
    match election_committees(provider, election.id) {
        Some(committees) => Election::restored(election).merged_outcome(committees),
        None => None,
    }
}

/// A cut that an election has decided for.
#[derive(Clone, Copy, Debug, PartialEq, Eq, PartialOrd, Ord, Structural)]
pub struct CutDecision {
    pub epoch: RaiEpoch,
    pub attempt: RaiCloseAttempt,
    pub hash: BlockHash,
}

impl Key for CutDecision {
    open spec fn rank(self) -> int {
        Pair(self.epoch, Pair(self.attempt, self.hash)).rank()
    }

    open spec fn span() -> int {
        Pair::<RaiEpoch, Pair<RaiCloseAttempt, BlockHash>>::span()
    }

    proof fn rank_in_span(self) {
        Pair(self.epoch, Pair(self.attempt, self.hash)).rank_in_span();
    }

    proof fn rank_is_injective(a: Self, b: Self) {
        Pair::<RaiEpoch, Pair<RaiCloseAttempt, BlockHash>>::rank_is_injective(Pair(a.epoch, Pair(a.attempt, a.hash)), Pair(b.epoch, Pair(b.attempt, b.hash)));
    }

    fn precedes(&self, other: &Self) -> (r: bool) {
        Pair(self.epoch, Pair(self.attempt, self.hash)).precedes(&Pair(other.epoch, Pair(other.attempt, other.hash)))
    }
}

/// An election decides for a cut.
pub open spec fn decides<P: RaiCommitteeProvider>(election: StoredElection, provider: &P, decision: CutDecision) -> bool {
    &&& election.id == (RaiElectionId::CloseCut { epoch: decision.epoch, attempt: decision.attempt })
    &&& fast_hash(false, stored_outcome(election, provider)) == Some(decision.hash)
}

/// The cuts that stored elections have decided for.
pub open spec fn cut_decisions<P: RaiCommitteeProvider>(elections: Seq<StoredElection>, provider: &P) -> Set<CutDecision> {
    Set::new(
        |decision: CutDecision|
            exists|i: int| 0 <= i < elections.len() && decides(#[trigger] elections[i], provider, decision),
    )
}

/// The epochs after a decision about a cut; the first known cut is fixed.
pub open spec fn with_decision(epochs: FrontierEpochs, decision: CutDecision) -> FrontierEpochs {
    if epochs.contains_key(decision.epoch) && epochs[decision.epoch].visibility.close_values.contains_key(decision.hash) {
        let e = epochs[decision.epoch];
        epochs.insert(
            decision.epoch,
            CloseEpoch {
                cut: if e.cut is None {
                    Some(e.visibility.close_values[decision.hash])
                } else {
                    e.cut
                },
                phase: not_open(e.phase),
                processed_cuts: e.processed_cuts.insert(decision.attempt),
                ..e
            },
        )
    } else {
        epochs
    }
}

pub open spec fn with_decisions(epochs: FrontierEpochs, decisions: Seq<CutDecision>) -> FrontierEpochs
    decreases decisions.len(),
{
    if decisions.len() == 0 {
        epochs
    } else {
        with_decision(with_decisions(epochs, decisions.drop_last()), decisions.last())
    }
}

/// How stored elections have closed a slot; the last election counts.
pub open spec fn closed_by_elections<P: RaiCommitteeProvider>(
    elections: Seq<StoredElection>,
    provider: &P,
    epoch: RaiEpoch,
    slot: RaiSlot,
) -> Option<RaiClosedSlotState>
    decreases elections.len(),
{
    if elections.len() == 0 {
        None
    } else {
        let last = elections.last();
        let state = closed_state(stored_outcome(last, provider));
        if last.id == (RaiElectionId::Slot { slot, epoch }) && last.status == RaiElectionStatus::Confirmed && state is Some {
            state
        } else {
            closed_by_elections(elections.drop_last(), provider, epoch, slot)
        }
    }
}

/// The closed slots of the cut: as an election has closed them, or as they were.
pub open spec fn closed_in_cut(
    cut: Set<RaiSlot>,
    closed_slots: Map<RaiSlot, RaiClosedSlotState>,
    found: Map<EpochSlot, RaiClosedSlotState>,
    epoch: RaiEpoch,
) -> Map<RaiSlot, RaiClosedSlotState> {
    Map::new(
        |slot: RaiSlot|
            cut.contains(slot) && (closed_slots.contains_key(slot) || found.contains_key(EpochSlot { epoch, slot })),
        |slot: RaiSlot|
            if found.contains_key(EpochSlot { epoch, slot }) {
                found[EpochSlot { epoch, slot }]
            } else {
                closed_slots[slot]
            },
    )
}

/// An epoch whose closed slots are those of its cut.
pub open spec fn with_closed_slots(
    e: FrontierEpoch,
    found: Map<EpochSlot, RaiClosedSlotState>,
    epoch: RaiEpoch,
) -> FrontierEpoch {
    CloseEpoch {
        closed_slots: match e.cut {
            Some(cut) => closed_in_cut(cut, e.closed_slots, found, epoch),
            None => Map::empty(),
        },
        ..e
    }
}

/// A slot in an epoch.
#[derive(Clone, Copy, Debug, PartialEq, Eq, PartialOrd, Ord, Structural)]
pub struct EpochSlot {
    pub epoch: RaiEpoch,
    pub slot: RaiSlot,
}

impl Key for EpochSlot {
    open spec fn rank(self) -> int {
        Pair(self.epoch, self.slot).rank()
    }

    open spec fn span() -> int {
        Pair::<RaiEpoch, RaiSlot>::span()
    }

    proof fn rank_in_span(self) {
        Pair(self.epoch, self.slot).rank_in_span();
    }

    proof fn rank_is_injective(a: Self, b: Self) {
        Pair::<RaiEpoch, RaiSlot>::rank_is_injective(Pair(a.epoch, a.slot), Pair(b.epoch, b.slot));
    }

    fn precedes(&self, other: &Self) -> (r: bool) {
        Pair(self.epoch, self.slot).precedes(&Pair(other.epoch, other.slot))
    }
}

/// All slots that stored elections have closed.
pub open spec fn slots_closed<P: RaiCommitteeProvider>(elections: Seq<StoredElection>, provider: &P) -> Map<
    EpochSlot,
    RaiClosedSlotState,
> {
    Map::new(
        |at: EpochSlot| closed_by_elections(elections, provider, at.epoch, at.slot) is Some,
        |at: EpochSlot| closed_by_elections(elections, provider, at.epoch, at.slot)->0,
    )
}

/// A kept record can be the one that follows the close before it.
pub open spec fn follows(
    epoch: RaiEpoch,
    hash: BlockHash,
    value: Package<FrontierRecord>,
    record: FrontierRecord,
    entries: Map<RaiSlot, RaiClosedSlotState>,
) -> bool {
    &&& RaiFrontierRecord::digest(value.record) == hash
    &&& value.record.epoch == epoch
    &&& value.record.previous_close_hash == record.previous_close_hash
    &&& value.entries == entries
    &&& if epoch > 0 {
        value.record == record
    } else {
        record.frontiers.submap_of(value.record.frontiers)
    }
}

/// An epoch with the close records that follow the close before it.
pub open spec fn with_records(
    e: FrontierEpoch,
    epoch: RaiEpoch,
    previous_close_hash: BlockHash,
    frontiers: Map<Account, BlockHash>,
) -> FrontierEpoch {
    let entries = e.entries();
    let record = FrontierRecord { epoch, previous_close_hash, frontiers: closed_frontiers(frontiers, entries) };
    let kept = e.records.restrict(
        e.records.dom().filter(|hash: BlockHash| follows(epoch, hash, e.records[hash], record, entries)),
    );
    let records = if e.entries_error() is Some {
        Map::empty()
    } else if kept == Map::<BlockHash, Package<FrontierRecord>>::empty() && e.started_records != Set::<
        RaiCloseAttempt,
    >::empty() {
        kept.insert(RaiFrontierRecord::digest(record), Package { record, entries })
    } else {
        kept
    };
    CloseEpoch {
        records,
        close_hash: if e.close_hash is Some && records.contains_key(e.close_hash->0) {
            e.close_hash
        } else {
            None
        },
        ..e
    }
}

/// The epochs so far, and the last certified close among them.
#[verifier::ext_equal]
pub struct Chain {
    pub epochs: FrontierEpochs,
    pub close_hash: BlockHash,
    pub frontiers: Map<Account, BlockHash>,
}

impl Chain {
    /// The chain with the records of one more epoch.
    pub open spec fn extended(self, epoch: RaiEpoch) -> Chain {
        let e = with_records(self.epochs[epoch], epoch, self.close_hash, self.frontiers);
        Chain {
            epochs: self.epochs.insert(epoch, e),
            close_hash: if e.close_hash is Some {
                e.close_hash->0
            } else {
                self.close_hash
            },
            frontiers: if e.close_hash is Some && e.records.contains_key(e.close_hash->0) {
                e.records[e.close_hash->0].record.frontiers
            } else {
                self.frontiers
            },
        }
    }

    pub open spec fn start(epochs: FrontierEpochs) -> Chain {
        Chain { epochs, close_hash: BlockHash { hi: 0, lo: 0 }, frontiers: Map::empty() }
    }

    pub open spec fn through(epochs: FrontierEpochs, numbers: Seq<RaiEpoch>) -> Chain
        decreases numbers.len(),
    {
        if numbers.len() == 0 {
            Chain::start(epochs)
        } else {
            Chain::through(epochs, numbers.drop_last()).extended(numbers.last())
        }
    }
}

/// A try with a later one after it has been dealt with; one that was not
/// started has not.
pub open spec fn progressed(started: Set<RaiCloseAttempt>, processed: Set<RaiCloseAttempt>) -> Set<RaiCloseAttempt> {
    started.filter(
        |attempt: RaiCloseAttempt|
            processed.contains(attempt) || exists|later: RaiCloseAttempt| #[trigger]
                started.contains(later) && attempt < later,
    )
}

/// An epoch with the progress of its tries.
pub open spec fn with_progress(e: FrontierEpoch) -> FrontierEpoch {
    CloseEpoch {
        phase: if e.cut is Some {
            not_open(e.phase)
        } else {
            e.phase
        },
        processed_cuts: progressed(e.started_cuts, e.processed_cuts),
        processed_records: progressed(e.started_records, e.processed_records),
        ..e
    }
}

/// The first epoch from `current` on that is not closed.
pub open spec fn first_not_closed(epochs: FrontierEpochs, current: RaiEpoch) -> RaiEpoch
    decreases u64::MAX - current,
{
    if current < u64::MAX && epochs.contains_key(current) && epochs[current].phase == RaiEpochPhase::Closed {
        first_not_closed(epochs, (current + 1) as RaiEpoch)
    } else {
        current
    }
}

/// What is done with every epoch on its own.
pub enum Stage<'a> {
    Reports,
    CloseValues,
    ClosedSlots(&'a SortedMap<EpochSlot, RaiClosedSlotState>),
    Progress,
}

/// The model of a stage.
#[verifier::ext_equal]
pub enum StageModel {
    Reports,
    CloseValues,
    ClosedSlots(Map<EpochSlot, RaiClosedSlotState>),
    Progress,
}

impl<'a> Stage<'a> {
    pub open spec fn model(&self) -> StageModel {
        match self {
            Stage::Reports => StageModel::Reports,
            Stage::CloseValues => StageModel::CloseValues,
            Stage::ClosedSlots(found) => StageModel::ClosedSlots(found@),
            Stage::Progress => StageModel::Progress,
        }
    }
}

/// An epoch after a stage.
pub open spec fn after_stage<P: RaiCommitteeProvider>(
    stage: StageModel,
    provider: &P,
    epoch: RaiEpoch,
    e: FrontierEpoch,
) -> FrontierEpoch {
    match stage {
        StageModel::Reports => {
            let committees = election_committees(provider, RaiElectionId::CloseCut { epoch, attempt: 0 });
            let visible = e.visibility.visible.union(visible_by_reports(e.pending_reports, committees));
            CloseEpoch { visibility: Visibility { visible, ..e.visibility }, ..e }
        },
        StageModel::CloseValues => with_close_values(e),
        StageModel::ClosedSlots(found) => with_closed_slots(e, found, epoch),
        StageModel::Progress => with_progress(e),
    }
}

/// The epochs after a stage, as far as their numbers are in `done`.
pub open spec fn staged<P: RaiCommitteeProvider>(
    stage: StageModel,
    provider: &P,
    epochs: FrontierEpochs,
    done: Set<RaiEpoch>,
) -> FrontierEpochs {
    Map::new(
        |epoch: RaiEpoch| epochs.contains_key(epoch),
        |epoch: RaiEpoch|
            if done.contains(epoch) {
                after_stage(stage, provider, epoch, epochs[epoch])
            } else {
                epochs[epoch]
            },
    )
}

/// The epochs after a stage.
pub open spec fn all_staged<P: RaiCommitteeProvider>(
    stage: StageModel,
    provider: &P,
    epochs: FrontierEpochs,
) -> FrontierEpochs {
    staged(stage, provider, epochs, epochs.dom())
}

/// The epochs with what elections say of their slots and cuts.
pub open spec fn with_outcomes<P: RaiCommitteeProvider>(
    epochs: FrontierEpochs,
    elections: Option<Seq<StoredElection>>,
    provider: &P,
) -> FrontierEpochs {
    match elections {
        Some(elections) => all_staged(
            StageModel::ClosedSlots(slots_closed(elections, provider)),
            provider,
            with_decisions(epochs, ascending(cut_decisions(elections, provider))),
        ),
        None => all_staged(StageModel::ClosedSlots(Map::empty()), provider, epochs),
    }
}

/// The epochs before their close records are looked at.
pub open spec fn before_records<P: RaiCommitteeProvider>(
    stored: StoredState<FrontierRecord>,
    valid: Seq<Seq<bool>>,
    elections: Option<Seq<StoredElection>>,
    provider: &P,
) -> FrontierEpochs {
    let read = believed_epochs(stored.epochs, valid);
    let known = read.insert(stored.current, epoch_in(read, stored.current));
    let reported = all_staged(StageModel::Reports, provider, known);
    let voted = match elections {
        Some(elections) => with_elections(reported, elections, provider),
        None => reported,
    };
    with_outcomes(all_staged(StageModel::CloseValues, provider, voted), elections, provider)
}

/// The state that stored epochs and elections yield.
pub open spec fn rebuilt<P: RaiCommitteeProvider>(
    stored: StoredState<FrontierRecord>,
    valid: Seq<Seq<bool>>,
    elections: Option<Seq<StoredElection>>,
    provider: &P,
) -> CloseState<FrontierRecord> {
    let epochs = before_records(stored, valid, elections, provider);
    let chained = Chain::through(epochs, ascending(epochs.dom())).epochs;
    let done = all_staged(StageModel::Progress, provider, chained);
    let current = first_not_closed(done, stored.current);
    CloseState { current, epochs: done }.knowing(current)
}

fn flag_at(valid: &Vec<bool>, i: usize) -> (r: bool)
    ensures
        r == is_valid(valid@, i as int),
{
    i < valid.len() && valid[i]
}

fn read_reports(stored: &Vec<RaiPendingReport>, valid: &Vec<bool>, epoch: RaiEpoch) -> (r: SortedMap<
    PublicKey,
    RaiPendingReport,
>)
    ensures
        r@ == valid_reports(stored.deep_view(), valid@, epoch),
{
    let mut r: SortedMap<PublicKey, RaiPendingReport> = SortedMap::new();
    let ghost all = stored.deep_view();
    for i in 0..stored.len()
        invariant
            all == stored.deep_view(),
            r@ == valid_reports(all.take(i as int), valid@, epoch),
    {
        proof {
            assert(all.take(i + 1).drop_last() =~= all.take(i as int));
            assert(all[i as int] == stored@[i as int].deep_view());
        }
        let report = &stored[i];
        if report.epoch == epoch && flag_at(valid, i) && !r.contains_key(&report.reporter) {
            r.insert(report.reporter, report.duplicate());
        }
    }
    proof {
        assert(all.take(all.len() as int) =~= all);
    }
    r
}

fn read_epoch(snapshot: &RaiCloseEpochSnapshot<RaiFrontierRecord>, valid: &Vec<bool>) -> (r: EpochState)
    ensures
        r.deep_view() == believed(snapshot.deep_view(), valid@),
{
    let mut close_values: SortedMap<BlockHash, VisibleSlots> = SortedMap::new();
    let ghost values = snapshot.close_values.deep_view();
    for i in 0..snapshot.close_values.len()
        invariant
            values == snapshot.close_values.deep_view(),
            close_values@ == true_close_values(values.take(i as int)),
    {
        proof {
            assert(values.take(i + 1).drop_last() =~= values.take(i as int));
            assert(values[i as int] == snapshot.close_values@[i as int].deep_view());
        }
        let value = &snapshot.close_values[i];
        let slots = SortedSet::from_vec(&value.slots);
        if value.hash == RaiVisibilityTracker::hash_visible_slots(&slots) {
            close_values.insert(value.hash, slots);
        }
    }
    let mut records: SortedMap<BlockHash, RaiCloseRecordValue<RaiFrontierRecord>> = SortedMap::new();
    let ghost packages = snapshot.close_record_values.deep_view();
    for i in 0..snapshot.close_record_values.len()
        invariant
            packages == snapshot.close_record_values.deep_view(),
            records@ == true_records(packages.take(i as int)),
    {
        proof {
            assert(packages.take(i + 1).drop_last() =~= packages.take(i as int));
            assert(packages[i as int] == snapshot.close_record_values@[i as int].deep_view());
        }
        let value = &snapshot.close_record_values[i];
        if value.hash == value.record.hash() {
            let entries = restore_closed_slots(&value.states);
            records.insert(value.hash, RaiCloseRecordValue { record: value.record.duplicate(), entries });
        }
    }
    proof {
        assert(values.take(values.len() as int) =~= values);
        assert(packages.take(packages.len() as int) =~= packages);
    }
    let close_hash = match snapshot.close_hash {
        Some(hash) => if records.contains_key(&hash) {
            Some(hash)
        } else {
            None
        },
        None => None,
    };
    let cut_set = match &snapshot.cut_set {
        Some(slots) => Some(SortedSet::from_vec(slots)),
        None => None,
    };
    let r = RaiCloseEpochState {
        phase: snapshot.phase,
        close_hash,
        pending_reports: read_reports(&snapshot.pending_reports, valid, snapshot.epoch),
        visibility: RaiVisibilityTracker {
            visible_slots: SortedSet::from_vec(&snapshot.visible_slots),
            close_values,
        },
        started_close_attempts: SortedSet::from_vec(&snapshot.started_close_attempts),
        processed_close_attempts: SortedSet::from_vec(&snapshot.processed_close_attempts),
        cut_set,
        closed_slots: restore_closed_slots(&snapshot.closed_slots),
        close_record_values: records,
        started_close_record_attempts: SortedSet::from_vec(&snapshot.started_close_record_attempts),
        processed_close_record_attempts: SortedSet::from_vec(&snapshot.processed_close_record_attempts),
    };
    proof {
        assert(r.deep_view() =~= believed(snapshot.deep_view(), valid@));
    }
    r
}

fn count_reporters(
    reports: &SortedMap<PublicKey, RaiPendingReport>,
    slot: &RaiSlot,
    committee: &RaiCommittee,
) -> (r: usize)
    ensures
        r == reporters(reports@, *slot, committee@).len(),
{
    let n: usize = reports.len();
    let ghost keys = ascending(reports@.dom());
    let mut found: SortedSet<PublicKey> = SortedSet::new();
    proof {
        lemma_ascending(reports@.dom());
    }
    for i in 0..n
        invariant
            n == reports@.len(),
            n == keys.len(),
            keys == ascending(reports@.dom()),
            forall|reporter: PublicKey| #[trigger]
                found@.contains(reporter) == (keys.take(i as int).to_set().contains(reporter)
                    && reports@[reporter].slots.contains(*slot) && committee@.contains(reporter)),
    {
        proof {
            lemma_take_set(keys, i as int);
        }
        let reporter = reports.key_at(i);
        if names_slot(&reports.value_at(i).slots, slot) && committee.contains(&reporter) {
            found.insert(reporter);
        }
    }
    proof {
        assert(keys.take(n as int) =~= keys);
        assert(found@ =~= reporters(reports@, *slot, committee@));
    }
    found.len()
}

fn report_visibility_reached(
    reports: &SortedMap<PublicKey, RaiPendingReport>,
    slot: &RaiSlot,
    committees: &RaiCommitteeSet,
) -> (r: bool)
    ensures
        r == reported_visible(reports@, *slot, committees@),
{
    let n: usize = committees.len();
    for i in 0..n
        invariant
            n == committees@.len(),
            forall|j: int|
                0 <= j < i ==> (#[trigger] committees@[j]).reaches(
                    reporters(reports@, *slot, committees@[j]).len() as int,
                    committees@[j].thresholds.max_faulty + 1,
                ),
    {
        let committee = committees.at(i);
        let count = count_reporters(reports, slot, committee);
        if !committee.has_visibility_quorum(count) {
            return false;
        }
    }
    true
}

/// All slots that some report names.
fn slots_of_reports(reports: &SortedMap<PublicKey, RaiPendingReport>) -> (r: VisibleSlots)
    ensures
        r@ == reported_slots(reports@),
{
    let n: usize = reports.len();
    let ghost keys = ascending(reports@.dom());
    let mut slots: VisibleSlots = SortedSet::new();
    proof {
        lemma_ascending(reports@.dom());
    }
    for i in 0..n
        invariant
            n == reports@.len(),
            n == keys.len(),
            keys == ascending(reports@.dom()),
            forall|j: int| 0 <= j < n ==> reports@.contains_key(#[trigger] keys[j]),
            forall|slot: RaiSlot| #[trigger]
                slots@.contains(slot) == exists|j: int|
                    0 <= j < i && reports@[#[trigger] keys[j]].slots.contains(slot),
    {
        let ghost before = slots@;
        let report = reports.value_at(i);
        slots.extend(&SortedSet::from_vec(&report.slots));
        proof {
            assert forall|slot: RaiSlot| #[trigger] slots@.contains(slot) == exists|j: int|
                0 <= j < i + 1 && reports@[#[trigger] keys[j]].slots.contains(slot) by {
                if before.contains(slot) {
                    let j = choose|j: int| 0 <= j < i && reports@[#[trigger] keys[j]].slots.contains(slot);
                    assert(reports@[keys[j]].slots.contains(slot));
                }
                if report.slots@.to_set().contains(slot) {
                    assert(reports@[keys[i as int]].slots.contains(slot));
                }
            }
        }
    }
    proof {
        assert forall|slot: RaiSlot| slots@.contains(slot) == reported_slots(reports@).contains(slot) by {
            if slots@.contains(slot) {
                let j = choose|j: int| 0 <= j < n && reports@[#[trigger] keys[j]].slots.contains(slot);
                assert(reports@.contains_key(keys[j]));
            }
            if reported_slots(reports@).contains(slot) {
                let reporter = choose|reporter: PublicKey| #[trigger]
                    reports@.contains_key(reporter) && reports@[reporter].slots.contains(slot);
                assert(keys.contains(reporter));
                let j = choose|j: int| 0 <= j < keys.len() && keys[j] == reporter;
                assert(reports@[keys[j]].slots.contains(slot));
            }
        }
        assert(slots@ =~= reported_slots(reports@));
    }
    slots
}

fn vote_visibility_reached(election: &RaiElectionSnapshot, committees: &RaiCommitteeSet) -> (r: bool)
    ensures
        r == visible_by_votes(election.deep_view().vote_states, committees@),
{
    let mut voters: SortedSet<PublicKey> = SortedSet::new();
    let ghost seats = election.vote_states.deep_view();
    for i in 0..election.vote_states.len()
        invariant
            seats == election.vote_states.deep_view(),
            forall|voter: PublicKey| #[trigger]
                voters@.contains(voter) == exists|j: int| 0 <= j < i && (#[trigger] seats[j]).voter == voter,
    {
        let ghost before = voters@;
        proof {
            assert(seats[i as int] == election.vote_states@[i as int].deep_view());
        }
        voters.insert(election.vote_states[i].voter);
        proof {
            assert forall|voter: PublicKey| #[trigger] voters@.contains(voter) == exists|j: int|
                0 <= j < i + 1 && (#[trigger] seats[j]).voter == voter by {
                if before.contains(voter) {
                    let j = choose|j: int| 0 <= j < i && (#[trigger] seats[j]).voter == voter;
                    assert(seats[j].voter == voter);
                }
            }
        }
    }
    proof {
        assert(voters@ =~= stored_voters(seats));
    }
    let n: usize = committees.len();
    for i in 0..n
        invariant
            n == committees@.len(),
            seats == election.vote_states.deep_view(),
            voters@ == stored_voters(seats),
            forall|j: int|
                0 <= j < i ==> !(#[trigger] committees@[j]).reaches(
                    voters_among(seats, committees@[j]).len() as int,
                    committees@[j].thresholds.max_faulty + 1,
                ),
    {
        let committee = committees.at(i);
        let mut present: SortedSet<PublicKey> = SortedSet::new();
        let m: usize = voters.len();
        let ghost listed = ascending(voters@);
        proof {
            lemma_ascending(voters@);
        }
        for k in 0..m
            invariant
                m == voters@.len(),
                m == listed.len(),
                listed == ascending(voters@),
                forall|voter: PublicKey| #[trigger]
                    present@.contains(voter) == (listed.take(k as int).to_set().contains(voter) && committee@.contains(
                        voter,
                    )),
        {
            proof {
                lemma_take_set(listed, k as int);
            }
            let voter = voters.at(k);
            if committee.contains(&voter) {
                present.insert(voter);
            }
        }
        proof {
            assert(listed.take(m as int) =~= listed);
            assert(present@ =~= voters_among(seats, committees@[i as int]));
        }
        let count: usize = present.len();
        if committee.has_visibility_quorum(count) {
            return true;
        }
    }
    false
}

fn progress(started: &SortedSet<RaiCloseAttempt>, processed: &SortedSet<RaiCloseAttempt>) -> (r: SortedSet<
    RaiCloseAttempt,
>)
    ensures
        r@ == progressed(started@, processed@),
{
    let n: usize = started.len();
    let ghost listed = ascending(started@);
    let mut r: SortedSet<RaiCloseAttempt> = SortedSet::new();
    proof {
        lemma_ascending(started@);
    }
    for i in 0..n
        invariant
            n == started@.len(),
            n == listed.len(),
            listed == ascending(started@),
            listed.no_duplicates(),
            forall|attempt: RaiCloseAttempt| #[trigger]
                r@.contains(attempt) == exists|j: int|
                    0 <= j < i && #[trigger] listed[j] == attempt && (processed@.contains(attempt) || j < n - 1),
    {
        let attempt = started.at(i);
        let ghost before = r@;
        if i + 1 < n || processed.contains(&attempt) {
            r.insert(attempt);
        }
        proof {
            assert forall|a: RaiCloseAttempt| #[trigger] r@.contains(a) == exists|j: int|
                0 <= j < i + 1 && #[trigger] listed[j] == a && (processed@.contains(a) || j < n - 1) by {
                if before.contains(a) {
                    let j = choose|j: int|
                        0 <= j < i && #[trigger] listed[j] == a && (processed@.contains(a) || j < n - 1);
                    assert(listed[j] == a);
                }
                if a == attempt {
                    assert(listed[i as int] == a);
                }
            }
        }
    }
    proof {
        assert forall|attempt: RaiCloseAttempt| r@.contains(attempt) == progressed(started@, processed@).contains(
            attempt,
        ) by {
            if r@.contains(attempt) {
                let j = choose|j: int|
                    0 <= j < n && #[trigger] listed[j] == attempt && (processed@.contains(attempt) || j < n - 1);
                assert(started@.contains(listed[j]));
                if j < n - 1 {
                    assert(started@.contains(listed[n - 1]));
                    assert(listed[j].rank() < listed[n - 1].rank());
                }
            }
            if progressed(started@, processed@).contains(attempt) {
                assert(listed.contains(attempt));
                let j = choose|j: int| 0 <= j < listed.len() && listed[j] == attempt;
                if !processed@.contains(attempt) {
                    let later = choose|later: RaiCloseAttempt| #[trigger] started@.contains(later) && attempt < later;
                    assert(listed.contains(later));
                    let k = choose|k: int| 0 <= k < listed.len() && listed[k] == later;
                    if j == n - 1 && k < j {
                        assert(listed[k].rank() < listed[j].rank());
                    }
                    assert(j < n - 1);
                }
                assert(listed[j] == attempt);
            }
        }
        assert(r@ =~= progressed(started@, processed@));
    }
    r
}

fn add_value(values: &mut SortedMap<BlockHash, VisibleSlots>, slots: &VisibleSlots)
    ensures
        final(values)@ == with_value(old(values)@, slots@),
{
    let hash = RaiVisibilityTracker::hash_visible_slots(slots);
    if !values.contains_key(&hash) {
        values.insert(hash, slots.duplicate());
    }
}

fn rebuild_close_values(state: EpochState) -> (r: EpochState)
    ensures
        r.deep_view() == with_close_values(state.deep_view()),
{
    let ghost e = state.deep_view();
    let mut state = state;
    let mut visible = state.visibility.visible_slots.duplicate();
    if let Some(cut) = &state.cut_set {
        visible.extend(cut);
    }
    let values = &state.visibility.close_values;
    let n: usize = values.len();
    let ghost hashes = ascending(values@.dom());
    let ghost allowed = e.visibility.close_values.restrict(
        e.visibility.close_values.dom().filter(
            |hash: BlockHash| e.visibility.close_values[hash].subset_of(visible@),
        ),
    );
    let mut kept: SortedMap<BlockHash, VisibleSlots> = SortedMap::new();
    proof {
        lemma_ascending(values@.dom());
        assert(allowed.restrict(hashes.take(0).to_set()) =~= Map::<BlockHash, Set<RaiSlot>>::empty());
    }
    for i in 0..n
        invariant
            n == values@.len(),
            n == hashes.len(),
            hashes == ascending(values@.dom()),
            hashes.no_duplicates(),
            values@ == e.visibility.close_values,
            allowed == e.visibility.close_values.restrict(
                e.visibility.close_values.dom().filter(
                    |hash: BlockHash| e.visibility.close_values[hash].subset_of(visible@),
                ),
            ),
            kept@ == allowed.restrict(hashes.take(i as int).to_set()),
    {
        proof {
            lemma_take_distinct(hashes, i as int);
        }
        let hash = values.key_at(i);
        let slots = values.value_at(i);
        if slots.is_subset(&visible) {
            kept.insert(hash, slots.duplicate());
        }
        proof {
            assert(kept@ =~= allowed.restrict(hashes.take(i + 1).to_set()));
        }
    }
    proof {
        assert(hashes.take(n as int) =~= hashes);
        assert(allowed.restrict(hashes.to_set()) =~= allowed);
    }
    if let Some(cut) = &state.cut_set {
        add_value(&mut kept, cut);
    }
    if !state.started_close_attempts.is_empty() || !kept.is_empty() || state.cut_set.is_some() {
        add_value(&mut kept, &visible);
    }
    state.visibility = RaiVisibilityTracker { visible_slots: visible, close_values: kept };
    proof {
        assert(state.deep_view() =~= with_close_values(e));
    }
    state
}

fn rebuild_closed_slots(
    state: EpochState,
    found: &SortedMap<EpochSlot, RaiClosedSlotState>,
    epoch: RaiEpoch,
) -> (r: EpochState)
    ensures
        r.deep_view() == with_closed_slots(state.deep_view(), found@, epoch),
{
    let ghost e = state.deep_view();
    let mut state = state;
    let mut closed: SortedMap<RaiSlot, RaiClosedSlotState> = SortedMap::new();
    if let Some(cut) = &state.cut_set {
        let n: usize = cut.len();
        let ghost slots = ascending(cut@);
        let ghost all = closed_in_cut(cut@, e.closed_slots, found@, epoch);
        proof {
            lemma_ascending(cut@);
            assert(all.restrict(slots.take(0).to_set()) =~= Map::<RaiSlot, RaiClosedSlotState>::empty());
        }
        for i in 0..n
            invariant
                n == cut@.len(),
                n == slots.len(),
                slots == ascending(cut@),
                slots.no_duplicates(),
                all == closed_in_cut(cut@, e.closed_slots, found@, epoch),
                e.closed_slots == state.closed_slots@,
                closed@ == all.restrict(slots.take(i as int).to_set()),
        {
            proof {
                lemma_take_distinct(slots, i as int);
            }
            let slot = cut.at(i);
            if let Some(decided) = found.get(&EpochSlot { epoch, slot }) {
                closed.insert(slot, *decided);
            } else if let Some(known) = state.closed_slots.get(&slot) {
                closed.insert(slot, *known);
            }
            proof {
                assert(closed@ =~= all.restrict(slots.take(i + 1).to_set()));
            }
        }
        proof {
            assert(slots.take(n as int) =~= slots);
            assert(all.restrict(slots.to_set()) =~= all);
        }
    }
    state.closed_slots = closed;
    proof {
        assert(state.deep_view() =~= with_closed_slots(e, found@, epoch));
    }
    state
}

fn rebuild_attempt_progress(state: EpochState) -> (r: EpochState)
    ensures
        r.deep_view() == with_progress(state.deep_view()),
{
    let ghost e = state.deep_view();
    let mut state = state;
    if state.cut_set.is_some() && state.phase == RaiEpochPhase::Open {
        state.phase = RaiEpochPhase::Closing;
    }
    let cuts = progress(&state.started_close_attempts, &state.processed_close_attempts);
    let records = progress(&state.started_close_record_attempts, &state.processed_close_record_attempts);
    state.processed_close_attempts = cuts;
    state.processed_close_record_attempts = records;
    proof {
        assert(state.deep_view() =~= with_progress(e));
    }
    state
}

fn is_submap(small: &RaiFrontiers, large: &RaiFrontiers) -> (r: bool)
    ensures
        r == small@.submap_of(large@),
{
    let n: usize = small.len();
    let ghost accounts = ascending(small@.dom());
    proof {
        lemma_ascending(small@.dom());
    }
    for i in 0..n
        invariant
            n == small@.len(),
            n == accounts.len(),
            accounts == ascending(small@.dom()),
            forall|j: int|
                0 <= j < i ==> large@.contains_key(#[trigger] accounts[j]) && large@[accounts[j]]
                    == small@[accounts[j]],
    {
        let account = small.key_at(i);
        let same = match large.get(&account) {
            Some(hash) => *hash == *small.value_at(i),
            None => false,
        };
        if !same {
            proof {
                assert(small@.contains_key(account));
                assert(!small@.submap_of(large@)) by {
                    if small@.submap_of(large@) {
                        assert(small@.dom().contains(account));
                        assert(large@.dom().contains(account) && large@[account] == small@[account]);
                    }
                }
            }
            return false;
        }
    }
    proof {
        assert forall|account: Account| #[trigger] small@.dom().contains(account) implies large@.dom().contains(account)
            && small@[account] == large@[account] by {
            assert(accounts.contains(account));
            let j = choose|j: int| 0 <= j < accounts.len() && accounts[j] == account;
            assert(large@.contains_key(accounts[j]));
        }
    }
    true
}

fn record_follows(
    epoch: RaiEpoch,
    hash: &BlockHash,
    value: &RaiCloseRecordValue<RaiFrontierRecord>,
    record: &RaiFrontierRecord,
    entries: &CloseRecordEntries,
) -> (r: bool)
    ensures
        r == follows(epoch, *hash, value.deep_view(), record.deep_view(), entries@),
{
    if value.record.hash() != *hash || value.record.epoch != epoch || value.record.previous_close_hash
        != record.previous_close_hash || !value.entries.agrees(entries) {
        return false;
    }
    if epoch > 0 {
        value.record.agrees(record)
    } else {
        is_submap(&record.frontiers, &value.record.frontiers)
    }
}

fn rebuild_close_record_values(
    state: EpochState,
    epoch: RaiEpoch,
    previous_close_hash: BlockHash,
    previous_frontiers: &RaiFrontiers,
) -> (r: EpochState)
    ensures
        r.deep_view() == with_records(state.deep_view(), epoch, previous_close_hash, previous_frontiers@),
{
    let ghost e = state.deep_view();
    let mut state = state;
    let entries = match state.current_close_record_entries() {
        Ok(entries) => entries,
        Err(_) => {
            state.close_record_values = SortedMap::new();
            state.close_hash = None;
            proof {
                assert(state.deep_view() =~= with_records(e, epoch, previous_close_hash, previous_frontiers@));
            }
            return state;
        },
    };
    let record = RaiFrontierRecord {
        epoch,
        previous_close_hash,
        frontiers: close_frontiers(previous_frontiers, &entries),
    };
    let ghost kept = e.records.restrict(
        e.records.dom().filter(
            |hash: BlockHash| follows(epoch, hash, e.records[hash], record.deep_view(), entries@),
        ),
    );
    let n: usize = state.close_record_values.len();
    let ghost hashes = ascending(e.records.dom());
    let mut records: SortedMap<BlockHash, RaiCloseRecordValue<RaiFrontierRecord>> = SortedMap::new();
    proof {
        lemma_ascending(e.records.dom());
        assert(kept.restrict(hashes.take(0).to_set()) =~= Map::<BlockHash, Package<FrontierRecord>>::empty());
    }
    for i in 0..n
        invariant
            n == state.close_record_values@.len(),
            state.close_record_values@ == e.records,
            n == hashes.len(),
            hashes == ascending(e.records.dom()),
            hashes.no_duplicates(),
            kept == e.records.restrict(
                e.records.dom().filter(
                    |hash: BlockHash| follows(epoch, hash, e.records[hash], record.deep_view(), entries@),
                ),
            ),
            records@ == kept.restrict(hashes.take(i as int).to_set()),
    {
        proof {
            lemma_take_distinct(hashes, i as int);
        }
        let hash = state.close_record_values.key_at(i);
        let value = state.close_record_values.value_at(i);
        if record_follows(epoch, &hash, value, &record, &entries) {
            records.insert(hash, value.duplicate());
        }
        proof {
            assert(records@ =~= kept.restrict(hashes.take(i + 1).to_set()));
        }
    }
    proof {
        assert(hashes.take(n as int) =~= hashes);
        assert(kept.restrict(hashes.to_set()) =~= kept);
    }
    if records.is_empty() && !state.started_close_record_attempts.is_empty() {
        records.insert(record.hash(), RaiCloseRecordValue { record, entries });
    }
    let close_hash = match state.close_hash {
        Some(hash) => if records.contains_key(&hash) {
            Some(hash)
        } else {
            None
        },
        None => None,
    };
    state.close_record_values = records;
    state.close_hash = close_hash;
    proof {
        assert(state.deep_view() =~= with_records(e, epoch, previous_close_hash, previous_frontiers@));
    }
    state
}

type EpochStates = SortedMap<RaiEpoch, EpochState>;

fn take_epoch(epochs: &mut EpochStates, epoch: RaiEpoch) -> (r: EpochState)
    ensures
        r.deep_view() == epoch_in(old(epochs)@, epoch),
        final(epochs)@ == old(epochs)@.remove(epoch),
{
    match epochs.remove(&epoch) {
        Some(state) => state,
        None => RaiCloseEpochState::open(),
    }
}

fn is_closed(epochs: &EpochStates, epoch: RaiEpoch) -> (r: bool)
    ensures
        r == (epochs@.contains_key(epoch) && epochs@[epoch].phase == RaiEpochPhase::Closed),
{
    match epochs.get(&epoch) {
        Some(state) => state.phase == RaiEpochPhase::Closed,
        None => false,
    }
}

/// Every report of every epoch stands under its reporter.
pub open spec fn all_keyed(epochs: FrontierEpochs) -> bool {
    forall|epoch: RaiEpoch| #[trigger] epochs.contains_key(epoch) ==> reports_keyed(epochs[epoch].pending_reports)
}

proof fn lemma_valid_reports_keyed(stored: Seq<PendingReport>, valid: Seq<bool>, epoch: RaiEpoch)
    ensures
        reports_keyed(valid_reports(stored, valid, epoch)),
    decreases stored.len(),
{
    if stored.len() > 0 {
        lemma_valid_reports_keyed(stored.drop_last(), valid, epoch);
    }
}

/// Rebuilds the epochs from what was stored of them and of the elections.
pub struct RaiCloseStateRebuilder<'a, P: RaiCommitteeProvider> {
    committee_provider: &'a P,
}

impl<'a, P: RaiCommitteeProvider> RaiCloseStateRebuilder<'a, P> {
    pub closed spec fn provider(&self) -> &P {
        self.committee_provider
    }

    pub fn new(committee_provider: &'a P) -> (r: Self)
        ensures
            r.provider() == committee_provider,
    {
        RaiCloseStateRebuilder { committee_provider }
    }

    fn rebuild_report_visibility(&self, state: EpochState, epoch: RaiEpoch) -> (r: EpochState)
        ensures
            r.deep_view() == after_stage(StageModel::Reports, self.provider(), epoch, state.deep_view()),
    {
        let ghost e = state.deep_view();
        let mut state = state;
        let ghost committees_known = election_committees(
            self.provider(),
            RaiElectionId::CloseCut { epoch, attempt: 0 },
        );
        let ghost wanted = visible_by_reports(e.pending_reports, committees_known);
        match self.committee_provider.try_committees_for(&RaiElectionId::CloseCut { epoch, attempt: 0 }) {
            None => {
                proof {
                    assert(e.visibility.visible.union(wanted) =~= e.visibility.visible);
                }
            },
            Some(committees) => {
                if committees.is_empty() {
                    proof {
                        assert(e.visibility.visible.union(wanted) =~= e.visibility.visible);
                    }
                } else {
                    let candidates = slots_of_reports(&state.pending_reports);
                    let n: usize = candidates.len();
                    let ghost slots = ascending(candidates@);
                    let mut visible: VisibleSlots = SortedSet::new();
                    proof {
                        lemma_ascending(candidates@);
                    }
                    for i in 0..n
                        invariant
                            n == candidates@.len(),
                            n == slots.len(),
                            slots == ascending(candidates@),
                            state.pending_reports@ == e.pending_reports,
                            forall|slot: RaiSlot| #[trigger]
                                visible@.contains(slot) == (slots.take(i as int).to_set().contains(slot)
                                    && reported_visible(e.pending_reports, slot, committees@)),
                    {
                        proof {
                            lemma_take_set(slots, i as int);
                        }
                        let slot = candidates.at(i);
                        if report_visibility_reached(&state.pending_reports, &slot, &committees) {
                            visible.insert(slot);
                        }
                    }
                    proof {
                        assert(slots.take(n as int) =~= slots);
                        assert(visible@ =~= wanted);
                    }
                    state.visibility.visible_slots.extend(&visible);
                }
            },
        }
        proof {
            assert(state.deep_view() =~= after_stage(StageModel::Reports, self.provider(), epoch, e));
        }
        state
    }

    fn apply_stage(&self, stage: &Stage<'_>, epoch: RaiEpoch, state: EpochState) -> (r: EpochState)
        ensures
            r.deep_view() == after_stage(stage.model(), self.provider(), epoch, state.deep_view()),
    {
        match stage {
            Stage::Reports => self.rebuild_report_visibility(state, epoch),
            Stage::CloseValues => rebuild_close_values(state),
            Stage::ClosedSlots(found) => rebuild_closed_slots(state, *found, epoch),
            Stage::Progress => rebuild_attempt_progress(state),
        }
    }

    /// Applies a stage to every epoch.
    fn apply_to_all(&self, stage: &Stage<'_>, epochs: &mut EpochStates)
        requires
            all_keyed(old(epochs)@),
        ensures
            final(epochs)@ == all_staged(stage.model(), self.provider(), old(epochs)@),
            all_keyed(final(epochs)@),
    {
        let ghost before = epochs@;
        let numbers = epochs.keys_vec();
        proof {
            lemma_ascending(before.dom());
            assert(epochs@ =~= staged(stage.model(), self.provider(), before, numbers@.take(0).to_set()));
        }
        for i in 0..numbers.len()
            invariant
                numbers@ == ascending(before.dom()),
                numbers@.no_duplicates(),
                forall|j: int| 0 <= j < numbers@.len() ==> before.contains_key(#[trigger] numbers@[j]),
                epochs@ == staged(stage.model(), self.provider(), before, numbers@.take(i as int).to_set()),
        {
            proof {
                lemma_take_distinct(numbers@, i as int);
            }
            let epoch = numbers[i];
            let state = take_epoch(epochs, epoch);
            let state = self.apply_stage(stage, epoch, state);
            epochs.insert(epoch, state);
            proof {
                assert(epochs@ =~= staged(stage.model(), self.provider(), before, numbers@.take(i + 1).to_set()));
            }
        }
        proof {
            assert(numbers@.take(numbers@.len() as int) =~= numbers@);
            assert(epochs@ =~= all_staged(stage.model(), self.provider(), before));
        }
    }

    fn rebuild_from_active_elections(&self, epochs: &mut EpochStates, elections: &Vec<RaiElectionSnapshot>)
        requires
            all_keyed(old(epochs)@),
        ensures
            final(epochs)@ == with_elections(old(epochs)@, elections.deep_view(), self.provider()),
            all_keyed(final(epochs)@),
    {
        let ghost before = epochs@;
        let ghost all = elections.deep_view();
        for i in 0..elections.len()
            invariant
                all == elections.deep_view(),
                all_keyed(epochs@),
                epochs@ == with_elections(before, all.take(i as int), self.provider()),
        {
            proof {
                assert(all.take(i + 1).drop_last() =~= all.take(i as int));
                assert(all[i as int] == elections@[i as int].deep_view());
            }
            let election = &elections[i];
            let ghost now = epochs@;
            match election.id {
                RaiElectionId::Slot { slot, epoch } => {
                    let visible = match self.committee_provider.try_committees_for(&election.id) {
                        Some(committees) => vote_visibility_reached(election, &committees),
                        None => false,
                    };
                    if visible {
                        let mut state = take_epoch(epochs, epoch);
                        state.visibility.visible_slots.insert(slot);
                        epochs.insert(epoch, state);
                    }
                },
                RaiElectionId::CloseCut { epoch, attempt } => {
                    let mut state = take_epoch(epochs, epoch);
                    state.started_close_attempts.insert(attempt);
                    if state.phase == RaiEpochPhase::Open {
                        state.phase = RaiEpochPhase::Closing;
                    }
                    epochs.insert(epoch, state);
                },
                RaiElectionId::CloseRecord { epoch, attempt } => {
                    let mut state = take_epoch(epochs, epoch);
                    state.started_close_record_attempts.insert(attempt);
                    if state.phase == RaiEpochPhase::Open {
                        state.phase = RaiEpochPhase::Closing;
                    }
                    epochs.insert(epoch, state);
                },
            }
            proof {
                assert(epochs@ =~= with_election(now, all[i as int], self.provider()));
            }
        }
        proof {
            assert(all.take(all.len() as int) =~= all);
        }
    }

    fn outcome(&self, election: &RaiElectionSnapshot) -> (r: Option<RaiElectionOutcome>)
        requires
            election.deep_view().sums_fit(),
        ensures
            r == stored_outcome(election.deep_view(), self.provider()),
    {
        match self.committee_provider.try_committees_for(&election.id) {
            Some(committees) => RaiElection::from_snapshot(election).merged_outcome(&committees),
            None => None,
        }
    }

    fn find_cut_decisions(&self, elections: &Vec<RaiElectionSnapshot>) -> (r: SortedSet<CutDecision>)
        requires
            forall|i: int| 0 <= i < elections.deep_view().len() ==> (#[trigger] elections.deep_view()[i]).sums_fit(),
        ensures
            r@ == cut_decisions(elections.deep_view(), self.provider()),
    {
        let mut decisions: SortedSet<CutDecision> = SortedSet::new();
        let ghost all = elections.deep_view();
        for i in 0..elections.len()
            invariant
                all == elections.deep_view(),
                forall|j: int| 0 <= j < all.len() ==> (#[trigger] all[j]).sums_fit(),
                forall|decision: CutDecision| #[trigger]
                    decisions@.contains(decision) == exists|j: int|
                        0 <= j < i && decides(#[trigger] all[j], self.provider(), decision),
        {
            let ghost before = decisions@;
            proof {
                assert(all[i as int] == elections@[i as int].deep_view());
            }
            if let RaiElectionId::CloseCut { epoch, attempt } = elections[i].id {
                if let Some(RaiElectionOutcome::Fast(RaiElectionValue::CloseCutHash(hash))) = self.outcome(
                    &elections[i],
                ) {
                    decisions.insert(CutDecision { epoch, attempt, hash });
                }
            }
            proof {
                assert forall|decision: CutDecision| #[trigger] decisions@.contains(decision) == exists|j: int|
                    0 <= j < i + 1 && decides(#[trigger] all[j], self.provider(), decision) by {
                    if before.contains(decision) {
                        let j = choose|j: int| 0 <= j < i && decides(#[trigger] all[j], self.provider(), decision);
                        assert(decides(all[j], self.provider(), decision));
                    }
                    if decides(all[i as int], self.provider(), decision) {
                        assert(decisions@.contains(decision));
                    }
                    if decisions@.contains(decision) && !before.contains(decision) {
                        assert(decides(all[i as int], self.provider(), decision));
                    }
                }
            }
        }
        proof {
            assert(decisions@ =~= cut_decisions(all, self.provider()));
        }
        decisions
    }

    fn rebuild_cut_sets(&self, epochs: &mut EpochStates, elections: &Vec<RaiElectionSnapshot>)
        requires
            all_keyed(old(epochs)@),
            forall|i: int| 0 <= i < elections.deep_view().len() ==> (#[trigger] elections.deep_view()[i]).sums_fit(),
        ensures
            final(epochs)@ == with_decisions(
                old(epochs)@,
                ascending(cut_decisions(elections.deep_view(), self.provider())),
            ),
            all_keyed(final(epochs)@),
    {
        let ghost before = epochs@;
        let decisions = self.find_cut_decisions(elections).to_vec();
        for i in 0..decisions.len()
            invariant
                epochs@ == with_decisions(before, decisions@.take(i as int)),
                all_keyed(epochs@),
        {
            proof {
                assert(decisions@.take(i + 1).drop_last() =~= decisions@.take(i as int));
            }
            let decision = decisions[i];
            let ghost now = epochs@;
            let cut = match epochs.get(&decision.epoch) {
                Some(state) => match state.visibility.close_values.get(&decision.hash) {
                    Some(cut) => Some(cut.duplicate()),
                    None => None,
                },
                None => None,
            };
            if let Some(cut) = cut {
                let mut state = take_epoch(epochs, decision.epoch);
                if state.cut_set.is_none() {
                    state.cut_set = Some(cut);
                }
                if state.phase == RaiEpochPhase::Open {
                    state.phase = RaiEpochPhase::Closing;
                }
                state.processed_close_attempts.insert(decision.attempt);
                epochs.insert(decision.epoch, state);
            }
            proof {
                assert(epochs@ =~= with_decision(now, decision));
            }
        }
        proof {
            assert(decisions@.take(decisions@.len() as int) =~= decisions@);
        }
    }

    fn find_closed_slots(&self, elections: &Vec<RaiElectionSnapshot>) -> (r: SortedMap<EpochSlot, RaiClosedSlotState>)
        requires
            forall|i: int| 0 <= i < elections.deep_view().len() ==> (#[trigger] elections.deep_view()[i]).sums_fit(),
        ensures
            r@ == slots_closed(elections.deep_view(), self.provider()),
    {
        let mut found: SortedMap<EpochSlot, RaiClosedSlotState> = SortedMap::new();
        let ghost all = elections.deep_view();
        proof {
            assert(found@ =~= slots_closed(all.take(0), self.provider()));
        }
        for i in 0..elections.len()
            invariant
                all == elections.deep_view(),
                forall|j: int| 0 <= j < all.len() ==> (#[trigger] all[j]).sums_fit(),
                found@ == slots_closed(all.take(i as int), self.provider()),
        {
            proof {
                assert(all[i as int] == elections@[i as int].deep_view());
                assert(all.take(i + 1).drop_last() =~= all.take(i as int));
            }
            if let RaiElectionId::Slot { slot, epoch } = elections[i].id {
                if elections[i].status == RaiElectionStatus::Confirmed {
                    if let Some(outcome) = self.outcome(&elections[i]) {
                        if let Some(state) = closed_slot_state_from_outcome(outcome) {
                            found.insert(EpochSlot { epoch, slot }, state);
                        }
                    }
                }
            }
            proof {
                assert(found@ =~= slots_closed(all.take(i + 1), self.provider()));
            }
        }
        proof {
            assert(all.take(all.len() as int) =~= all);
        }
        found
    }

    fn rebuild_outcomes(&self, epochs: &mut EpochStates, active_elections: Option<&RaiActiveElectionsSnapshot>)
        requires
            all_keyed(old(epochs)@),
            active_elections matches Some(active) ==> forall|i: int|
                0 <= i < active.deep_view().len() ==> (#[trigger] active.deep_view()[i]).sums_fit(),
        ensures
            final(epochs)@ == with_outcomes(
                old(epochs)@,
                match active_elections {
                    Some(active) => Some(active.deep_view()),
                    None => None,
                },
                self.provider(),
            ),
            all_keyed(final(epochs)@),
    {
        match active_elections {
            Some(active) => {
                let ghost stored = active.deep_view();
                proof {
                    assert forall|i: int| 0 <= i < active.elections.deep_view().len() implies (
                    #[trigger] active.elections.deep_view()[i]).sums_fit() by {
                        assert(stored[i].sums_fit());
                    }
                }
                self.rebuild_cut_sets(epochs, &active.elections);
                let found = self.find_closed_slots(&active.elections);
                self.apply_to_all(&Stage::ClosedSlots(&found), epochs);
            },
            None => {
                let none: SortedMap<EpochSlot, RaiClosedSlotState> = SortedMap::new();
                self.apply_to_all(&Stage::ClosedSlots(&none), epochs);
            },
        }
    }

    fn rebuild_records(&self, epochs: &mut EpochStates)
        requires
            all_keyed(old(epochs)@),
        ensures
            all_keyed(final(epochs)@),
            final(epochs)@ == Chain::through(old(epochs)@, ascending(old(epochs)@.dom())).epochs,
            final(epochs)@.dom() == old(epochs)@.dom(),
    {
        let ghost before = epochs@;
        let numbers = epochs.keys_vec();
        let mut close_hash = BlockHash::zero();
        let mut frontiers: RaiFrontiers = SortedMap::new();
        proof {
            lemma_ascending(before.dom());
        }
        for i in 0..numbers.len()
            invariant
                numbers@ == ascending(before.dom()),
                forall|j: int| 0 <= j < numbers@.len() ==> before.contains_key(#[trigger] numbers@[j]),
                epochs@.dom() == before.dom(),
                all_keyed(epochs@),
                Chain::through(before, numbers@.take(i as int)) == (Chain {
                    epochs: epochs@,
                    close_hash,
                    frontiers: frontiers@,
                }),
        {
            proof {
                assert(numbers@.take(i + 1).drop_last() =~= numbers@.take(i as int));
            }
            let epoch = numbers[i];
            let ghost now = epochs@;
            let state = take_epoch(epochs, epoch);
            let state = rebuild_close_record_values(state, epoch, close_hash, &frontiers);
            if let Some(hash) = state.close_hash {
                close_hash = hash;
                if let Some(value) = state.close_record_values.get(&hash) {
                    frontiers = value.record.frontiers.duplicate();
                }
            }
            epochs.insert(epoch, state);
            proof {
                assert(before.contains_key(numbers@[i as int]));
                assert(epochs@.dom() =~= before.dom());
                assert(epochs@ =~= now.insert(epoch, state.deep_view()));
            }
        }
        proof {
            assert(numbers@.take(numbers@.len() as int) =~= numbers@);
        }
    }

    /// Rebuilds the epochs. `valid` says, for each report of each stored
    /// epoch, whether its signature is right.
    pub fn rebuild(
        &self,
        close_state: &RaiCloseStateSnapshot<RaiFrontierRecord>,
        valid: &Vec<Vec<bool>>,
        active_elections: Option<&RaiActiveElectionsSnapshot>,
    ) -> (r: RaiCloseState<RaiFrontierRecord>)
        requires
            active_elections matches Some(active) ==> forall|i: int|
                0 <= i < active.deep_view().len() ==> (#[trigger] active.deep_view()[i]).sums_fit(),
            forall|i: int|
                0 <= i < close_state.epochs@.len() && (#[trigger] close_state.epochs@[i]).epoch == u64::MAX
                    ==> close_state.epochs@[i].phase != RaiEpochPhase::Closed,
        ensures
            r@ == rebuilt(
                close_state.deep_view(),
                flags(valid@),
                match active_elections {
                    Some(active) => Some(active.deep_view()),
                    None => None,
                },
                self.provider(),
            ),
    {
        let mut epochs: EpochStates = SortedMap::new();
        let ghost stored = close_state.epochs.deep_view();
        let ghost elections: Option<Seq<StoredElection>> = match active_elections {
            Some(active) => Some(active.deep_view()),
            None => None,
        };
        for i in 0..close_state.epochs.len()
            invariant
                stored == close_state.epochs.deep_view(),
                all_keyed(epochs@),
                epochs@ == believed_epochs(stored.take(i as int), flags(valid@)),
        {
            proof {
                assert(stored.take(i + 1).drop_last() =~= stored.take(i as int));
                assert(stored[i as int] == close_state.epochs@[i as int].deep_view());
            }
            let none: Vec<bool> = Vec::new();
            let state = if i < valid.len() {
                read_epoch(&close_state.epochs[i], &valid[i])
            } else {
                read_epoch(&close_state.epochs[i], &none)
            };
            proof {
                assert(none@ =~= Seq::<bool>::empty());
                let checked = if i < valid@.len() {
                    flags(valid@)[i as int]
                } else {
                    Seq::empty()
                };
                lemma_valid_reports_keyed(stored[i as int].pending_reports, checked, stored[i as int].epoch);
            }
            epochs.insert(close_state.epochs[i].epoch, state);
        }
        proof {
            assert(stored.take(stored.len() as int) =~= stored);
        }
        let ghost read = epochs@;
        let state = take_epoch(&mut epochs, close_state.current_epoch);
        epochs.insert(close_state.current_epoch, state);
        proof {
            assert(epochs@ =~= read.insert(close_state.current_epoch, epoch_in(read, close_state.current_epoch)));
        }
        self.apply_to_all(&Stage::Reports, &mut epochs);
        if let Some(active) = active_elections {
            self.rebuild_from_active_elections(&mut epochs, &active.elections);
        }
        self.apply_to_all(&Stage::CloseValues, &mut epochs);
        self.rebuild_outcomes(&mut epochs, active_elections);
        proof {
            assert(epochs@ == before_records(close_state.deep_view(), flags(valid@), elections, self.provider()));
        }
        self.rebuild_records(&mut epochs);
        self.apply_to_all(&Stage::Progress, &mut epochs);
        let ghost done = epochs@;
        let mut current = close_state.current_epoch;
        while current < u64::MAX && is_closed(&epochs, current)
            invariant
                epochs@ == done,
                first_not_closed(done, close_state.current_epoch) == first_not_closed(done, current),
            decreases u64::MAX - current,
        {
            current = current + 1;
        }
        RaiCloseState::from_epochs(current, epochs)
    }

    /// Rebuilds the epochs, as they are stored.
    pub fn rebuild_snapshot(
        &self,
        close_state: &RaiCloseStateSnapshot<RaiFrontierRecord>,
        valid: &Vec<Vec<bool>>,
        active_elections: Option<&RaiActiveElectionsSnapshot>,
    ) -> (r: RaiCloseStateSnapshot<RaiFrontierRecord>)
        requires
            active_elections matches Some(active) ==> forall|i: int|
                0 <= i < active.deep_view().len() ==> (#[trigger] active.deep_view()[i]).sums_fit(),
            forall|i: int|
                0 <= i < close_state.epochs@.len() && (#[trigger] close_state.epochs@[i]).epoch == u64::MAX
                    ==> close_state.epochs@[i].phase != RaiEpochPhase::Closed,
        ensures
            r.deep_view() == rebuilt(
                close_state.deep_view(),
                flags(valid@),
                match active_elections {
                    Some(active) => Some(active.deep_view()),
                    None => None,
                },
                self.provider(),
            ).stored(),
    {
        self.rebuild(close_state, valid, active_elections).snapshot()
    }
}

/// The flags as sequences.
pub open spec fn flags(valid: Seq<Vec<bool>>) -> Seq<Seq<bool>> {
    Seq::new(valid.len(), |i: int| valid[i]@)
}

/// Every kept cut of every epoch stands under its own hash.
pub open spec fn all_canonical(epochs: FrontierEpochs) -> bool {
    forall|epoch: RaiEpoch| #[trigger] epochs.contains_key(epoch) ==> epochs[epoch].visibility.is_canonical()
}

/// Only slots of the cut are closed.
pub open spec fn closed_within_cut(e: FrontierEpoch) -> bool {
    forall|slot: RaiSlot| #[trigger]
        e.closed_slots.contains_key(slot) ==> e.cut is Some && e.cut->0.contains(slot)
}

/// The record of a certified close is kept.
pub open spec fn certified_is_kept(e: FrontierEpoch) -> bool {
    e.close_hash is Some ==> e.records.contains_key(e.close_hash->0)
}

proof fn lemma_true_values(stored: Seq<StoredCloseValue>)
    ensures
        names_sets(true_close_values(stored)),
    decreases stored.len(),
{
    if stored.len() > 0 {
        lemma_true_values(stored.drop_last());
    }
}

proof fn lemma_believed_canonical(stored: Seq<StoredEpoch<FrontierRecord>>, valid: Seq<Seq<bool>>)
    ensures
        all_canonical(believed_epochs(stored, valid)),
    decreases stored.len(),
{
    if stored.len() > 0 {
        lemma_believed_canonical(stored.drop_last(), valid);
        lemma_true_values(stored.last().close_values);
    }
}

proof fn lemma_elections_canonical<P: RaiCommitteeProvider>(
    epochs: FrontierEpochs,
    elections: Seq<StoredElection>,
    provider: &P,
)
    requires
        all_canonical(epochs),
    ensures
        all_canonical(with_elections(epochs, elections, provider)),
    decreases elections.len(),
{
    if elections.len() > 0 {
        lemma_elections_canonical(epochs, elections.drop_last(), provider);
        let before = with_elections(epochs, elections.drop_last(), provider);
        let after = with_elections(epochs, elections, provider);
        let e = epoch_in(before, elections.last().id.epoch_of());
        assert(e.visibility.is_canonical());
        assert forall|epoch: RaiEpoch| #[trigger] after.contains_key(epoch) implies after[epoch].visibility.is_canonical() by {
            if after[epoch].visibility.close_values != e.visibility.close_values {
                assert(before.contains_key(epoch));
                assert(before[epoch].visibility.is_canonical());
            }
        }
    }
}

proof fn lemma_decisions_canonical(epochs: FrontierEpochs, decisions: Seq<CutDecision>)
    requires
        all_canonical(epochs),
    ensures
        all_canonical(with_decisions(epochs, decisions)),
    decreases decisions.len(),
{
    if decisions.len() > 0 {
        lemma_decisions_canonical(epochs, decisions.drop_last());
        let before = with_decisions(epochs, decisions.drop_last());
        let after = with_decisions(epochs, decisions);
        assert forall|epoch: RaiEpoch| #[trigger] after.contains_key(epoch) implies after[epoch].visibility.is_canonical() by {
            assert(before.contains_key(epoch));
            assert(before[epoch].visibility.is_canonical());
        }
    }
}

proof fn lemma_stage_canonical<P: RaiCommitteeProvider>(stage: StageModel, provider: &P, epochs: FrontierEpochs)
    requires
        all_canonical(epochs),
    ensures
        all_canonical(all_staged(stage, provider, epochs)),
{
    let after = all_staged(stage, provider, epochs);
    assert forall|epoch: RaiEpoch| #[trigger] after.contains_key(epoch) implies after[epoch].visibility.is_canonical() by {
        let v = epochs[epoch].visibility;
        assert(epochs.contains_key(epoch));
        assert(v.is_canonical());
        assert(after[epoch] == after_stage(stage, provider, epoch, epochs[epoch]));
        let w = after[epoch].visibility;
        assert forall|hash: BlockHash| #[trigger] w.close_values.contains_key(hash) implies visible_hash(
            w.close_values[hash],
        ) == hash by {
            if v.close_values.contains_key(hash) {
                assert(visible_hash(v.close_values[hash]) == hash);
            }
        }
        assert(names_sets(w.close_values));
    }
}

proof fn lemma_chain(epochs: FrontierEpochs, numbers: Seq<RaiEpoch>)
    requires
        forall|i: int| 0 <= i < numbers.len() ==> epochs.contains_key(#[trigger] numbers[i]),
    ensures
        ({
            let after = Chain::through(epochs, numbers).epochs;
            &&& after.dom() == epochs.dom()
            &&& forall|epoch: RaiEpoch| #[trigger]
                after.contains_key(epoch) ==> after[epoch].visibility == epochs[epoch].visibility
                    && after[epoch].cut == epochs[epoch].cut && after[epoch].closed_slots == epochs[epoch].closed_slots
                    && after[epoch].phase == epochs[epoch].phase
            &&& forall|i: int| 0 <= i < numbers.len() ==> certified_is_kept(after[#[trigger] numbers[i]])
        }),
    decreases numbers.len(),
{
    if numbers.len() > 0 {
        let n = numbers.len() - 1;
        let front = numbers.drop_last();
        assert forall|i: int| 0 <= i < front.len() implies epochs.contains_key(#[trigger] front[i]) by {
            assert(numbers[i] == front[i]);
        }
        lemma_chain(epochs, front);
        let before = Chain::through(epochs, front);
        let after = Chain::through(epochs, numbers).epochs;
        assert(epochs.contains_key(numbers[n]));
        assert(after.dom() =~= epochs.dom());
        assert forall|epoch: RaiEpoch| #[trigger] after.contains_key(epoch) implies after[epoch].visibility
            == epochs[epoch].visibility && after[epoch].cut == epochs[epoch].cut && after[epoch].closed_slots
            == epochs[epoch].closed_slots && after[epoch].phase == epochs[epoch].phase by {
            assert(before.epochs.contains_key(epoch));
        }
        assert forall|i: int| 0 <= i < numbers.len() implies certified_is_kept(after[#[trigger] numbers[i]]) by {
            if i < n && numbers[i] != numbers[n] {
                assert(front[i] == numbers[i]);
                assert(certified_is_kept(before.epochs[front[i]]));
            }
        }
    } else {
        assert(Chain::through(epochs, numbers).epochs == epochs);
    }
}

proof fn lemma_outcomes<P: RaiCommitteeProvider>(
    epochs: FrontierEpochs,
    elections: Option<Seq<StoredElection>>,
    provider: &P,
)
    requires
        all_canonical(epochs),
    ensures
        all_canonical(with_outcomes(epochs, elections, provider)),
        forall|epoch: RaiEpoch| #[trigger]
            with_outcomes(epochs, elections, provider).contains_key(epoch) ==> closed_within_cut(
                with_outcomes(epochs, elections, provider)[epoch],
            ),
{
    let decided = match elections {
        Some(elections) => with_decisions(epochs, ascending(cut_decisions(elections, provider))),
        None => epochs,
    };
    let found = match elections {
        Some(elections) => slots_closed(elections, provider),
        None => Map::empty(),
    };
    if elections is Some {
        lemma_decisions_canonical(epochs, ascending(cut_decisions(elections->0, provider)));
    }
    lemma_stage_canonical(StageModel::ClosedSlots(found), provider, decided);
    let after = with_outcomes(epochs, elections, provider);
    assert(after == all_staged(StageModel::ClosedSlots(found), provider, decided));
    assert forall|epoch: RaiEpoch| #[trigger] after.contains_key(epoch) implies closed_within_cut(after[epoch]) by {
        assert(decided.contains_key(epoch));
        assert(after[epoch] == with_closed_slots(decided[epoch], found, epoch));
    }
}

proof fn lemma_before_records<P: RaiCommitteeProvider>(
    stored: StoredState<FrontierRecord>,
    valid: Seq<Seq<bool>>,
    elections: Option<Seq<StoredElection>>,
    provider: &P,
)
    ensures
        all_canonical(before_records(stored, valid, elections, provider)),
        forall|epoch: RaiEpoch| #[trigger]
            before_records(stored, valid, elections, provider).contains_key(epoch) ==> closed_within_cut(
                before_records(stored, valid, elections, provider)[epoch],
            ),
{
    let read = believed_epochs(stored.epochs, valid);
    lemma_believed_canonical(stored.epochs, valid);
    let known = read.insert(stored.current, epoch_in(read, stored.current));
    assert(all_canonical(known)) by {
        assert(epoch_in(read, stored.current).visibility.is_canonical());
    }
    let reported = all_staged(StageModel::Reports, provider, known);
    lemma_stage_canonical(StageModel::Reports, provider, known);
    let voted = match elections {
        Some(elections) => with_elections(reported, elections, provider),
        None => reported,
    };
    if elections is Some {
        lemma_elections_canonical(reported, elections->0, provider);
    }
    lemma_stage_canonical(StageModel::CloseValues, provider, voted);
    lemma_outcomes(all_staged(StageModel::CloseValues, provider, voted), elections, provider);
}

proof fn lemma_believed_finite(stored: Seq<StoredEpoch<FrontierRecord>>, valid: Seq<Seq<bool>>)
    ensures
        believed_epochs(stored, valid).dom().finite(),
    decreases stored.len(),
{
    if stored.len() > 0 {
        lemma_believed_finite(stored.drop_last(), valid);
    }
}

proof fn lemma_elections_finite<P: RaiCommitteeProvider>(
    epochs: FrontierEpochs,
    elections: Seq<StoredElection>,
    provider: &P,
)
    requires
        epochs.dom().finite(),
    ensures
        with_elections(epochs, elections, provider).dom().finite(),
    decreases elections.len(),
{
    if elections.len() > 0 {
        lemma_elections_finite(epochs, elections.drop_last(), provider);
    }
}

proof fn lemma_decisions_finite(epochs: FrontierEpochs, decisions: Seq<CutDecision>)
    requires
        epochs.dom().finite(),
    ensures
        with_decisions(epochs, decisions).dom().finite(),
    decreases decisions.len(),
{
    if decisions.len() > 0 {
        lemma_decisions_finite(epochs, decisions.drop_last());
    }
}

proof fn lemma_stage_finite<P: RaiCommitteeProvider>(stage: StageModel, provider: &P, epochs: FrontierEpochs)
    requires
        epochs.dom().finite(),
    ensures
        all_staged(stage, provider, epochs).dom().finite(),
{
    assert(all_staged(stage, provider, epochs).dom() =~= epochs.dom());
}

proof fn lemma_finite<P: RaiCommitteeProvider>(
    stored: StoredState<FrontierRecord>,
    valid: Seq<Seq<bool>>,
    elections: Option<Seq<StoredElection>>,
    provider: &P,
)
    ensures
        before_records(stored, valid, elections, provider).dom().finite(),
{
    let read = believed_epochs(stored.epochs, valid);
    lemma_believed_finite(stored.epochs, valid);
    let known = read.insert(stored.current, epoch_in(read, stored.current));
    let reported = all_staged(StageModel::Reports, provider, known);
    lemma_stage_finite(StageModel::Reports, provider, known);
    let voted = match elections {
        Some(elections) => with_elections(reported, elections, provider),
        None => reported,
    };
    if elections is Some {
        lemma_elections_finite(reported, elections->0, provider);
    }
    let valued = all_staged(StageModel::CloseValues, provider, voted);
    lemma_stage_finite(StageModel::CloseValues, provider, voted);
    match elections {
        Some(elections) => {
            let decided = with_decisions(valued, ascending(cut_decisions(elections, provider)));
            lemma_decisions_finite(valued, ascending(cut_decisions(elections, provider)));
            lemma_stage_finite(StageModel::ClosedSlots(slots_closed(elections, provider)), provider, decided);
        },
        None => {
            lemma_stage_finite(StageModel::ClosedSlots(Map::empty()), provider, valued);
        },
    }
}

/// Whatever was stored, a rebuilt epoch is consistent: its kept cuts stand
/// under their own hashes, only slots of its cut are closed, and the record of
/// a certified close is kept.
pub proof fn rebuilt_epochs_are_consistent<P: RaiCommitteeProvider>(
    stored: StoredState<FrontierRecord>,
    valid: Seq<Seq<bool>>,
    elections: Option<Seq<StoredElection>>,
    provider: &P,
    epoch: RaiEpoch,
)
    ensures
        ({
            let e = rebuilt(stored, valid, elections, provider).epoch(epoch);
            e.visibility.is_canonical() && closed_within_cut(e) && certified_is_kept(e)
        }),
{
    let epochs = before_records(stored, valid, elections, provider);
    lemma_before_records(stored, valid, elections, provider);
    lemma_finite(stored, valid, elections, provider);
    let numbers = ascending(epochs.dom());
    lemma_ascending(epochs.dom());
    let chained = Chain::through(epochs, numbers).epochs;
    lemma_chain(epochs, numbers);
    let done = all_staged(StageModel::Progress, provider, chained);
    let state = rebuilt(stored, valid, elections, provider);
    if done.contains_key(epoch) {
        assert(chained.contains_key(epoch));
        assert(epochs.contains_key(epoch));
        assert(numbers.contains(epoch));
        let i = choose|i: int| 0 <= i < numbers.len() && numbers[i] == epoch;
        assert(certified_is_kept(chained[numbers[i]]));
        assert(epochs[epoch].visibility.is_canonical());
        assert(closed_within_cut(epochs[epoch]));
        assert(closed_within_cut(done[epoch]));
        assert(done[epoch].visibility == epochs[epoch].visibility);
        assert(state.epoch(epoch) == done[epoch]);
    } else {
        assert(state.epoch(epoch) == CloseEpoch::<FrontierRecord>::open());
    }
}

/// Rebuilding goes on from the first epoch, not before the stored one, that is not closed.
pub proof fn current_epoch_is_the_first_not_closed(epochs: FrontierEpochs, current: RaiEpoch, epoch: RaiEpoch)
    ensures
        ({
            let found = first_not_closed(epochs, current);
            &&& current <= found
            &&& current <= epoch < found ==> epochs.contains_key(epoch) && epochs[epoch].phase == RaiEpochPhase::Closed
            &&& found < u64::MAX ==> !epochs.contains_key(found) || epochs[found].phase != RaiEpochPhase::Closed
        }),
    decreases u64::MAX - current,
{
    if current < u64::MAX && epochs.contains_key(current) && epochs[current].phase == RaiEpochPhase::Closed {
        current_epoch_is_the_first_not_closed(epochs, (current + 1) as u64, epoch);
    }
}

/// Of the attempts that were started, those are done with that were processed or that a
/// later one followed; no attempt is done with that was never started.
pub proof fn earlier_attempts_are_done_with(e: FrontierEpoch, attempt: RaiCloseAttempt)
    ensures
        with_progress(e).processed_cuts.contains(attempt) <==> e.started_cuts.contains(attempt) && (e.processed_cuts.contains(
            attempt,
        ) || exists|later: RaiCloseAttempt| attempt < later && #[trigger] e.started_cuts.contains(later)),
        with_progress(e).processed_records.contains(attempt) <==> e.started_records.contains(attempt) && (
        e.processed_records.contains(attempt) || exists|later: RaiCloseAttempt|
            attempt < later && #[trigger] e.started_records.contains(later)),
        e.cut is Some && e.phase == RaiEpochPhase::Open ==> with_progress(e).phase == RaiEpochPhase::Closing,
        e.cut is None || e.phase != RaiEpochPhase::Open ==> with_progress(e).phase == e.phase,
{
}

/// Of a reporter's stored reports the first counts that is about the epoch and proved
/// authentic; others do not.
pub proof fn first_authentic_report_counts(
    stored: Seq<PendingReport>,
    valid: Seq<bool>,
    epoch: RaiEpoch,
    reporter: PublicKey,
)
    ensures
        ({
            let found = valid_reports(stored, valid, epoch);
            &&& found.contains_key(reporter) ==> exists|i: int| #[trigger]
                counts(stored, valid, epoch, reporter, i) && found[reporter] == stored[i] && forall|j: int|
                    0 <= j < i ==> !#[trigger] counts(stored, valid, epoch, reporter, j)
            &&& !found.contains_key(reporter) ==> forall|i: int| !#[trigger] counts(stored, valid, epoch, reporter, i)
        }),
    decreases stored.len(),
{
    if stored.len() > 0 {
        let front = stored.drop_last();
        let n = stored.len() - 1;
        first_authentic_report_counts(front, valid, epoch, reporter);
        assert forall|i: int| i < n implies #[trigger] counts(stored, valid, epoch, reporter, i) == counts(
            front,
            valid,
            epoch,
            reporter,
            i,
        ) by {
        }
        let earlier = valid_reports(front, valid, epoch);
        if earlier.contains_key(reporter) {
            let i = choose|i: int| #[trigger]
                counts(front, valid, epoch, reporter, i) && earlier[reporter] == front[i] && forall|j: int|
                    0 <= j < i ==> !#[trigger] counts(front, valid, epoch, reporter, j);
            assert(counts(stored, valid, epoch, reporter, i));
            assert forall|j: int| 0 <= j < i implies !#[trigger] counts(stored, valid, epoch, reporter, j) by {
                assert(!counts(front, valid, epoch, reporter, j));
            }
        } else {
            assert forall|j: int| 0 <= j < n implies !#[trigger] counts(stored, valid, epoch, reporter, j) by {
                assert(!counts(front, valid, epoch, reporter, j));
            }
            if valid_reports(stored, valid, epoch).contains_key(reporter) {
                assert(counts(stored, valid, epoch, reporter, n));
            } else {
                assert(!counts(stored, valid, epoch, reporter, n));
            }
        }
    }
}

/// The report at this place is the reporter's, about the epoch, and authentic.
pub open spec fn counts(
    stored: Seq<PendingReport>,
    valid: Seq<bool>,
    epoch: RaiEpoch,
    reporter: PublicKey,
    i: int,
) -> bool {
    0 <= i < stored.len() && stored[i].reporter == reporter && stored[i].epoch == epoch && 0 <= i < valid.len() && valid[i]
}

/// What is read back keeps a set of slots or a record only under its own hash.
pub proof fn only_true_hashes_are_believed(
    values: Seq<StoredCloseValue>,
    records: Seq<StoredPackage<FrontierRecord>>,
    hash: BlockHash,
)
    ensures
        true_close_values(values).contains_key(hash) ==> visible_hash(true_close_values(values)[hash]) == hash && exists|i: int|
            0 <= i < values.len() && (#[trigger] values[i]).hash == hash && values[i].slots.to_set() == true_close_values(
                values,
            )[hash],
        (exists|i: int|
            0 <= i < values.len() && (#[trigger] values[i]).hash == hash && visible_hash(values[i].slots.to_set()) == hash)
            ==> true_close_values(values).contains_key(hash),
        true_records(records).contains_key(hash) ==> RaiFrontierRecord::digest(true_records(records)[hash].record) == hash,
        (exists|i: int|
            0 <= i < records.len() && (#[trigger] records[i]).hash == hash && RaiFrontierRecord::digest(records[i].record)
                == hash) ==> true_records(records).contains_key(hash),
    decreases values.len() + records.len(),
{
    if values.len() > 0 {
        let front = values.drop_last();
        only_true_hashes_are_believed(front, Seq::empty(), hash);
        assert forall|i: int| 0 <= i < front.len() implies #[trigger] front[i] == values[i] by {
        }
        if true_close_values(values).contains_key(hash) {
            if values.last().hash == hash && visible_hash(values.last().slots.to_set()) == hash {
                assert(values[values.len() - 1] == values.last());
            } else {
                let i = choose|i: int|
                    0 <= i < front.len() && (#[trigger] front[i]).hash == hash && front[i].slots.to_set()
                        == true_close_values(front)[hash];
                assert(values[i] == front[i]);
            }
        }
        if exists|i: int|
            0 <= i < values.len() && (#[trigger] values[i]).hash == hash && visible_hash(values[i].slots.to_set()) == hash {
            let i = choose|i: int|
                0 <= i < values.len() && (#[trigger] values[i]).hash == hash && visible_hash(values[i].slots.to_set()) == hash;
            if i < front.len() {
                assert(front[i] == values[i]);
            }
        }
    }
    if records.len() > 0 {
        let front = records.drop_last();
        only_true_hashes_are_believed(Seq::empty(), front, hash);
        if exists|i: int|
            0 <= i < records.len() && (#[trigger] records[i]).hash == hash && RaiFrontierRecord::digest(records[i].record)
                == hash {
            let i = choose|i: int|
                0 <= i < records.len() && (#[trigger] records[i]).hash == hash && RaiFrontierRecord::digest(
                    records[i].record,
                ) == hash;
            if i < front.len() {
                assert(front[i] == records[i]);
            }
        }
    }
}

/// A slot is visible by stored votes exactly if in some committee at least one member more
/// than may be faulty has a seat that voted.
pub proof fn stored_votes_show_slots(seats: Seq<StoredSeat>, committees: Seq<Membership>)
    requires
        forall|i: int| 0 <= i < committees.len() ==> (#[trigger] committees[i]).members.len() > 0,
    ensures
        visible_by_votes(seats, committees) <==> exists|i: int|
            0 <= i < committees.len() && (#[trigger] seated_voters(seats, committees[i])).len()
                >= committees[i].thresholds.max_faulty + 1,
{
    assert forall|i: int| 0 <= i < committees.len() implies #[trigger] seated_voters(seats, committees[i]) == voters_among(
        seats,
        committees[i],
    ) by {
        assert(seated_voters(seats, committees[i]) =~= voters_among(seats, committees[i]));
    }
    if visible_by_votes(seats, committees) {
        let i = choose|i: int|
            0 <= i < committees.len() && (#[trigger] committees[i]).reaches(
                voters_among(seats, committees[i]).len() as int,
                committees[i].thresholds.max_faulty + 1,
            );
        assert(seated_voters(seats, committees[i]).len() >= committees[i].thresholds.max_faulty + 1);
    }
    if exists|i: int|
        0 <= i < committees.len() && (#[trigger] seated_voters(seats, committees[i])).len()
            >= committees[i].thresholds.max_faulty + 1 {
        let i = choose|i: int|
            0 <= i < committees.len() && (#[trigger] seated_voters(seats, committees[i])).len()
                >= committees[i].thresholds.max_faulty + 1;
        assert(committees[i].reaches(
            voters_among(seats, committees[i]).len() as int,
            committees[i].thresholds.max_faulty + 1,
        ));
    }
}

/// The members of a committee that have a seat among these.
pub open spec fn seated_voters(seats: Seq<StoredSeat>, m: Membership) -> Set<PublicKey> {
    Set::new(
        |voter: PublicKey|
            (exists|i: int| 0 <= i < seats.len() && (#[trigger] seats[i]).voter == voter) && exists|j: int|
                0 <= j < m.members.len() && (#[trigger] m.members[j]).account == voter,
    )
}

/// The closed slots of an epoch are those of its cut for which an election or the stored
/// state says how they closed; the election is believed first.
pub proof fn elections_close_slots_of_the_cut(
    e: FrontierEpoch,
    found: Map<EpochSlot, RaiClosedSlotState>,
    epoch: RaiEpoch,
    slot: RaiSlot,
)
    ensures
        ({
            let after = with_closed_slots(e, found, epoch).closed_slots;
            let at = EpochSlot { epoch, slot };
            &&& after.contains_key(slot) <==> e.cut is Some && e.cut->0.contains(slot) && (found.contains_key(at)
                || e.closed_slots.contains_key(slot))
            &&& after.contains_key(slot) && found.contains_key(at) ==> after[slot] == found[at]
            &&& after.contains_key(slot) && !found.contains_key(at) ==> after[slot] == e.closed_slots[slot]
        }),
{
}

/// A decided cut whose slots are known is fixed, unless one is fixed already, and the
/// epoch then closes.
pub proof fn decided_cut_is_restored(epochs: FrontierEpochs, decision: CutDecision, other: RaiEpoch)
    requires
        epochs.contains_key(decision.epoch),
        epochs[decision.epoch].visibility.close_values.contains_key(decision.hash),
        other != decision.epoch,
    ensures
        ({
            let before = epochs[decision.epoch];
            let after = with_decision(epochs, decision);
            &&& after.contains_key(decision.epoch)
            &&& before.cut is None ==> after[decision.epoch].cut == Some(before.visibility.close_values[decision.hash])
            &&& before.cut is Some ==> after[decision.epoch].cut == before.cut
            &&& after[decision.epoch].phase != RaiEpochPhase::Open
            &&& before.phase != RaiEpochPhase::Open ==> after[decision.epoch].phase == before.phase
            &&& after[decision.epoch].processed_cuts.contains(decision.attempt)
            &&& epochs.contains_key(other) ==> after.contains_key(other) && after[other] == epochs[other]
        }),
{
}

/// The sets of slots that a rebuilt epoch knows: the cut and what was visible are visible,
/// stored sets are kept that hold nothing else, the cut is among them, and so is all that is
/// visible once an attempt was made or any set is known.
pub proof fn rebuilt_sets_are_visible(e: FrontierEpoch, hash: BlockHash, slot: RaiSlot)
    ensures
        ({
            let after = with_close_values(e).visibility;
            let kept = e.visibility.close_values.contains_key(hash) && e.visibility.close_values[hash].subset_of(after.visible);
            &&& after.visible.contains(slot) <==> e.visibility.visible.contains(slot) || (e.cut is Some && e.cut->0.contains(slot))
            &&& kept ==> after.close_values.contains_key(hash) && after.close_values[hash] == e.visibility.close_values[hash]
            &&& e.cut matches Some(cut) ==> after.close_values.contains_key(visible_hash(cut))
            &&& kept || e.cut is Some || e.started_cuts.contains(0) ==> after.close_values.contains_key(visible_hash(after.visible))
            &&& after.close_values.contains_key(hash) && !kept ==> hash == visible_hash(after.visible) || (e.cut is Some && hash
                == visible_hash(e.cut->0))
        }),
{
    if e.started_cuts.contains(0) {
        assert(e.started_cuts != Set::<RaiCloseAttempt>::empty());
    }
}

/// A stored record is kept exactly if it has its hash, closes this epoch after the close
/// before with the states of this epoch's cut, and its frontiers follow from those before: in
/// the first epoch they may hold more.
pub proof fn stored_records_must_follow(
    e: FrontierEpoch,
    epoch: RaiEpoch,
    previous_close_hash: BlockHash,
    frontiers: Map<Account, BlockHash>,
    hash: BlockHash,
)
    requires
        e.entries_error() is None,
        e.records.contains_key(hash),
    ensures
        ({
            let after = with_records(e, epoch, previous_close_hash, frontiers);
            let stored = e.records[hash];
            let due = closed_frontiers(frontiers, e.entries());
            let follows = {
                &&& RaiFrontierRecord::digest(stored.record) == hash
                &&& stored.record.epoch == epoch
                &&& stored.record.previous_close_hash == previous_close_hash
                &&& stored.entries == e.entries()
                &&& epoch > 0 ==> stored.record.frontiers == due
                &&& epoch == 0 ==> forall|account: Account| #[trigger]
                    due.contains_key(account) ==> stored.record.frontiers.contains_key(account)
                        && stored.record.frontiers[account] == due[account]
            };
            &&& follows ==> after.records.contains_key(hash) && after.records[hash] == stored
            &&& follows && e.close_hash == Some(hash) ==> after.close_hash == Some(hash)
            &&& after.close_hash is Some ==> after.close_hash == e.close_hash && after.records.contains_key(after.close_hash->0)
        }),
{
    let stored = e.records[hash];
    let due = closed_frontiers(frontiers, e.entries());
    let record = FrontierRecord { epoch, previous_close_hash, frontiers: due };
    if forall|account: Account| #[trigger]
        due.contains_key(account) ==> stored.record.frontiers.contains_key(account) && stored.record.frontiers[account]
            == due[account] {
        assert(due.submap_of(stored.record.frontiers));
    }
    if follows(epoch, hash, stored, record, e.entries()) {
        let kept = e.records.restrict(
            e.records.dom().filter(|h: BlockHash| follows(epoch, h, e.records[h], record, e.entries())),
        );
        assert(kept.contains_key(hash));
        assert(kept != Map::<BlockHash, Package<FrontierRecord>>::empty());
    }
}

}
