//! The life of an epoch: open, closing, closed.
use std::sync::Arc;

use vstd::prelude::*;

use crate::close_record::{
    collected, names_records, CloseRecord, RaiCloseRecord, RaiCloseRecordStore, RaiFrontierMap,
};
use crate::close_round::{
    backed_by, stands_behind, CloseRound, CloseRounds, RaiCloseKind, RaiCloseRoundAction, RaiCloseRoundResult,
    RaiCloseRoundTracker,
};
use crate::election_id::{election_root, rai_close_cut_root, rai_close_record_root};
use crate::election_vote_state::{
    all_for, weight_for, BlockHashOrTimeout, Committee, ElectionVotes, RaiElectionVoteState, RaiLocalResult,
};
use crate::ordered::{
    ascending, is_ascending, lemma_ascending, lemma_take_distinct, lemma_take_set, Duplicate, Key, Pair, SortedMap,
    SortedSet,
};
use crate::rep_weights::{tally, total_weight, RepWeights};
use crate::report::{
    reports_outweigh_the_faulty, CloseCut, CloseCutDecisionError, RaiCloseCut, RaiCloseCutStore, RaiReportStore, Reports,
};
use crate::types::{
    Account, Amount, BlockHash, ConfirmationHeightInfo, PublicKey, QualifiedRoot, RaiEpoch, RaiSlotId, Root, Timestamp,
};

verus! {

#[derive(Clone, Copy, Debug, PartialEq, Eq, Structural)]
pub enum RaiClosingPhase {
    CollectingReports,
    ElectingCut,
    Draining,
    ElectingRecord,
}

impl Default for RaiClosingPhase {
    fn default() -> (r: Self)
        ensures
            r == RaiClosingPhase::CollectingReports,
    {
        RaiClosingPhase::CollectingReports
    }
}

impl DeepView for RaiClosingPhase {
    type V = RaiClosingPhase;

    open spec fn deep_view(&self) -> RaiClosingPhase {
        *self
    }
}

impl Duplicate for RaiClosingPhase {
    fn duplicate(&self) -> (r: Self) {
        *self
    }

    fn agrees(&self, other: &Self) -> (r: bool) {
        *self == *other
    }
}

#[derive(Clone, Copy, Debug, PartialEq, Eq, Structural)]
pub struct RaiClosingEpoch {
    pub epoch: RaiEpoch,
    pub phase: RaiClosingPhase,
}

impl DeepView for RaiClosingEpoch {
    type V = RaiClosingEpoch;

    open spec fn deep_view(&self) -> RaiClosingEpoch {
        *self
    }
}

impl Duplicate for RaiClosingEpoch {
    fn duplicate(&self) -> (r: Self) {
        *self
    }

    fn agrees(&self, other: &Self) -> (r: bool) {
        *self == *other
    }
}

/// How an obligation of a cut was settled.
#[derive(Clone, Copy, Debug, PartialEq, Eq, Structural)]
pub enum RaiDrainOutcome {
    Finalized(BlockHash),
    Selected(BlockHash),
    ReleasedTimeout,
    ReleasedConflict,
}

impl DeepView for RaiDrainOutcome {
    type V = RaiDrainOutcome;

    open spec fn deep_view(&self) -> RaiDrainOutcome {
        *self
    }
}

impl Duplicate for RaiDrainOutcome {
    fn duplicate(&self) -> (r: Self) {
        *self
    }

    fn agrees(&self, other: &Self) -> (r: bool) {
        *self == *other
    }
}

/// The close that released a slot.
#[derive(Clone, Copy, Debug, PartialEq, Eq, Structural)]
pub struct RaiCertifiedRelease {
    pub close_epoch: RaiEpoch,
    pub close_record_hash: BlockHash,
}

impl DeepView for RaiCertifiedRelease {
    type V = RaiCertifiedRelease;

    open spec fn deep_view(&self) -> RaiCertifiedRelease {
        *self
    }
}

impl Duplicate for RaiCertifiedRelease {
    fn duplicate(&self) -> (r: Self) {
        *self
    }

    fn agrees(&self, other: &Self) -> (r: bool) {
        *self == *other
    }
}

/// Certificate-derived resolution of every election frozen into a close cut.
pub struct RaiHappyPathDrain {
    pub epoch: RaiEpoch,
    pub obligations: SortedSet<RaiSlotId>,
    pub finalized: SortedMap<RaiSlotId, BlockHash>,
    pub selected: SortedMap<RaiSlotId, BlockHash>,
    pub released: SortedMap<RaiSlotId, RaiDrainOutcome>,
}

/// The model of a drain.
#[verifier::ext_equal]
pub struct Drain {
    pub epoch: RaiEpoch,
    pub obligations: Set<RaiSlotId>,
    pub finalized: Map<RaiSlotId, BlockHash>,
    pub selected: Map<RaiSlotId, BlockHash>,
    pub released: Map<RaiSlotId, RaiDrainOutcome>,
}

impl DeepView for RaiHappyPathDrain {
    type V = Drain;

    open spec fn deep_view(&self) -> Drain {
        Drain {
            epoch: self.epoch,
            obligations: self.obligations@,
            finalized: self.finalized@,
            selected: self.selected@,
            released: self.released@,
        }
    }
}

impl Duplicate for RaiHappyPathDrain {
    fn duplicate(&self) -> (r: Self) {
        RaiHappyPathDrain {
            epoch: self.epoch,
            obligations: self.obligations.duplicate(),
            finalized: self.finalized.duplicate(),
            selected: self.selected.duplicate(),
            released: self.released.duplicate(),
        }
    }

    fn agrees(&self, other: &Self) -> (r: bool) {
        self.epoch == other.epoch && self.obligations.agrees(&other.obligations) && self.finalized.agrees(
            &other.finalized,
        ) && self.selected.agrees(&other.selected) && self.released.agrees(&other.released)
    }
}

/// What the results of some committees, taken in turn, agree on.
pub enum Agreement {
    /// All name this block, or there was none to ask.
    Block(Option<BlockHash>),
    /// One has no result yet.
    Open,
    /// One timed out or names another block than those before it.
    Conflict,
}

pub open spec fn agreement(committees: Seq<Committee>) -> Agreement
    decreases committees.len(),
{
    if committees.len() == 0 {
        Agreement::Block(None)
    } else {
        match agreement(committees.drop_last()) {
            Agreement::Block(earlier) => {
                let result = committees.last().result();
                if result is None {
                    Agreement::Open
                } else if result == Some(RaiLocalResult::Timeout) || (earlier is Some && backed_by(result) != earlier) {
                    Agreement::Conflict
                } else {
                    Agreement::Block(backed_by(result))
                }
            },
            other => other,
        }
    }
}

/// The committee's certificate for a block is a fast or a final one.
pub open spec fn is_strong(committee: Committee) -> bool {
    committee.result() matches Some(RaiLocalResult::Fast(_)) || committee.result() matches Some(RaiLocalResult::Final(_))
}

pub open spec fn has_timeout_certificate(committee: Committee) -> bool {
    committee.notarization_tally(BlockHashOrTimeout::Timeout) >= committee.thresholds.notarization.raw
}

/// The outcome that the votes of an election certify.
pub open spec fn certified_outcome(committees: Seq<Committee>) -> Option<RaiDrainOutcome> {
    if exists|i: int| 0 <= i < committees.len() && has_timeout_certificate(#[trigger] committees[i]) {
        Some(RaiDrainOutcome::ReleasedTimeout)
    } else {
        match agreement(committees) {
            Agreement::Block(Some(hash)) => if forall|i: int|
                0 <= i < committees.len() ==> is_strong(#[trigger] committees[i]) {
                Some(RaiDrainOutcome::Finalized(hash))
            } else {
                Some(RaiDrainOutcome::Selected(hash))
            },
            Agreement::Conflict => Some(RaiDrainOutcome::ReleasedConflict),
            _ => None,
        }
    }
}

impl Drain {
    /// A drain of these obligations, none of them settled.
    pub open spec fn of(epoch: RaiEpoch, obligations: Set<RaiSlotId>) -> Drain {
        Drain { epoch, obligations, finalized: Map::empty(), selected: Map::empty(), released: Map::empty() }
    }

    /// Every slot is settled in at most one way, and only obligations are.
    pub open spec fn well_formed(self) -> bool {
        &&& self.obligations.finite()
        &&& self.finalized.dom().subset_of(self.obligations)
        &&& self.selected.dom().subset_of(self.obligations)
        &&& self.released.dom().subset_of(self.obligations)
        &&& self.finalized.dom().disjoint(self.selected.dom())
        &&& self.finalized.dom().disjoint(self.released.dom())
        &&& self.selected.dom().disjoint(self.released.dom())
    }

    pub open spec fn is_settled(self, slot: RaiSlotId) -> bool {
        self.finalized.contains_key(slot) || self.selected.contains_key(slot) || self.released.contains_key(slot)
    }

    pub open spec fn is_complete(self) -> bool {
        self.finalized.len() + self.selected.len() + self.released.len() == self.obligations.len()
    }

    /// The outcome that was recorded for a slot.
    pub open spec fn recorded(self, slot: RaiSlotId) -> Option<RaiDrainOutcome> {
        if self.finalized.contains_key(slot) {
            Some(RaiDrainOutcome::Finalized(self.finalized[slot]))
        } else if self.selected.contains_key(slot) {
            Some(RaiDrainOutcome::Selected(self.selected[slot]))
        } else if self.released.contains_key(slot) {
            Some(self.released[slot])
        } else {
            None
        }
    }

    /// The outcome of a slot: the recorded one, else what the votes certify.
    pub open spec fn outcome(self, slot: RaiSlotId, evidence: ElectionVotes) -> Option<RaiDrainOutcome> {
        if !self.obligations.contains(slot) || evidence.committees.len() == 0 {
            None
        } else if self.is_settled(slot) {
            self.recorded(slot)
        } else {
            certified_outcome(evidence.committees)
        }
    }

    pub open spec fn with_outcome(self, slot: RaiSlotId, outcome: RaiDrainOutcome) -> Drain {
        match outcome {
            RaiDrainOutcome::Finalized(hash) => Drain { finalized: self.finalized.insert(slot, hash), ..self },
            RaiDrainOutcome::Selected(hash) => Drain { selected: self.selected.insert(slot, hash), ..self },
            _ => Drain { released: self.released.insert(slot, outcome), ..self },
        }
    }

    /// The drain after the evidence was taken into account.
    pub open spec fn with_evidence(self, slot: RaiSlotId, evidence: ElectionVotes) -> Drain {
        match self.outcome(slot, evidence) {
            Some(outcome) => if self.is_settled(slot) {
                self
            } else {
                self.with_outcome(slot, outcome)
            },
            None => self,
        }
    }

    /// Whether a notarized block may stand for the slot.
    pub open spec fn accepts_notarized(self, slot: RaiSlotId, hash: BlockHash) -> bool {
        &&& self.obligations.contains(slot)
        &&& !self.finalized.contains_key(slot)
        &&& !self.released.contains_key(slot)
        &&& self.selected.contains_key(slot) ==> self.selected[slot] == hash
    }

    pub open spec fn with_notarized(self, slot: RaiSlotId, hash: BlockHash) -> Drain {
        if self.accepts_notarized(slot, hash) {
            Drain { selected: self.selected.insert(slot, hash), ..self }
        } else {
            self
        }
    }

    /// A finalization that the ledger has made durable supersedes what votes said.
    pub open spec fn accepts_finalized(self, slot: RaiSlotId, hash: BlockHash) -> bool {
        &&& self.obligations.contains(slot)
        &&& self.finalized.contains_key(slot) ==> self.finalized[slot] == hash
    }

    pub open spec fn with_finalized(self, slot: RaiSlotId, hash: BlockHash) -> Drain {
        Drain {
            finalized: self.finalized.insert(slot, hash),
            selected: self.selected.remove(slot),
            released: self.released.remove(slot),
            ..self
        }
    }

    /// The drain once its close record is certified: what was selected is final.
    pub open spec fn certified(self) -> Drain {
        Drain {
            finalized: self.finalized.union_prefer_right(self.selected),
            selected: Map::empty(),
            ..self
        }
    }
}

impl RaiHappyPathDrain {
    /// Whether as many slots are settled as there are obligations.
    pub fn is_complete(&self) -> (r: bool)
        ensures
            r == self.deep_view().is_complete(),
    {
        let resolved: u128 = self.finalized.len() as u128 + self.selected.len() as u128 + self.released.len() as u128;
        resolved == self.obligations.len() as u128
    }

    /// Derives an obligation outcome from persistent certificate evidence
    /// without changing the drain.
    pub fn persistent_evidence_outcome(
        &self,
        slot: &RaiSlotId,
        evidence: &RaiElectionVoteState,
    ) -> (r: Option<RaiDrainOutcome>)
        ensures
            r == self.deep_view().outcome(*slot, evidence.deep_view()),
    {
        if !self.obligations.contains(slot) || evidence.committees.len() == 0 {
            return None;
        }
        if let Some(hash) = self.finalized.get(slot) {
            return Some(RaiDrainOutcome::Finalized(*hash));
        }
        if let Some(hash) = self.selected.get(slot) {
            return Some(RaiDrainOutcome::Selected(*hash));
        }
        if let Some(outcome) = self.released.get(slot) {
            return Some(*outcome);
        }
        evidence_outcome(evidence)
    }

    /// Resolves an obligation from persistent certificate evidence.
    pub fn record_persistent_evidence(
        &mut self,
        slot: &RaiSlotId,
        evidence: &RaiElectionVoteState,
    ) -> (r: Option<RaiDrainOutcome>)
        ensures
            r == old(self).deep_view().outcome(*slot, evidence.deep_view()),
            final(self).deep_view() == old(self).deep_view().with_evidence(*slot, evidence.deep_view()),
    {
        let outcome = match self.persistent_evidence_outcome(slot, evidence) {
            Some(outcome) => outcome,
            None => return None,
        };
        let settled = self.finalized.contains_key(slot) || self.selected.contains_key(slot)
            || self.released.contains_key(slot);
        if !settled {
            match outcome {
                RaiDrainOutcome::Finalized(hash) => {
                    self.finalized.insert(*slot, hash);
                },
                RaiDrainOutcome::Selected(hash) => {
                    self.selected.insert(*slot, hash);
                },
                RaiDrainOutcome::ReleasedTimeout => {
                    self.released.insert(*slot, outcome);
                },
                RaiDrainOutcome::ReleasedConflict => {
                    self.released.insert(*slot, outcome);
                },
            }
        }
        Some(outcome)
    }

    /// Restores a locally validated notarized outcome without retaining the
    /// quorum's individual votes. The outcome is provisional until the close
    /// record includes it.
    pub fn record_notarized(&mut self, slot: &RaiSlotId, hash: BlockHash) -> (r: Option<RaiDrainOutcome>)
        ensures
            r == if old(self).deep_view().accepts_notarized(*slot, hash) {
                Some(RaiDrainOutcome::Selected(hash))
            } else {
                None
            },
            final(self).deep_view() == old(self).deep_view().with_notarized(*slot, hash),
    {
        if !self.obligations.contains(slot) || self.finalized.contains_key(slot) || self.released.contains_key(slot) {
            return None;
        }
        let known = match self.selected.get(slot) {
            Some(existing) => Some(*existing == hash),
            None => None,
        };
        match known {
            None => {
                self.selected.insert(*slot, hash);
                Some(RaiDrainOutcome::Selected(hash))
            },
            Some(true) => {
                proof {
                    assert(self.selected@.insert(*slot, hash) =~= self.selected@);
                }
                Some(RaiDrainOutcome::Selected(hash))
            },
            Some(false) => None,
        }
    }
}

fn evidence_outcome(evidence: &RaiElectionVoteState) -> (r: Option<RaiDrainOutcome>)
    ensures
        r == certified_outcome(evidence.deep_view().committees),
{
    let n: usize = evidence.committees.len();
    let ghost committees = evidence.deep_view().committees;
    for i in 0..n
        invariant
            n == evidence.committees@.len(),
            committees == evidence.deep_view().committees,
            forall|j: int| 0 <= j < i ==> !has_timeout_certificate(#[trigger] committees[j]),
    {
        if evidence.has_timeout_certificate(i) {
            proof {
                assert(has_timeout_certificate(committees[i as int]));
            }
            return Some(RaiDrainOutcome::ReleasedTimeout);
        }
    }
    let mut certified: Option<BlockHash> = None;
    let mut strong = true;
    for i in 0..n
        invariant
            n == evidence.committees@.len(),
            committees == evidence.deep_view().committees,
            committees.len() == n,
            forall|j: int| 0 <= j < n ==> !has_timeout_certificate(#[trigger] committees[j]),
            agreement(committees.take(i as int)) == Agreement::Block(certified),
            strong == (forall|j: int| 0 <= j < i ==> is_strong(#[trigger] committees[j])),
    {
        let result = evidence.local_result(i);
        proof {
            assert(committees.take(i + 1).drop_last() =~= committees.take(i as int));
            assert(committees.take(i + 1).last() == committees[i as int]);
            assert(result == committees[i as int].result());
        }
        let hash = match result {
            Some(RaiLocalResult::Fast(hash)) => hash,
            Some(RaiLocalResult::Final(hash)) => hash,
            Some(RaiLocalResult::Notarized(hash)) => {
                strong = false;
                hash
            },
            Some(RaiLocalResult::Timeout) => {
                proof {
                    lemma_agreement_stops(committees, i + 1);
                }
                return Some(RaiDrainOutcome::ReleasedConflict);
            },
            None => {
                proof {
                    lemma_agreement_stops(committees, i + 1);
                }
                return None;
            },
        };
        if let Some(earlier) = certified {
            if earlier != hash {
                proof {
                    lemma_agreement_stops(committees, i + 1);
                }
                return Some(RaiDrainOutcome::ReleasedConflict);
            }
        }
        certified = Some(hash);
    }
    proof {
        assert(committees.take(n as int) =~= committees);
    }
    match certified {
        Some(hash) => if strong {
            Some(RaiDrainOutcome::Finalized(hash))
        } else {
            Some(RaiDrainOutcome::Selected(hash))
        },
        None => None,
    }
}

/// Once the committees disagree, further ones do not change that.
proof fn lemma_agreement_stops(committees: Seq<Committee>, n: int)
    requires
        0 <= n <= committees.len(),
        !(agreement(committees.take(n)) is Block),
    ensures
        agreement(committees) == agreement(committees.take(n)),
    decreases committees.len(),
{
    if n == committees.len() {
        assert(committees.take(n) =~= committees);
    } else {
        assert(committees.drop_last().take(n) =~= committees.take(n));
        lemma_agreement_stops(committees.drop_last(), n);
    }
}

/// A drain is complete exactly when every obligation is settled.
pub proof fn complete_drain_settles_everything(d: Drain)
    requires
        d.well_formed(),
    ensures
        d.is_complete() == (forall|slot: RaiSlotId| #[trigger] d.obligations.contains(slot) ==> d.is_settled(slot)),
{
    let f = d.finalized.dom();
    let s = d.selected.dom();
    let r = d.released.dom();
    let all = f.union(s).union(r);
    vstd::set_lib::lemma_set_subset_finite(d.obligations, f);
    vstd::set_lib::lemma_set_subset_finite(d.obligations, s);
    vstd::set_lib::lemma_set_subset_finite(d.obligations, r);
    vstd::set_lib::lemma_set_disjoint_lens(f, s);
    vstd::set_lib::lemma_set_disjoint_lens(f.union(s), r);
    assert(f + s =~= f.union(s));
    assert(f.union(s) + r =~= all);
    assert(all.len() == f.len() + s.len() + r.len());
    vstd::set_lib::lemma_len_subset(all, d.obligations);
    if d.is_complete() {
        vstd::set_lib::lemma_subset_equality(all, d.obligations);
        assert forall|slot: RaiSlotId| #[trigger] d.obligations.contains(slot) implies d.is_settled(slot) by {
            assert(all.contains(slot));
        }
    }
    if forall|slot: RaiSlotId| #[trigger] d.obligations.contains(slot) ==> d.is_settled(slot) {
        assert(all =~= d.obligations);
    }
}

/// Settling slots keeps the drain's maps mutually exclusive.
pub proof fn drain_stays_well_formed(d: Drain, slot: RaiSlotId, evidence: ElectionVotes, hash: BlockHash)
    requires
        d.well_formed(),
    ensures
        d.with_evidence(slot, evidence).well_formed(),
        d.with_notarized(slot, hash).well_formed(),
        d.accepts_finalized(slot, hash) ==> d.with_finalized(slot, hash).well_formed(),
        d.certified().well_formed(),
{
}

/// An outcome, once recorded, is what every later evidence yields.
pub proof fn recorded_outcome_stands(d: Drain, slot: RaiSlotId, a: ElectionVotes, b: ElectionVotes)
    requires
        d.well_formed(),
        d.outcome(slot, a) is Some,
        b.committees.len() > 0,
    ensures
        d.with_evidence(slot, a).outcome(slot, b) == d.outcome(slot, a),
        d.with_evidence(slot, a).with_evidence(slot, b) == d.with_evidence(slot, a),
{
}

/// Which epoch is open and which is closing.
#[derive(Clone, Copy, Debug, PartialEq, Eq, Structural)]
pub struct RaiEpochState {
    pub open_epoch: RaiEpoch,
    pub open_started_at: Timestamp,
    pub closing: Option<RaiClosingEpoch>,
    pub closed_through: Option<RaiEpoch>,
}

impl DeepView for RaiEpochState {
    type V = RaiEpochState;

    open spec fn deep_view(&self) -> RaiEpochState {
        *self
    }
}

impl Duplicate for RaiEpochState {
    fn duplicate(&self) -> (r: Self) {
        *self
    }

    fn agrees(&self, other: &Self) -> (r: bool) {
        *self == *other
    }
}

#[derive(Clone, Copy, Debug, PartialEq, Eq, Structural)]
pub enum CloseRecordDecisionError {
    WrongPhase,
    MissingPreimage,
    InvalidRecord,
    ImmutableDecision,
    LedgerCommitFailed,
}

impl CloseRecordDecisionError {
    pub fn message(&self) -> (r: &'static str)
        ensures
            r@ == match *self {
                CloseRecordDecisionError::WrongPhase => "epoch is not closing its record"@,
                CloseRecordDecisionError::MissingPreimage => "canonical close-record preimage is unavailable"@,
                CloseRecordDecisionError::InvalidRecord => "close record does not match confirmation heights"@,
                CloseRecordDecisionError::ImmutableDecision => "the epoch already has a different close record"@,
                CloseRecordDecisionError::LedgerCommitFailed => "close-record ledger finalization failed"@,
            },
    {
        match self {
            CloseRecordDecisionError::WrongPhase => "epoch is not closing its record",
            CloseRecordDecisionError::MissingPreimage => "canonical close-record preimage is unavailable",
            CloseRecordDecisionError::InvalidRecord => "close record does not match confirmation heights",
            CloseRecordDecisionError::ImmutableDecision => "the epoch already has a different close record",
            CloseRecordDecisionError::LedgerCommitFailed => "close-record ledger finalization failed",
        }
    }
}

/// Owns the immutable representative-weight views used by elections, and
/// everything that opens and closes epochs.
pub struct RaiEpochManager {
    pub state: RaiEpochState,
    pub genesis_governing_hash: BlockHash,
    pub genesis_committee: Arc<RepWeights>,
    pub committees: SortedMap<RaiEpoch, Arc<RepWeights>>,
    pub cut_hashes: SortedMap<RaiEpoch, BlockHash>,
    pub close_hashes: SortedMap<RaiEpoch, BlockHash>,
    pub reports: RaiReportStore<RaiSlotId>,
    pub close_cuts: RaiCloseCutStore<RaiSlotId>,
    pub close_records: RaiCloseRecordStore,
    pub close_record_committees: SortedMap<BlockHash, RepWeights>,
    pub visible_obligations: SortedMap<RaiEpoch, SortedSet<RaiSlotId>>,
    pub frozen_obligations: SortedMap<RaiEpoch, SortedSet<RaiSlotId>>,
    pub drains: SortedMap<RaiEpoch, RaiHappyPathDrain>,
    pub known_slots: SortedSet<RaiSlotId>,
    /// Epochs which still lock a root against a retry in a later epoch.
    pub unresolved_epochs_by_root: SortedMap<QualifiedRoot, SortedSet<RaiEpoch>>,
    pub released_slots: SortedMap<RaiSlotId, RaiCertifiedRelease>,
    pub drain_frontiers: SortedMap<RaiEpoch, RaiFrontierMap>,
    pub cut_rounds: SortedMap<RaiEpoch, RaiCloseRoundTracker>,
    pub record_rounds: SortedMap<RaiEpoch, RaiCloseRoundTracker>,
}

pub type Weights = Map<PublicKey, Amount>;

pub type Frontiers = Map<Account, ConfirmationHeightInfo>;

/// The model of an epoch manager.
#[verifier::ext_equal]
pub struct Epochs {
    pub state: RaiEpochState,
    pub genesis_governing_hash: BlockHash,
    pub genesis_committee: Weights,
    pub committees: Map<RaiEpoch, Weights>,
    pub cut_hashes: Map<RaiEpoch, BlockHash>,
    pub close_hashes: Map<RaiEpoch, BlockHash>,
    pub reports: Reports<RaiSlotId>,
    pub close_cuts: Map<BlockHash, CloseCut<RaiSlotId>>,
    pub close_records: Map<BlockHash, CloseRecord>,
    pub close_record_committees: Map<BlockHash, Weights>,
    pub visible_obligations: Map<RaiEpoch, Set<RaiSlotId>>,
    pub frozen_obligations: Map<RaiEpoch, Set<RaiSlotId>>,
    pub drains: Map<RaiEpoch, Drain>,
    pub known_slots: Set<RaiSlotId>,
    pub unresolved_epochs_by_root: Map<QualifiedRoot, Set<RaiEpoch>>,
    pub released_slots: Map<RaiSlotId, RaiCertifiedRelease>,
    pub drain_frontiers: Map<RaiEpoch, Frontiers>,
    pub cut_rounds: Map<RaiEpoch, CloseRounds>,
    pub record_rounds: Map<RaiEpoch, CloseRounds>,
}

impl View for RaiEpochManager {
    type V = Epochs;

    open spec fn view(&self) -> Epochs {
        Epochs {
            state: self.state,
            genesis_governing_hash: self.genesis_governing_hash,
            genesis_committee: (*self.genesis_committee)@,
            committees: self.committees@,
            cut_hashes: self.cut_hashes@,
            close_hashes: self.close_hashes@,
            reports: self.reports@,
            close_cuts: self.close_cuts@,
            close_records: self.close_records@,
            close_record_committees: self.close_record_committees@,
            visible_obligations: self.visible_obligations@,
            frozen_obligations: self.frozen_obligations@,
            drains: self.drains@,
            known_slots: self.known_slots@,
            unresolved_epochs_by_root: self.unresolved_epochs_by_root@,
            released_slots: self.released_slots@,
            drain_frontiers: self.drain_frontiers@,
            cut_rounds: self.cut_rounds@,
            record_rounds: self.record_rounds@,
        }
    }
}

/// What a key is bound to, if anything.
pub open spec fn lookup<K, V>(m: Map<K, V>, k: K) -> Option<V> {
    if m.contains_key(k) {
        Some(m[k])
    } else {
        None
    }
}

/// The cuts once `cut` is among them.
pub open spec fn with_cut(cuts: Map<BlockHash, CloseCut<RaiSlotId>>, cut: CloseCut<RaiSlotId>) -> Map<
    BlockHash,
    CloseCut<RaiSlotId>,
> {
    if cuts.contains_key(cut.hash()) {
        cuts
    } else {
        cuts.insert(cut.hash(), cut)
    }
}

/// The records once `record` is among them.
pub open spec fn with_record(records: Map<BlockHash, CloseRecord>, record: CloseRecord) -> Map<BlockHash, CloseRecord> {
    if records.contains_key(record.hash()) {
        records
    } else {
        records.insert(record.hash(), record)
    }
}

/// The rounds once these values are known in a round, if it is open.
pub open spec fn with_preimages(rounds: CloseRounds, round: u32, hashes: Set<BlockHash>) -> CloseRounds {
    if rounds.rounds.contains_key(round) {
        let state = rounds.rounds[round];
        CloseRounds {
            rounds: rounds.rounds.insert(
                round,
                CloseRound {
                    candidates: state.candidates.union(hashes),
                    validated_preimages: state.validated_preimages.union(hashes),
                    ..state
                },
            ),
            ..rounds
        }
    } else {
        rounds
    }
}

/// Whether the value is, or can be, the decision of these rounds.
pub open spec fn accepts_decision(rounds: CloseRounds, round: u32, hash: BlockHash) -> bool {
    match rounds.decision {
        Some(existing) => existing == (round, hash),
        None => rounds.can_decide(round, hash),
    }
}

/// The rounds with the value decided.
pub open spec fn decided(rounds: CloseRounds, round: u32, hash: BlockHash) -> CloseRounds {
    if rounds.decision is Some {
        rounds
    } else {
        rounds.with_decision(round, hash)
    }
}

/// A frontier raised by one confirmed tip. Heights never go down.
pub open spec fn raised(frontiers: Frontiers, account: Account, info: ConfirmationHeightInfo) -> Frontiers {
    let current = if frontiers.contains_key(account) {
        frontiers[account]
    } else {
        ConfirmationHeightInfo { height: 0, frontier: BlockHash { hi: 0, lo: 0 } }
    };
    frontiers.insert(
        account,
        if info.height > current.height {
            info
        } else {
            current
        },
    )
}

/// A frontier raised by each tip of a segment in turn.
pub open spec fn raised_by(frontiers: Frontiers, segment: Seq<(Account, ConfirmationHeightInfo)>) -> Frontiers
    decreases segment.len(),
{
    if segment.len() == 0 {
        frontiers
    } else {
        raised(raised_by(frontiers, segment.drop_last()), segment.last().0, segment.last().1)
    }
}

fn raise_frontiers(frontiers: &mut RaiFrontierMap, segment: &Vec<(Account, ConfirmationHeightInfo)>)
    ensures
        final(frontiers)@ == raised_by(old(frontiers)@, segment@),
{
    for i in 0..segment.len()
        invariant
            frontiers@ == raised_by(old(frontiers)@, segment@.take(i as int)),
    {
        let (account, info) = segment[i];
        let current = match frontiers.get(&account) {
            Some(current) => *current,
            None => ConfirmationHeightInfo { height: 0, frontier: BlockHash::zero() },
        };
        let raised = if info.height > current.height {
            info
        } else {
            current
        };
        frontiers.insert(account, raised);
        proof {
            assert(segment@.take(i + 1).drop_last() =~= segment@.take(i as int));
        }
    }
    proof {
        assert(segment@.take(segment@.len() as int) =~= segment@);
    }
}

/// Raising a frontier keeps every account and lowers no height.
pub proof fn frontiers_only_rise(frontiers: Frontiers, segment: Seq<(Account, ConfirmationHeightInfo)>, account: Account)
    requires
        frontiers.contains_key(account),
    ensures
        raised_by(frontiers, segment).contains_key(account),
        raised_by(frontiers, segment)[account].height >= frontiers[account].height,
    decreases segment.len(),
{
    if segment.len() > 0 {
        frontiers_only_rise(frontiers, segment.drop_last(), account);
    }
}

/// The index of unresolved epochs after these slots have been released.
pub open spec fn without_slots(
    unresolved: Map<QualifiedRoot, Set<RaiEpoch>>,
    slots: Set<RaiSlotId>,
) -> Map<QualifiedRoot, Set<RaiEpoch>> {
    let left = |root: QualifiedRoot|
        unresolved[root].filter(|epoch: RaiEpoch| !slots.contains(RaiSlotId { epoch, root }));
    Map::new(
        |root: QualifiedRoot|
            unresolved.contains_key(root) && ((forall|slot: RaiSlotId| #[trigger]
                slots.contains(slot) ==> slot.root != root) || left(root) != Set::<RaiEpoch>::empty()),
        left,
    )
}

/// The index of unresolved epochs after these slots have become known.
pub open spec fn with_slots(
    unresolved: Map<QualifiedRoot, Set<RaiEpoch>>,
    slots: Set<RaiSlotId>,
) -> Map<QualifiedRoot, Set<RaiEpoch>> {
    let added = |root: QualifiedRoot|
        Set::new(|epoch: RaiEpoch| slots.contains(RaiSlotId { epoch, root }));
    Map::new(
        |root: QualifiedRoot| unresolved.contains_key(root) || added(root) != Set::<RaiEpoch>::empty(),
        |root: QualifiedRoot|
            if unresolved.contains_key(root) {
                unresolved[root].union(added(root))
            } else {
                added(root)
            },
    )
}

/// Committees after taking over those of the given epochs in turn. The second
/// component tells whether all could be: a different committee stops it.
pub open spec fn adopted(ours: Map<RaiEpoch, Weights>, theirs: Map<RaiEpoch, Weights>, epochs: Seq<RaiEpoch>) -> (
    Map<RaiEpoch, Weights>,
    bool,
)
    decreases epochs.len(),
{
    if epochs.len() == 0 {
        (ours, true)
    } else {
        let (sofar, ok) = adopted(ours, theirs, epochs.drop_last());
        let epoch = epochs.last();
        if !ok {
            (sofar, false)
        } else if !sofar.contains_key(epoch) {
            (sofar.insert(epoch, theirs[epoch]), true)
        } else {
            (sofar, sofar[epoch] == theirs[epoch])
        }
    }
}

impl Epochs {
    pub open spec fn genesis(committee: Weights, governing_hash: BlockHash) -> Epochs {
        Epochs {
            state: RaiEpochState {
                open_epoch: RaiEpoch { number: 0 },
                open_started_at: Timestamp { nanos: 0 },
                closing: None,
                closed_through: None,
            },
            genesis_governing_hash: governing_hash,
            genesis_committee: committee,
            committees: Map::empty(),
            cut_hashes: Map::empty(),
            close_hashes: Map::empty(),
            reports: Reports::none(),
            close_cuts: Map::empty(),
            close_records: Map::empty(),
            close_record_committees: Map::empty(),
            visible_obligations: Map::empty(),
            frozen_obligations: Map::empty(),
            drains: Map::empty(),
            known_slots: Set::empty(),
            unresolved_epochs_by_root: Map::empty(),
            released_slots: Map::empty(),
            drain_frontiers: Map::empty(),
            cut_rounds: Map::empty(),
            record_rounds: Map::empty(),
        }
    }

    pub open spec fn is_closing(self, epoch: RaiEpoch, phase: RaiClosingPhase) -> bool {
        self.state.closing == Some(RaiClosingEpoch { epoch, phase })
    }

    pub open spec fn with_closing(self, epoch: RaiEpoch, phase: RaiClosingPhase) -> Epochs {
        Epochs {
            state: RaiEpochState { closing: Some(RaiClosingEpoch { epoch, phase }), ..self.state },
            ..self
        }
    }

    /// The committee of an epoch; before epoch zero it is the genesis one.
    pub open spec fn committee_at(self, epoch: int) -> Option<Weights> {
        if epoch < 0 {
            Some(self.genesis_committee)
        } else {
            lookup(self.committees, RaiEpoch { number: epoch as u64 })
        }
    }

    pub open spec fn close_committee(self, epoch: RaiEpoch) -> Option<Weights> {
        if epoch.number > i64::MAX {
            None
        } else {
            self.committee_at(epoch.number - 2)
        }
    }

    pub open spec fn slot_committees(self, epoch: RaiEpoch) -> Option<Seq<Weights>> {
        if epoch.number > i64::MAX {
            None
        } else {
            match (self.committee_at(epoch.number - 3), self.committee_at(epoch.number - 2)) {
                (Some(first), Some(second)) => Some(
                    if first == second {
                        seq![first]
                    } else {
                        seq![first, second]
                    },
                ),
                _ => None,
            }
        }
    }

    pub open spec fn governing_hash(self, epoch: RaiEpoch) -> Option<BlockHash> {
        if epoch.number < 2 {
            Some(self.genesis_governing_hash)
        } else {
            lookup(self.close_hashes, RaiEpoch { number: (epoch.number - 2) as u64 })
        }
    }

    /// The close before `epoch`, or the zero hash.
    pub open spec fn previous_close(self, epoch: RaiEpoch) -> BlockHash {
        let before = RaiEpoch { number: (epoch.number - 1) as u64 };
        if epoch.number > 0 && self.close_hashes.contains_key(before) {
            self.close_hashes[before]
        } else {
            BlockHash { hi: 0, lo: 0 }
        }
    }

    /// Whether the reports for the epoch make a quorum of its close committee.
    pub open spec fn report_quorum(self, epoch: RaiEpoch) -> bool {
        self.close_committee(epoch) matches Some(committee) && self.reports.has_quorum(epoch, committee)
    }

    /// What enough reports, and what votes make visible.
    pub open spec fn visible(self, epoch: RaiEpoch, vote_visible: Set<RaiSlotId>) -> Set<RaiSlotId> {
        self.reports.supported(epoch, self.close_committee(epoch)->0).union(vote_visible)
    }

    pub open spec fn cut_for(self, epoch: RaiEpoch, vote_visible: Set<RaiSlotId>) -> CloseCut<RaiSlotId> {
        CloseCut { epoch, obligations: self.visible(epoch, vote_visible) }
    }

    /// The rounds of the epoch's cut election, opened if need be.
    pub open spec fn cut_rounds_of(self, epoch: RaiEpoch) -> CloseRounds {
        if self.cut_rounds.contains_key(epoch) {
            self.cut_rounds[epoch]
        } else {
            CloseRounds::fresh(RaiCloseKind::Cut, epoch)
        }
    }

    pub open spec fn record_rounds_of(self, epoch: RaiEpoch) -> CloseRounds {
        if self.record_rounds.contains_key(epoch) {
            self.record_rounds[epoch]
        } else {
            CloseRounds::fresh(RaiCloseKind::Record, epoch)
        }
    }

    /// Whether a cut election can begin.
    pub open spec fn can_begin_cut(self) -> bool {
        self.state.closing matches Some(closing) && closing.phase == RaiClosingPhase::CollectingReports
            && self.report_quorum(closing.epoch)
    }

    pub open spec fn cut_begun(self, vote_visible: Set<RaiSlotId>) -> Epochs {
        let epoch = self.state.closing->0.epoch;
        let cut = self.cut_for(epoch, vote_visible);
        Epochs {
            close_cuts: with_cut(self.close_cuts, cut),
            visible_obligations: self.visible_obligations.insert(epoch, cut.obligations),
            cut_rounds: self.cut_rounds.insert(epoch, self.cut_rounds_of(epoch).with_round_zero(cut.hash())),
            ..self.with_closing(epoch, RaiClosingPhase::ElectingCut)
        }
    }

    /// Whether a changed preference for the cut can be taken up.
    pub open spec fn can_refresh_cut(self, epoch: RaiEpoch, round: u32, vote_visible: Set<RaiSlotId>) -> bool {
        let cut = self.cut_for(epoch, vote_visible);
        &&& self.is_closing(epoch, RaiClosingPhase::ElectingCut)
        &&& !self.cut_hashes.contains_key(epoch)
        &&& self.report_quorum(epoch)
        &&& !(lookup(self.visible_obligations, epoch) == Some(cut.obligations) && self.cut_rounds.contains_key(epoch)
            && self.cut_rounds[epoch].rounds.contains_key(round)
            && self.cut_rounds[epoch].rounds[round].validated_preimages.contains(cut.hash()))
    }

    pub open spec fn cut_refreshed(self, epoch: RaiEpoch, round: u32, vote_visible: Set<RaiSlotId>) -> Epochs {
        let cut = self.cut_for(epoch, vote_visible);
        Epochs {
            close_cuts: with_cut(self.close_cuts, cut),
            visible_obligations: self.visible_obligations.insert(epoch, cut.obligations),
            cut_rounds: if self.cut_rounds.contains_key(epoch) {
                self.cut_rounds.insert(epoch, with_preimages(self.cut_rounds[epoch], round, set![cut.hash()]))
            } else {
                self.cut_rounds
            },
            ..self
        }
    }

    /// The slots that become known and locked when these are.
    pub open spec fn newly_locked(self, slots: Set<RaiSlotId>) -> Set<RaiSlotId> {
        slots.filter(|slot: RaiSlotId| !self.known_slots.contains(slot) && !self.released_slots.contains_key(slot))
    }

    pub open spec fn with_known(self, slots: Set<RaiSlotId>) -> Epochs {
        Epochs {
            known_slots: self.known_slots.union(slots),
            unresolved_epochs_by_root: with_slots(self.unresolved_epochs_by_root, self.newly_locked(slots)),
            ..self
        }
    }

    /// Why a cut cannot be decided, if so.
    pub open spec fn cut_error(self, epoch: RaiEpoch, round: u32, hash: BlockHash) -> Option<CloseCutDecisionError> {
        if self.cut_hashes.contains_key(epoch) {
            if self.cut_hashes[epoch] != hash {
                Some(CloseCutDecisionError::ImmutableDecision)
            } else if !self.frozen_obligations.contains_key(epoch) {
                Some(CloseCutDecisionError::MissingPreimage)
            } else {
                None
            }
        } else if !self.is_closing(epoch, RaiClosingPhase::ElectingCut) {
            Some(CloseCutDecisionError::WrongPhase)
        } else if !self.close_cuts.contains_key(hash) {
            Some(CloseCutDecisionError::MissingPreimage)
        } else if self.close_cuts[hash].epoch != epoch {
            Some(CloseCutDecisionError::InvalidCut)
        } else if !self.cut_rounds.contains_key(epoch) {
            Some(CloseCutDecisionError::WrongPhase)
        } else if !accepts_decision(self.cut_rounds[epoch], round, hash) {
            Some(CloseCutDecisionError::MissingPreimage)
        } else {
            None
        }
    }

    /// The state after a cut is decided: its obligations are frozen and drain.
    pub open spec fn cut_decided(self, epoch: RaiEpoch, round: u32, hash: BlockHash) -> Epochs {
        if self.cut_hashes.contains_key(epoch) {
            self
        } else {
            let obligations = self.close_cuts[hash].obligations;
            let known = self.with_known(obligations);
            Epochs {
                cut_rounds: self.cut_rounds.insert(epoch, decided(self.cut_rounds[epoch], round, hash)),
                cut_hashes: self.cut_hashes.insert(epoch, hash),
                frozen_obligations: self.frozen_obligations.insert(epoch, obligations),
                drains: self.drains.insert(epoch, Drain::of(epoch, obligations)),
                ..known.with_closing(epoch, RaiClosingPhase::Draining)
            }
        }
    }

    /// What the next round of the cut election would open with: the value all
    /// committees support, or the visible obligations after a dead round.
    pub open spec fn fresh_cut(self) -> Option<CloseCut<RaiSlotId>> {
        let epoch = self.state.closing->0.epoch;
        match lookup(self.visible_obligations, epoch) {
            Some(obligations) => Some(CloseCut { epoch, obligations }),
            None => None,
        }
    }

    pub open spec fn cut_source(self) -> Option<RaiCloseRoundResult> {
        match self.state.closing {
            None => None,
            Some(closing) => {
                let rounds = self.cut_rounds[closing.epoch];
                if closing.phase == RaiClosingPhase::ElectingCut && !self.cut_hashes.contains_key(closing.epoch)
                    && self.cut_rounds.contains_key(closing.epoch) && rounds.rounds.contains_key(rounds.current_round) {
                    Some(rounds.rounds[rounds.current_round].derived())
                } else {
                    None
                }
            },
        }
    }

    pub open spec fn record_source(self) -> Option<RaiCloseRoundResult> {
        match self.state.closing {
            None => None,
            Some(closing) => {
                let rounds = self.record_rounds[closing.epoch];
                if closing.phase == RaiClosingPhase::ElectingRecord && !self.close_hashes.contains_key(closing.epoch)
                    && self.record_rounds.contains_key(closing.epoch) && rounds.rounds.contains_key(
                    rounds.current_round,
                ) {
                    Some(rounds.rounds[rounds.current_round].derived())
                } else {
                    None
                }
            },
        }
    }

    /// The value that the next cut round is offered, and the state with its
    /// content stored.
    pub open spec fn offered_cut(self) -> Option<(BlockHash, Epochs)> {
        match self.cut_source() {
            Some(RaiCloseRoundResult::LiveCarry(hash)) => Some((hash, self)),
            Some(RaiCloseRoundResult::Dead) => match self.fresh_cut() {
                Some(cut) => Some((cut.hash(), Epochs { close_cuts: with_cut(self.close_cuts, cut), ..self })),
                None => None,
            },
            _ => None,
        }
    }

    pub open spec fn offered_record(self) -> Option<(BlockHash, Epochs)> {
        let epoch = self.state.closing->0.epoch;
        match self.record_source() {
            Some(RaiCloseRoundResult::LiveCarry(hash)) => Some((hash, self)),
            Some(RaiCloseRoundResult::Dead) => match lookup(self.drain_frontiers, epoch) {
                Some(frontiers) => {
                    let record = CloseRecord { epoch, previous: self.previous_close(epoch), frontiers };
                    Some(
                        (record.hash(), Epochs { close_records: with_record(self.close_records, record), ..self }),
                    )
                },
                None => None,
            },
            _ => None,
        }
    }

    /// The round that an action starts, with its value.
    pub open spec fn started(action: RaiCloseRoundAction) -> Option<(u32, BlockHash)> {
        match action {
            RaiCloseRoundAction::StartFresh { round, hash } => Some((round, hash)),
            RaiCloseRoundAction::StartCarry { round, hash } => Some((round, hash)),
            _ => None,
        }
    }

    /// Which round of the cut election starts next, with which value.
    pub open spec fn next_cut_round(self) -> Option<(u32, BlockHash)> {
        match self.offered_cut() {
            Some((hash, _)) => Self::started(self.cut_rounds[self.state.closing->0.epoch].next_action(hash)),
            None => None,
        }
    }

    pub open spec fn cut_round_advanced(self) -> Epochs {
        let epoch = self.state.closing->0.epoch;
        match self.offered_cut() {
            Some((hash, stored)) => {
                let rounds = stored.cut_rounds[epoch].after_next(hash);
                Epochs {
                    cut_rounds: stored.cut_rounds.insert(
                        epoch,
                        match self.next_cut_round() {
                            Some((round, value)) => with_preimages(rounds, round, set![value]),
                            None => rounds,
                        },
                    ),
                    ..stored
                }
            },
            None => self,
        }
    }

    pub open spec fn next_record_round(self) -> Option<(u32, BlockHash)> {
        match self.offered_record() {
            Some((hash, _)) => Self::started(self.record_rounds[self.state.closing->0.epoch].next_action(hash)),
            None => None,
        }
    }

    pub open spec fn record_round_advanced(self) -> Epochs {
        let epoch = self.state.closing->0.epoch;
        match self.offered_record() {
            Some((hash, stored)) => {
                let rounds = stored.record_rounds[epoch].after_next(hash);
                Epochs {
                    record_rounds: stored.record_rounds.insert(
                        epoch,
                        match self.next_record_round() {
                            Some((round, value)) => with_preimages(rounds, round, set![value]),
                            None => rounds,
                        },
                    ),
                    ..stored
                }
            },
            None => self,
        }
    }

    pub open spec fn can_begin_record(self) -> bool {
        self.state.closing matches Some(closing) && closing.phase == RaiClosingPhase::Draining
            && self.drains.contains_key(closing.epoch) && self.drains[closing.epoch].is_complete()
            && self.drain_frontiers.contains_key(closing.epoch)
    }

    /// The record of the closing epoch that this replica's drain leads to.
    pub open spec fn local_record(self) -> CloseRecord {
        let epoch = self.state.closing->0.epoch;
        CloseRecord { epoch, previous: self.previous_close(epoch), frontiers: self.drain_frontiers[epoch] }
    }

    /// The known records that continue the same close.
    pub open spec fn rival_records(records: Map<BlockHash, CloseRecord>, epoch: RaiEpoch, previous: BlockHash) -> Set<
        BlockHash,
    > {
        records.dom().filter(|hash: BlockHash| records[hash].epoch == epoch && records[hash].previous == previous)
    }

    pub open spec fn record_begun(self, committee: Weights) -> Epochs {
        let record = self.local_record();
        let records = with_record(self.close_records, record);
        let rivals = Self::rival_records(records, record.epoch, record.previous);
        let committees = self.close_record_committees.insert(record.hash(), committee);
        Epochs {
            close_records: records,
            close_record_committees: with_default(committees, rivals, committee),
            record_rounds: self.record_rounds.insert(
                record.epoch,
                with_preimages(
                    self.record_rounds_of(record.epoch).with_round_zero(record.hash()),
                    0,
                    rivals,
                ),
            ),
            ..self.with_closing(record.epoch, RaiClosingPhase::ElectingRecord)
        }
    }

    /// Whether a record can be retained for the closing epoch.
    pub open spec fn continues_close(self, record: CloseRecord) -> bool {
        &&& self.is_closing(record.epoch, RaiClosingPhase::Draining) || self.is_closing(
            record.epoch,
            RaiClosingPhase::ElectingRecord,
        )
        &&& record.previous == self.previous_close(record.epoch)
    }

    pub open spec fn reconciles_record(self, record: CloseRecord, round: u32) -> bool {
        self.continues_close(record) && if self.record_rounds.contains_key(record.epoch) {
            self.record_rounds[record.epoch].rounds.contains_key(round)
        } else {
            round == 0
        }
    }

    pub open spec fn record_reconciled(self, record: CloseRecord, round: u32) -> Epochs {
        if !self.continues_close(record) {
            self
        } else {
            let stored = Epochs { close_records: with_record(self.close_records, record), ..self };
            if self.record_rounds.contains_key(record.epoch) && self.record_rounds[record.epoch].rounds.contains_key(
                round,
            ) {
                let hashes = ascending(self.close_record_committees.dom());
                Epochs {
                    record_rounds: self.record_rounds.insert(
                        record.epoch,
                        with_preimages(self.record_rounds[record.epoch], round, set![record.hash()]),
                    ),
                    close_record_committees: if hashes.len() > 0 {
                        with_default(
                            self.close_record_committees,
                            set![record.hash()],
                            self.close_record_committees[hashes[0]],
                        )
                    } else {
                        self.close_record_committees
                    },
                    ..stored
                }
            } else {
                stored
            }
        }
    }

    pub open spec fn reconciles_cut(self, cut: CloseCut<RaiSlotId>, round: u32) -> bool {
        self.is_closing(cut.epoch, RaiClosingPhase::ElectingCut) && self.cut_rounds.contains_key(cut.epoch)
            && self.cut_rounds[cut.epoch].rounds.contains_key(round)
    }

    pub open spec fn cut_reconciled(self, cut: CloseCut<RaiSlotId>, round: u32) -> Epochs {
        if self.reconciles_cut(cut, round) {
            Epochs {
                close_cuts: with_cut(self.close_cuts, cut),
                cut_rounds: self.cut_rounds.insert(
                    cut.epoch,
                    with_preimages(self.cut_rounds[cut.epoch], round, set![cut.hash()]),
                ),
                ..self
            }
        } else {
            self
        }
    }

    pub open spec fn is_installed(self, epoch: RaiEpoch, hash: BlockHash) -> bool {
        lookup(self.close_hashes, epoch) == Some(hash)
    }

    /// The record can be installed and is not yet, so its frontiers are to be
    /// made durable.
    pub open spec fn awaits_commit(self, epoch: RaiEpoch, round: u32, hash: BlockHash) -> bool {
        self.install_error(epoch, round, hash) is None && !self.is_installed(epoch, hash)
    }

    /// Why a close record cannot be installed, if so.
    pub open spec fn install_error(self, epoch: RaiEpoch, round: u32, hash: BlockHash) -> Option<
        CloseRecordDecisionError,
    > {
        if self.close_hashes.contains_key(epoch) && self.close_hashes[epoch] != hash {
            Some(CloseRecordDecisionError::ImmutableDecision)
        } else if self.close_hashes.contains_key(epoch) {
            if self.close_records.contains_key(hash) {
                None
            } else {
                Some(CloseRecordDecisionError::MissingPreimage)
            }
        } else if !self.is_closing(epoch, RaiClosingPhase::ElectingRecord) {
            Some(CloseRecordDecisionError::WrongPhase)
        } else if !self.close_records.contains_key(hash) || !self.drain_frontiers.contains_key(epoch) {
            Some(CloseRecordDecisionError::MissingPreimage)
        } else if self.close_records[hash].epoch != epoch || self.close_records[hash].previous != self.previous_close(
            epoch,
        ) || (self.close_records[hash].frontiers != self.drain_frontiers[epoch]
            && !self.close_record_committees.contains_key(hash)) {
            Some(CloseRecordDecisionError::InvalidRecord)
        } else if !self.close_record_committees.contains_key(hash) {
            Some(CloseRecordDecisionError::MissingPreimage)
        } else if !self.record_rounds.contains_key(epoch) {
            Some(CloseRecordDecisionError::WrongPhase)
        } else if !accepts_decision(self.record_rounds[epoch], round, hash) {
            Some(CloseRecordDecisionError::MissingPreimage)
        } else {
            None
        }
    }

    /// The slots that a certified close of `epoch` releases: old ones that no
    /// cut includes, and those that the drain released.
    pub open spec fn releases(self, epoch: RaiEpoch) -> Set<RaiSlotId> {
        self.known_slots.filter(
            |slot: RaiSlotId|
                {
                    &&& slot.epoch.number <= epoch.number
                    &&& !self.released_slots.contains_key(slot)
                    &&& (self.drains.contains_key(epoch) && self.drains[epoch].released.contains_key(slot))
                        || !(self.frozen_obligations.contains_key(slot.epoch)
                        && self.frozen_obligations[slot.epoch].contains(slot))
                },
        )
    }

    /// The state after a certified close record is installed.
    pub open spec fn installed(self, epoch: RaiEpoch, round: u32, hash: BlockHash) -> Epochs {
        let released = self.releases(epoch);
        Epochs {
            state: RaiEpochState { closing: None, closed_through: Some(epoch), ..self.state },
            record_rounds: self.record_rounds.insert(epoch, decided(self.record_rounds[epoch], round, hash)),
            drain_frontiers: self.drain_frontiers.insert(epoch, self.close_records[hash].frontiers),
            close_hashes: self.close_hashes.insert(epoch, hash),
            committees: with_default(self.committees, set![epoch], self.close_record_committees[hash]),
            drains: if self.drains.contains_key(epoch) {
                self.drains.insert(epoch, self.drains[epoch].certified())
            } else {
                self.drains
            },
            released_slots: with_default(
                self.released_slots,
                released,
                RaiCertifiedRelease { close_epoch: epoch, close_record_hash: hash },
            ),
            unresolved_epochs_by_root: without_slots(self.unresolved_epochs_by_root, released),
            ..self
        }
    }

    /// Whether the root names the decided round of the epoch's cut election.
    pub open spec fn cut_answers(self, epoch: RaiEpoch, root: Root) -> bool {
        &&& self.cut_rounds.contains_key(epoch)
        &&& self.cut_rounds[epoch].decision matches Some((round, hash))
        &&& lookup(self.cut_hashes, epoch) == Some(hash)
        &&& election_root("RAI/CloseCutId", epoch, round).root == root
    }

    /// Whether the root names the decided round of the epoch's record election.
    pub open spec fn record_answers(self, epoch: RaiEpoch, root: Root) -> bool {
        &&& self.record_rounds.contains_key(epoch)
        &&& self.record_rounds[epoch].decision matches Some((round, hash))
        &&& lookup(self.close_hashes, epoch) == Some(hash)
        &&& election_root("RAI/CloseRecordId", epoch, round).root == root
    }

    /// Whether an election of the slot may run.
    pub open spec fn slot_enabled(self, slot: RaiSlotId) -> bool {
        &&& !self.released_slots.contains_key(slot)
        &&& !(self.unresolved_epochs_by_root.contains_key(slot.root) && exists|older: RaiEpoch| #[trigger]
            self.unresolved_epochs_by_root[slot.root].contains(older) && older.number < slot.epoch.number)
        &&& self.state.closing matches Some(closing) ==> closing.epoch == slot.epoch
            && self.frozen_obligations.contains_key(slot.epoch) ==> self.frozen_obligations[slot.epoch].contains(slot)
    }

    /// The index of unresolved epochs lists exactly the known slots that have
    /// not been released.
    pub open spec fn index_is_exact(self) -> bool {
        forall|slot: RaiSlotId| #[trigger]
            self.is_unresolved(slot) == (self.known_slots.contains(slot) && !self.released_slots.contains_key(slot))
    }

    pub open spec fn is_unresolved(self, slot: RaiSlotId) -> bool {
        self.unresolved_epochs_by_root.contains_key(slot.root)
            && self.unresolved_epochs_by_root[slot.root].contains(slot.epoch)
    }
}

/// The map with every missing key of `keys` bound to `value`.
pub open spec fn with_default<K, V>(m: Map<K, V>, keys: Set<K>, value: V) -> Map<K, V> {
    Map::new(
        |k: K| m.contains_key(k) || keys.contains(k),
        |k: K|
            if m.contains_key(k) {
                m[k]
            } else {
                value
            },
    )
}

fn open_rounds(
    all: &mut SortedMap<RaiEpoch, RaiCloseRoundTracker>,
    kind: RaiCloseKind,
    epoch: RaiEpoch,
    hash: BlockHash,
)
    ensures
        final(all)@ == old(all)@.insert(
            epoch,
            (if old(all)@.contains_key(epoch) {
                old(all)@[epoch]
            } else {
                CloseRounds::fresh(kind, epoch)
            }).with_round_zero(hash),
        ),
{
    match all.get_mut(&epoch) {
        Some(rounds) => {
            rounds.start_round_zero(hash);
        },
        None => {
            let mut rounds = RaiCloseRoundTracker::new(kind, epoch);
            rounds.start_round_zero(hash);
            all.insert(epoch, rounds);
        },
    }
}

fn add_preimage(rounds: &mut RaiCloseRoundTracker, round: u32, hash: BlockHash)
    ensures
        final(rounds)@ == with_preimages(old(rounds)@, round, set![hash]),
{
    rounds.add_validated_preimage(round, hash);
    proof {
        if old(rounds)@.rounds.contains_key(round) {
            let state = old(rounds)@.rounds[round];
            assert(state.candidates.insert(hash) =~= state.candidates.union(set![hash]));
            assert(state.validated_preimages.insert(hash) =~= state.validated_preimages.union(set![hash]));
        }
    }
}

fn lookup_hash(hashes: &SortedMap<RaiEpoch, BlockHash>, epoch: RaiEpoch) -> (r: Option<BlockHash>)
    ensures
        r == lookup(hashes@, epoch),
{
    match hashes.get(&epoch) {
        Some(hash) => Some(*hash),
        None => None,
    }
}

fn extend_with(visible: &mut SortedSet<RaiSlotId>, more: &Vec<RaiSlotId>)
    ensures
        final(visible)@ == old(visible)@.union(more@.to_set()),
{
    let more = SortedSet::from_vec(more);
    visible.extend(&more);
}

impl RaiEpochManager {
    pub fn new(genesis_committee: Arc<RepWeights>, genesis_governing_hash: BlockHash) -> (r: Self)
        ensures
            r@ == Epochs::genesis((*genesis_committee)@, genesis_governing_hash),
    {
        RaiEpochManager {
            state: RaiEpochState {
                open_epoch: RaiEpoch { number: 0 },
                open_started_at: Timestamp { nanos: 0 },
                closing: None,
                closed_through: None,
            },
            genesis_governing_hash,
            genesis_committee,
            committees: SortedMap::new(),
            cut_hashes: SortedMap::new(),
            close_hashes: SortedMap::new(),
            reports: RaiReportStore::default(),
            close_cuts: RaiCloseCutStore::default(),
            close_records: RaiCloseRecordStore::default(),
            close_record_committees: SortedMap::new(),
            visible_obligations: SortedMap::new(),
            frozen_obligations: SortedMap::new(),
            drains: SortedMap::new(),
            known_slots: SortedSet::new(),
            unresolved_epochs_by_root: SortedMap::new(),
            released_slots: SortedMap::new(),
            drain_frontiers: SortedMap::new(),
            cut_rounds: SortedMap::new(),
            record_rounds: SortedMap::new(),
        }
    }

    /// Freezes the currently visible weights for `epoch`, unless it has a
    /// committee already. The live weights are copied, so that later changes
    /// to them cannot alter a recorded committee.
    pub fn snapshot_committee(&mut self, epoch: RaiEpoch, live_weights: &RepWeights) -> (r: Arc<RepWeights>)
        ensures
            final(self)@ == (Epochs {
                committees: with_default(old(self)@.committees, set![epoch], live_weights@),
                ..old(self)@
            }),
            (*r)@ == final(self)@.committees[epoch],
    {
        let known = match self.committees.get(&epoch) {
            Some(committee) => Some(committee.clone()),
            None => None,
        };
        match known {
            Some(committee) => {
                proof {
                    assert(with_default(self@.committees, set![epoch], live_weights@) =~= self@.committees);
                }
                committee
            },
            None => {
                let committee = Arc::new(live_weights.duplicate());
                self.committees.insert(epoch, committee.clone());
                proof {
                    assert(with_default(old(self)@.committees, set![epoch], live_weights@) =~= self@.committees);
                }
                committee
            },
        }
    }

    /// Installs an already frozen snapshot, for example while restoring state.
    pub fn insert_committee(&mut self, epoch: RaiEpoch, committee: Arc<RepWeights>) -> (r: Option<Arc<RepWeights>>)
        ensures
            final(self)@ == (Epochs {
                committees: old(self)@.committees.insert(epoch, (*committee)@),
                ..old(self)@
            }),
            match r {
                Some(earlier) => lookup(old(self)@.committees, epoch) == Some((*earlier)@),
                None => !old(self)@.committees.contains_key(epoch),
            },
    {
        let earlier = match self.committees.get(&epoch) {
            Some(earlier) => Some(earlier.clone()),
            None => None,
        };
        self.committees.insert(epoch, committee);
        earlier
    }

    /// Records the close of an epoch, unless it has one, which is returned.
    pub fn record_close_hash(&mut self, epoch: RaiEpoch, close_hash: BlockHash) -> (r: Option<BlockHash>)
        ensures
            r == lookup(old(self)@.close_hashes, epoch),
            final(self)@ == (Epochs {
                close_hashes: with_default(old(self)@.close_hashes, set![epoch], close_hash),
                ..old(self)@
            }),
    {
        let existing = lookup_hash(&self.close_hashes, epoch);
        if existing.is_none() {
            self.close_hashes.insert(epoch, close_hash);
        }
        proof {
            assert(with_default(old(self)@.close_hashes, set![epoch], close_hash) =~= self@.close_hashes);
        }
        existing
    }

    pub fn current_epoch(&self) -> (r: RaiEpoch)
        ensures
            r == self@.state.open_epoch,
    {
        self.state.open_epoch
    }

    pub fn state(&self) -> (r: &RaiEpochState)
        ensures
            *r == self@.state,
    {
        &self.state
    }

    pub fn set_open_started_at(&mut self, started_at: Timestamp)
        ensures
            final(self)@ == (Epochs {
                state: RaiEpochState { open_started_at: started_at, ..old(self)@.state },
                ..old(self)@
            }),
    {
        self.state.open_started_at = started_at;
    }

    pub fn closing_epoch(&self) -> (r: Option<RaiClosingEpoch>)
        ensures
            r == self@.state.closing,
    {
        self.state.closing
    }

    /// Opens an epoch without closing the one before it. Epochs otherwise
    /// advance only through `start_closing`.
    pub fn open_epoch(&mut self, epoch: RaiEpoch)
        ensures
            final(self)@ == (Epochs {
                state: RaiEpochState { open_epoch: epoch, closing: None, ..old(self)@.state },
                ..old(self)@
            }),
    {
        self.state.open_epoch = epoch;
        self.state.closing = None;
    }

    /// Starts closing the open epoch and immediately opens its successor.
    /// Returning `false` leaves an existing close untouched.
    pub fn start_closing(&mut self, now: Timestamp) -> (r: bool)
        ensures
            r == (old(self)@.state.closing is None && old(self)@.state.open_epoch.number < u64::MAX),
            final(self)@ == if r {
                Epochs {
                    state: RaiEpochState {
                        open_epoch: RaiEpoch { number: (old(self)@.state.open_epoch.number + 1) as u64 },
                        open_started_at: now,
                        closing: Some(
                            RaiClosingEpoch {
                                epoch: old(self)@.state.open_epoch,
                                phase: RaiClosingPhase::CollectingReports,
                            },
                        ),
                        ..old(self)@.state
                    },
                    ..old(self)@
                }
            } else {
                old(self)@
            },
    {
        if self.state.closing.is_some() {
            return false;
        }
        let closing = self.state.open_epoch;
        let next: u64 = match closing.number().checked_add(1) {
            Some(next) => next,
            None => return false,
        };
        self.state.closing = Some(RaiClosingEpoch { epoch: closing, phase: RaiClosingPhase::CollectingReports });
        self.state.open_epoch = RaiEpoch::new(next);
        self.state.open_started_at = now;
        true
    }

    pub fn reports(&self) -> (r: &RaiReportStore<RaiSlotId>)
        ensures
            r@ == self@.reports,
    {
        &self.reports
    }

    pub fn reports_mut(&mut self) -> (r: &mut RaiReportStore<RaiSlotId>)
        ensures
            r@ == old(self)@.reports,
            final(self)@ == (Epochs { reports: final(r)@, ..old(self)@ }),
    {
        &mut self.reports
    }

    pub fn close_record_versions(&self) -> (r: Vec<RaiCloseRecord>)
        ensures
            r.deep_view() == ascending(self@.close_records.dom()).map_values(
                |hash: BlockHash| self@.close_records[hash],
            ),
    {
        self.close_records.all()
    }

    pub fn close_record(&self, hash: &BlockHash) -> (r: Option<&RaiCloseRecord>)
        ensures
            match r {
                Some(record) => lookup(self@.close_records, *hash) == Some(record.deep_view()),
                None => !self@.close_records.contains_key(*hash),
            },
    {
        self.close_records.get(hash)
    }

    pub fn close_cut_versions(&self) -> (r: Vec<RaiCloseCut<RaiSlotId>>)
        ensures
            r.deep_view() == ascending(self@.close_cuts.dom()).map_values(|hash: BlockHash| self@.close_cuts[hash]),
    {
        self.close_cuts.all()
    }

    pub fn close_cut(&self, hash: &BlockHash) -> (r: Option<&RaiCloseCut<RaiSlotId>>)
        ensures
            match r {
                Some(cut) => lookup(self@.close_cuts, *hash) == Some(cut.deep_view()),
                None => !self@.close_cuts.contains_key(*hash),
            },
    {
        self.close_cuts.get(hash)
    }

    pub fn close_cuts(&self) -> (r: &RaiCloseCutStore<RaiSlotId>)
        ensures
            r@ == self@.close_cuts,
    {
        &self.close_cuts
    }

    /// The close before `epoch`, or the zero hash.
    fn previous_close(&self, epoch: RaiEpoch) -> (r: BlockHash)
        ensures
            r == self@.previous_close(epoch),
    {
        if epoch.number() == 0 {
            return BlockHash::zero();
        }
        match self.close_hashes.get(&RaiEpoch::new(epoch.number() - 1)) {
            Some(hash) => *hash,
            None => BlockHash::zero(),
        }
    }

    /// Retains a transferred cut for the active cut election. Votes remain
    /// the sole source of authority; knowing the content only makes them
    /// applicable.
    pub fn reconcile_close_cut(&mut self, cut: RaiCloseCut<RaiSlotId>, round: u32) -> (r: Option<
        (RaiEpoch, u32, BlockHash),
    >)
        ensures
            r == if old(self)@.reconciles_cut(cut.deep_view(), round) {
                Some((cut.epoch, round, cut.deep_view().hash()))
            } else {
                None
            },
            final(self)@ == old(self)@.cut_reconciled(cut.deep_view(), round),
    {
        let closing = match self.state.closing {
            Some(closing) => closing,
            None => return None,
        };
        if closing.epoch != cut.epoch || closing.phase != RaiClosingPhase::ElectingCut {
            return None;
        }
        match self.cut_rounds.get_mut(&closing.epoch) {
            None => None,
            Some(rounds) => {
                if rounds.round(round).is_none() {
                    return None;
                }
                let hash = self.close_cuts.insert(cut);
                add_preimage(rounds, round, hash);
                Some((closing.epoch, round, hash))
            },
        }
    }

    /// Retains a transferred record for the active record election. A peer may
    /// enter that election before this replica has drained: the record is then
    /// kept for later.
    pub fn reconcile_close_record(&mut self, record: RaiCloseRecord, round: u32) -> (r: Option<
        (RaiEpoch, u32, BlockHash),
    >)
        ensures
            r == if old(self)@.reconciles_record(record.deep_view(), round) {
                Some((record.epoch, round, record.deep_view().hash()))
            } else {
                None
            },
            final(self)@ == old(self)@.record_reconciled(record.deep_view(), round),
    {
        let closing = match self.state.closing {
            Some(closing) => closing,
            None => return None,
        };
        if closing.epoch != record.epoch || (closing.phase != RaiClosingPhase::Draining && closing.phase
            != RaiClosingPhase::ElectingRecord) {
            return None;
        }
        if record.previous != self.previous_close(record.epoch) {
            return None;
        }
        let hash = self.close_records.insert(record);
        match self.record_rounds.get_mut(&closing.epoch) {
            Some(rounds) => {
                if rounds.round(round).is_none() {
                    return None;
                }
                add_preimage(rounds, round, hash);
                if self.close_record_committees.len() > 0 {
                    if !self.close_record_committees.contains_key(&hash) {
                        let committee = self.close_record_committees.value_at(0).duplicate();
                        self.close_record_committees.insert(hash, committee);
                    }
                    proof {
                        let before = old(self)@.close_record_committees;
                        let first = before[ascending(before.dom())[0]];
                        assert(with_default(before, set![hash], first) =~= self@.close_record_committees);
                    }
                }
                Some((closing.epoch, round, hash))
            },
            None => {
                if round == 0 {
                    Some((closing.epoch, round, hash))
                } else {
                    None
                }
            },
        }
    }

    pub fn report_quorum_available(&self, epoch: RaiEpoch) -> (r: bool)
        ensures
            r == self@.report_quorum(epoch),
    {
        match self.close_committee(epoch) {
            Some(committee) => self.reports.has_quorum(epoch, &*committee),
            None => false,
        }
    }

    pub fn full_report_coverage_available(&self, epoch: RaiEpoch) -> (r: bool)
        ensures
            r == (self@.close_committee(epoch) matches Some(committee) && self@.reports.has_full_coverage(
                epoch,
                committee,
            )),
    {
        match self.close_committee(epoch) {
            Some(committee) => self.reports.has_full_coverage(epoch, &*committee),
            None => false,
        }
    }

    /// Freezes visibility and creates the canonical candidate of round zero.
    pub fn begin_cut_election(&mut self, vote_visible: Vec<RaiSlotId>) -> (r: Option<(QualifiedRoot, BlockHash)>)
        ensures
            r == if old(self)@.can_begin_cut() {
                let epoch = old(self)@.state.closing->0.epoch;
                Some(
                    (
                        election_root("RAI/CloseCutId", epoch, 0),
                        old(self)@.cut_for(epoch, vote_visible@.to_set()).hash(),
                    ),
                )
            } else {
                None
            },
            final(self)@ == if old(self)@.can_begin_cut() {
                old(self)@.cut_begun(vote_visible@.to_set())
            } else {
                old(self)@
            },
    {
        let closing = match self.state.closing {
            Some(closing) => closing,
            None => return None,
        };
        if closing.phase != RaiClosingPhase::CollectingReports {
            return None;
        }
        let epoch = closing.epoch;
        let committee = match self.close_committee(epoch) {
            Some(committee) => committee,
            None => return None,
        };
        if !self.reports.has_quorum(epoch, &*committee) {
            return None;
        }
        let mut visible = self.reports.supported_by_reports(epoch, &*committee);
        extend_with(&mut visible, &vote_visible);
        let cut = RaiCloseCut { epoch, obligations: visible.duplicate() };
        let hash = self.close_cuts.insert(cut);
        self.visible_obligations.insert(epoch, visible);
        self.state.closing = Some(RaiClosingEpoch { epoch, phase: RaiClosingPhase::ElectingCut });
        open_rounds(&mut self.cut_rounds, RaiCloseKind::Cut, epoch, hash);
        Some((rai_close_cut_root(epoch, 0), hash))
    }

    /// Rebuilds the replica's fresh cut preference as authenticated visibility
    /// grows. Its content becomes known in the round, so that votes and a
    /// later certificate for it can be checked.
    pub fn refresh_close_cut_candidate(
        &mut self,
        epoch: RaiEpoch,
        round: u32,
        vote_visible: Vec<RaiSlotId>,
    ) -> (r: Option<BlockHash>)
        ensures
            r == if old(self)@.can_refresh_cut(epoch, round, vote_visible@.to_set())
                && old(self)@.cut_rounds.contains_key(epoch) {
                Some(old(self)@.cut_for(epoch, vote_visible@.to_set()).hash())
            } else {
                None
            },
            final(self)@ == if old(self)@.can_refresh_cut(epoch, round, vote_visible@.to_set()) {
                old(self)@.cut_refreshed(epoch, round, vote_visible@.to_set())
            } else {
                old(self)@
            },
    {
        let electing = match self.state.closing {
            Some(closing) => closing.epoch == epoch && closing.phase == RaiClosingPhase::ElectingCut,
            None => false,
        };
        if !electing || self.cut_hashes.contains_key(&epoch) {
            return None;
        }
        let committee = match self.close_committee(epoch) {
            Some(committee) => committee,
            None => return None,
        };
        if !self.reports.has_quorum(epoch, &*committee) {
            return None;
        }
        let mut visible = self.reports.supported_by_reports(epoch, &*committee);
        extend_with(&mut visible, &vote_visible);
        let cut = RaiCloseCut { epoch, obligations: visible.duplicate() };
        let hash = cut.hash();
        let same_visible = match self.visible_obligations.get(&epoch) {
            Some(earlier) => earlier.agrees(&visible),
            None => false,
        };
        let known = match self.cut_rounds.get(&epoch) {
            Some(rounds) => match rounds.round(round) {
                Some(state) => state.validated_preimages.contains(&hash),
                None => false,
            },
            None => false,
        };
        if same_visible && known {
            return None;
        }
        self.close_cuts.insert(cut);
        self.visible_obligations.insert(epoch, visible);
        match self.cut_rounds.get_mut(&epoch) {
            Some(rounds) => {
                add_preimage(rounds, round, hash);
                Some(hash)
            },
            None => None,
        }
    }

    /// Decides the cut: its obligations are frozen and start to drain. Later
    /// reports cannot invalidate a decided cut.
    pub fn decide_close_cut(&mut self, epoch: RaiEpoch, round: u32, hash: BlockHash) -> (r: Result<
        &SortedSet<RaiSlotId>,
        CloseCutDecisionError,
    >)
        ensures
            match r {
                Ok(obligations) => {
                    &&& old(self)@.cut_error(epoch, round, hash) is None
                    &&& final(self)@ == old(self)@.cut_decided(epoch, round, hash)
                    &&& obligations@ == final(self)@.frozen_obligations[epoch]
                },
                Err(error) => {
                    &&& old(self)@.cut_error(epoch, round, hash) == Some(error)
                    &&& final(self)@ == old(self)@
                },
            },
    {
        if let Some(existing) = lookup_hash(&self.cut_hashes, epoch) {
            return if existing == hash {
                match self.frozen_obligations.get(&epoch) {
                    Some(obligations) => Ok(obligations),
                    None => Err(CloseCutDecisionError::MissingPreimage),
                }
            } else {
                Err(CloseCutDecisionError::ImmutableDecision)
            };
        }
        let electing = match self.state.closing {
            Some(closing) => closing.epoch == epoch && closing.phase == RaiClosingPhase::ElectingCut,
            None => false,
        };
        if !electing {
            return Err(CloseCutDecisionError::WrongPhase);
        }
        let cut = match self.close_cuts.get(&hash) {
            Some(cut) => cut.duplicate(),
            None => return Err(CloseCutDecisionError::MissingPreimage),
        };
        if cut.epoch != epoch || cut.hash() != hash {
            return Err(CloseCutDecisionError::InvalidCut);
        }
        match self.cut_rounds.get_mut(&epoch) {
            Some(tracker) => {
                if !tracker.decide(round, hash) {
                    proof {
                        assert(self@.cut_rounds =~= old(self)@.cut_rounds);
                    }
                    return Err(CloseCutDecisionError::MissingPreimage);
                }
            },
            None => return Err(CloseCutDecisionError::WrongPhase),
        }
        self.cut_hashes.insert(epoch, hash);
        self.record_known_slots(&cut.obligations);
        let obligations = cut.obligations.duplicate();
        self.frozen_obligations.insert(epoch, cut.obligations);
        self.drains.insert(
            epoch,
            RaiHappyPathDrain {
                epoch,
                obligations,
                finalized: SortedMap::new(),
                selected: SortedMap::new(),
                released: SortedMap::new(),
            },
        );
        self.state.closing = Some(RaiClosingEpoch { epoch, phase: RaiClosingPhase::Draining });
        match self.frozen_obligations.get(&epoch) {
            Some(obligations) => Ok(obligations),
            None => Err(CloseCutDecisionError::MissingPreimage),
        }
    }

    pub fn install_cut(&mut self, epoch: RaiEpoch, round: u32, hash: BlockHash) -> (r: Result<
        &SortedSet<RaiSlotId>,
        CloseCutDecisionError,
    >)
        ensures
            match r {
                Ok(obligations) => {
                    &&& old(self)@.cut_error(epoch, round, hash) is None
                    &&& final(self)@ == old(self)@.cut_decided(epoch, round, hash)
                    &&& obligations@ == final(self)@.frozen_obligations[epoch]
                },
                Err(error) => {
                    &&& old(self)@.cut_error(epoch, round, hash) == Some(error)
                    &&& final(self)@ == old(self)@
                },
            },
    {
        self.decide_close_cut(epoch, round, hash)
    }

    fn record_known_slots(&mut self, slots: &SortedSet<RaiSlotId>)
        ensures
            final(self)@ == old(self)@.with_known(slots@),
    {
        let list = slots.to_vec();
        let ghost m = self@;
        proof {
            lemma_ascending(slots@);
            lemma_with_known_none(m, list@.take(0).to_set());
        }
        for i in 0..list.len()
            invariant
                list@ == ascending(slots@),
                list@.no_duplicates(),
                self@ == m.with_known(list@.take(i as int).to_set()),
        {
            proof {
                lemma_take_distinct(list@, i as int);
                lemma_with_known_one(m, list@.take(i as int).to_set(), list@[i as int]);
            }
            self.record_known_slot(list[i]);
        }
        proof {
            assert(list@.take(list@.len() as int) =~= list@);
        }
    }

    pub fn record_known_slot(&mut self, slot: RaiSlotId)
        ensures
            final(self)@ == old(self)@.with_known(set![slot]),
    {
        let ghost m = self@;
        let added = self.known_slots.insert(slot);
        if added && !self.released_slots.contains_key(&slot) {
            match self.unresolved_epochs_by_root.get_mut(&slot.root) {
                Some(epochs) => {
                    epochs.insert(slot.epoch);
                },
                None => {
                    let mut epochs: SortedSet<RaiEpoch> = SortedSet::new();
                    epochs.insert(slot.epoch);
                    self.unresolved_epochs_by_root.insert(slot.root, epochs);
                },
            }
        }
        proof {
            lemma_known_slot(m, self@, slot);
        }
    }
}

proof fn lemma_with_known_none(m: Epochs, none: Set<RaiSlotId>)
    requires
        none == Set::<RaiSlotId>::empty() || forall|s: RaiSlotId| !none.contains(s),
    ensures
        m.with_known(none) == m,
{
    let locked = m.newly_locked(none);
    let u = m.unresolved_epochs_by_root;
    let w = with_slots(u, locked);
    assert(m.known_slots.union(none) =~= m.known_slots);
    assert forall|root: QualifiedRoot| w.contains_key(root) == u.contains_key(root) by {
        assert(Set::new(|epoch: RaiEpoch| locked.contains(RaiSlotId { epoch, root })) =~= Set::<RaiEpoch>::empty());
    }
    assert forall|root: QualifiedRoot| w.contains_key(root) implies w[root] == u[root] by {
        assert(w[root] =~= u[root]);
    }
    assert(w =~= u);
}

proof fn lemma_known_slot(m: Epochs, n: Epochs, slot: RaiSlotId)
    requires
        n.known_slots == m.known_slots.insert(slot),
        n == (Epochs {
            known_slots: n.known_slots,
            unresolved_epochs_by_root: n.unresolved_epochs_by_root,
            ..m
        }),
        ({
            let u = m.unresolved_epochs_by_root;
            n.unresolved_epochs_by_root == if m.known_slots.contains(slot) || m.released_slots.contains_key(slot) {
                u
            } else if u.contains_key(slot.root) {
                u.insert(slot.root, u[slot.root].insert(slot.epoch))
            } else {
                u.insert(slot.root, Set::<RaiEpoch>::empty().insert(slot.epoch))
            }
        }),
    ensures
        n == m.with_known(set![slot]),
{
    let locked = m.newly_locked(set![slot]);
    let u = m.unresolved_epochs_by_root;
    let w = with_slots(u, locked);
    let v = n.unresolved_epochs_by_root;
    let fresh = !m.known_slots.contains(slot) && !m.released_slots.contains_key(slot);
    assert(m.known_slots.union(set![slot]) =~= n.known_slots);
    assert forall|root: QualifiedRoot| w.contains_key(root) == v.contains_key(root) by {
        let added = Set::new(|epoch: RaiEpoch| locked.contains(RaiSlotId { epoch, root }));
        if fresh && root == slot.root {
            assert(added.contains(slot.epoch));
        } else {
            assert(added =~= Set::<RaiEpoch>::empty());
        }
    }
    assert forall|root: QualifiedRoot| w.contains_key(root) implies w[root] == v[root] by {
        assert(w[root] =~= v[root]);
    }
    assert(w =~= v);
}

proof fn lemma_with_known_one(m: Epochs, slots: Set<RaiSlotId>, slot: RaiSlotId)
    requires
        !slots.contains(slot),
    ensures
        m.with_known(slots).with_known(set![slot]) == m.with_known(slots.insert(slot)),
{
    let a = m.with_known(slots);
    let b = a.with_known(set![slot]);
    let c = m.with_known(slots.insert(slot));
    assert(b.known_slots =~= c.known_slots);
    let u = m.unresolved_epochs_by_root;
    let lock_a = m.newly_locked(slots);
    let lock_b = a.newly_locked(set![slot]);
    let lock_c = m.newly_locked(slots.insert(slot));
    assert(lock_c =~= lock_a.union(lock_b));
    let v = b.unresolved_epochs_by_root;
    let w = c.unresolved_epochs_by_root;
    assert forall|root: QualifiedRoot| v.contains_key(root) == w.contains_key(root) by {
        let add_a = Set::new(|epoch: RaiEpoch| lock_a.contains(RaiSlotId { epoch, root }));
        let add_b = Set::new(|epoch: RaiEpoch| lock_b.contains(RaiSlotId { epoch, root }));
        let add_c = Set::new(|epoch: RaiEpoch| lock_c.contains(RaiSlotId { epoch, root }));
        assert(add_c =~= add_a.union(add_b));
        if add_c != Set::<RaiEpoch>::empty() {
            let e = add_c.choose();
            if add_a =~= Set::<RaiEpoch>::empty() && add_b =~= Set::<RaiEpoch>::empty() {
                assert(add_c =~= Set::<RaiEpoch>::empty());
            }
        }
        if add_a != Set::<RaiEpoch>::empty() || add_b != Set::<RaiEpoch>::empty() {
            if add_c =~= Set::<RaiEpoch>::empty() {
                assert(add_a =~= Set::<RaiEpoch>::empty());
                assert(add_b =~= Set::<RaiEpoch>::empty());
            }
        }
    }
    assert forall|root: QualifiedRoot| v.contains_key(root) implies v[root] == w[root] by {
        let add_a = Set::new(|epoch: RaiEpoch| lock_a.contains(RaiSlotId { epoch, root }));
        let add_b = Set::new(|epoch: RaiEpoch| lock_b.contains(RaiSlotId { epoch, root }));
        let add_c = Set::new(|epoch: RaiEpoch| lock_c.contains(RaiSlotId { epoch, root }));
        assert(add_c =~= add_a.union(add_b));
        if u.contains_key(root) {
            assert(u[root].union(add_a).union(add_b) =~= u[root].union(add_c));
        } else if add_a == Set::<RaiEpoch>::empty() {
            assert(add_b =~= add_c);
        }
    }
    assert(v =~= w);
}

impl RaiEpochManager {
    /// The committee of an epoch; before epoch zero it is the genesis one.
    pub fn committee_at(&self, epoch: i64) -> (r: Option<Arc<RepWeights>>)
        ensures
            match r {
                Some(committee) => self@.committee_at(epoch as int) == Some((*committee)@),
                None => self@.committee_at(epoch as int) is None,
            },
    {
        if epoch < 0 {
            Some(self.genesis_committee.clone())
        } else {
            match self.committees.get(&RaiEpoch::new(epoch as u64)) {
                Some(committee) => Some(committee.clone()),
                None => None,
            }
        }
    }

    /// The committees that vote on slots in `epoch`: those of three and of two
    /// epochs before. Equal ones are returned once.
    pub fn slot_committees(&self, epoch: RaiEpoch) -> (r: Option<Vec<Arc<RepWeights>>>)
        ensures
            match r {
                Some(committees) => self@.slot_committees(epoch) == Some(committees.deep_view()),
                None => self@.slot_committees(epoch) is None,
            },
    {
        if epoch.number() > i64::MAX as u64 {
            return None;
        }
        let number = epoch.number() as i64;
        let first = match self.committee_at(number - 3) {
            Some(first) => first,
            None => return None,
        };
        let second = match self.committee_at(number - 2) {
            Some(second) => second,
            None => return None,
        };
        let mut committees: Vec<Arc<RepWeights>> = Vec::new();
        let same = first.agrees(&*second);
        committees.push(first);
        if !same {
            committees.push(second);
        }
        proof {
            let all = self@.slot_committees(epoch)->0;
            assert(committees.deep_view() =~= all);
        }
        Some(committees)
    }

    /// The committee that votes on reports and the close of `epoch`.
    pub fn close_committee(&self, epoch: RaiEpoch) -> (r: Option<Arc<RepWeights>>)
        ensures
            match r {
                Some(committee) => self@.close_committee(epoch) == Some((*committee)@),
                None => self@.close_committee(epoch) is None,
            },
    {
        if epoch.number() > i64::MAX as u64 {
            return None;
        }
        self.committee_at(epoch.number() as i64 - 2)
    }

    /// The certified close which governs `epoch`.
    pub fn governing_hash(&self, epoch: RaiEpoch) -> (r: Option<BlockHash>)
        ensures
            r == self@.governing_hash(epoch),
    {
        if epoch.number() < 2 {
            return Some(self.genesis_governing_hash);
        }
        lookup_hash(&self.close_hashes, RaiEpoch::new(epoch.number() - 2))
    }
}

impl RaiEpochManager {
    pub fn decided_close_hash(&self, epoch: RaiEpoch) -> (r: Option<BlockHash>)
        ensures
            r == lookup(self@.cut_hashes, epoch),
    {
        lookup_hash(&self.cut_hashes, epoch)
    }

    pub fn decided_cut_hashes(&self) -> (r: &SortedMap<RaiEpoch, BlockHash>)
        ensures
            r@ == self@.cut_hashes,
    {
        &self.cut_hashes
    }

    pub fn installed_close_hash(&self, epoch: RaiEpoch) -> (r: Option<BlockHash>)
        ensures
            r == lookup(self@.close_hashes, epoch),
    {
        lookup_hash(&self.close_hashes, epoch)
    }

    /// Resolves a decided cut election by its root.
    pub fn installed_close_cut_for_root(&self, requested_root: &Root) -> (r: Option<(RaiEpoch, u32, BlockHash)>)
        ensures
            match r {
                Some((epoch, round, hash)) => {
                    &&& self@.cut_answers(epoch, *requested_root)
                    &&& self@.cut_rounds[epoch].decision == Some((round, hash))
                    &&& forall|other: RaiEpoch| #[trigger]
                        self@.cut_answers(other, *requested_root) ==> epoch.number <= other.number
                },
                None => forall|other: RaiEpoch| !#[trigger] self@.cut_answers(other, *requested_root),
            },
    {
        let n: usize = self.cut_rounds.len();
        let ghost epochs = ascending(self.cut_rounds@.dom());
        proof {
            lemma_ascending(self.cut_rounds@.dom());
        }
        for i in 0..n
            invariant
                n == self.cut_rounds@.len(),
                n == epochs.len(),
                epochs == ascending(self.cut_rounds@.dom()),
                is_ascending(epochs),
                forall|other: RaiEpoch| self.cut_rounds@.contains_key(other) ==> #[trigger] epochs.contains(other),
                forall|j: int| 0 <= j < i ==> !self@.cut_answers(#[trigger] epochs[j], *requested_root),
        {
            let epoch = self.cut_rounds.key_at(i);
            if let Some((round, hash)) = self.cut_rounds.value_at(i).decision() {
                let installed = match self.cut_hashes.get(&epoch) {
                    Some(other) => *other == hash,
                    None => false,
                };
                if installed && rai_close_cut_root(epoch, round).root == *requested_root {
                    proof {
                        assert forall|other: RaiEpoch| #[trigger] self@.cut_answers(other, *requested_root) implies epoch.number
                            <= other.number by {
                            assert(epochs.contains(other));
                            let j = choose|j: int| 0 <= j < epochs.len() && epochs[j] == other;
                            if j > i {
                                assert(epochs[i as int].rank() < epochs[j].rank());
                            }
                        }
                    }
                    return Some((epoch, round, hash));
                }
            }
        }
        proof {
            assert forall|other: RaiEpoch| !#[trigger] self@.cut_answers(other, *requested_root) by {
                if self@.cut_answers(other, *requested_root) {
                    assert(epochs.contains(other));
                    let j = choose|j: int| 0 <= j < epochs.len() && epochs[j] == other;
                    assert(!self@.cut_answers(epochs[j], *requested_root));
                }
            }
        }
        None
    }

    pub fn close_cut_round(&self, epoch: RaiEpoch) -> (r: Option<u32>)
        ensures
            r == match lookup(self@.cut_rounds, epoch) {
                Some(rounds) => Some(rounds.current_round),
                None => None,
            },
    {
        match self.cut_rounds.get(&epoch) {
            Some(rounds) => Some(rounds.current_round()),
            None => None,
        }
    }

    pub fn close_cut_tracker(&self, epoch: RaiEpoch) -> (r: Option<&RaiCloseRoundTracker>)
        ensures
            match r {
                Some(rounds) => lookup(self@.cut_rounds, epoch) == Some(rounds@),
                None => !self@.cut_rounds.contains_key(epoch),
            },
    {
        self.cut_rounds.get(&epoch)
    }

    /// Stores the votes of a round, from which its result is derived.
    pub fn store_close_cut_evidence(
        &mut self,
        epoch: RaiEpoch,
        round: u32,
        evidence: RaiElectionVoteState,
    ) -> (r: bool)
        ensures
            r == (old(self)@.cut_rounds.contains_key(epoch) && old(self)@.cut_rounds[epoch].takes_evidence(round)),
            final(self)@ == if r {
                Epochs {
                    cut_rounds: old(self)@.cut_rounds.insert(
                        epoch,
                        old(self)@.cut_rounds[epoch].with_evidence(round, evidence.deep_view()),
                    ),
                    ..old(self)@
                }
            } else {
                old(self)@
            },
    {
        match self.cut_rounds.get_mut(&epoch) {
            Some(rounds) => {
                let r = rounds.store_evidence(round, evidence);
                proof {
                    if !r {
                        assert(self@.cut_rounds =~= old(self)@.cut_rounds);
                    }
                }
                r
            },
            None => false,
        }
    }

    /// Resolves a decided record election by its root.
    pub fn installed_close_record_for_root(&self, requested_root: &Root) -> (r: Option<(RaiEpoch, u32, BlockHash)>)
        ensures
            match r {
                Some((epoch, round, hash)) => {
                    &&& self@.record_answers(epoch, *requested_root)
                    &&& self@.record_rounds[epoch].decision == Some((round, hash))
                    &&& forall|other: RaiEpoch| #[trigger]
                        self@.record_answers(other, *requested_root) ==> epoch.number <= other.number
                },
                None => forall|other: RaiEpoch| !#[trigger] self@.record_answers(other, *requested_root),
            },
    {
        let n: usize = self.record_rounds.len();
        let ghost epochs = ascending(self.record_rounds@.dom());
        proof {
            lemma_ascending(self.record_rounds@.dom());
        }
        for i in 0..n
            invariant
                n == self.record_rounds@.len(),
                n == epochs.len(),
                epochs == ascending(self.record_rounds@.dom()),
                is_ascending(epochs),
                forall|other: RaiEpoch| self.record_rounds@.contains_key(other) ==> #[trigger] epochs.contains(other),
                forall|j: int| 0 <= j < i ==> !self@.record_answers(#[trigger] epochs[j], *requested_root),
        {
            let epoch = self.record_rounds.key_at(i);
            if let Some((round, hash)) = self.record_rounds.value_at(i).decision() {
                let installed = match self.close_hashes.get(&epoch) {
                    Some(other) => *other == hash,
                    None => false,
                };
                if installed && rai_close_record_root(epoch, round).root == *requested_root {
                    proof {
                        assert forall|other: RaiEpoch| #[trigger] self@.record_answers(other, *requested_root) implies epoch.number
                            <= other.number by {
                            assert(epochs.contains(other));
                            let j = choose|j: int| 0 <= j < epochs.len() && epochs[j] == other;
                            if j > i {
                                assert(epochs[i as int].rank() < epochs[j].rank());
                            }
                        }
                    }
                    return Some((epoch, round, hash));
                }
            }
        }
        proof {
            assert forall|other: RaiEpoch| !#[trigger] self@.record_answers(other, *requested_root) by {
                if self@.record_answers(other, *requested_root) {
                    assert(epochs.contains(other));
                    let j = choose|j: int| 0 <= j < epochs.len() && epochs[j] == other;
                    assert(!self@.record_answers(epochs[j], *requested_root));
                }
            }
        }
        None
    }

    pub fn close_record_round(&self, epoch: RaiEpoch) -> (r: Option<u32>)
        ensures
            r == match lookup(self@.record_rounds, epoch) {
                Some(rounds) => Some(rounds.current_round),
                None => None,
            },
    {
        match self.record_rounds.get(&epoch) {
            Some(rounds) => Some(rounds.current_round()),
            None => None,
        }
    }

    pub fn close_record_tracker(&self, epoch: RaiEpoch) -> (r: Option<&RaiCloseRoundTracker>)
        ensures
            match r {
                Some(rounds) => lookup(self@.record_rounds, epoch) == Some(rounds@),
                None => !self@.record_rounds.contains_key(epoch),
            },
    {
        self.record_rounds.get(&epoch)
    }

    /// Stores the votes of a round, from which its result is derived.
    pub fn store_close_record_evidence(
        &mut self,
        epoch: RaiEpoch,
        round: u32,
        evidence: RaiElectionVoteState,
    ) -> (r: bool)
        ensures
            r == (old(self)@.record_rounds.contains_key(epoch) && old(self)@.record_rounds[epoch].takes_evidence(round)),
            final(self)@ == if r {
                Epochs {
                    record_rounds: old(self)@.record_rounds.insert(
                        epoch,
                        old(self)@.record_rounds[epoch].with_evidence(round, evidence.deep_view()),
                    ),
                    ..old(self)@
                }
            } else {
                old(self)@
            },
    {
        match self.record_rounds.get_mut(&epoch) {
            Some(rounds) => {
                let r = rounds.store_evidence(round, evidence);
                proof {
                    if !r {
                        assert(self@.record_rounds =~= old(self)@.record_rounds);
                    }
                }
                r
            },
            None => false,
        }
    }

    /// Opens the next round of the cut election once the votes stored for the
    /// current one allow it. `None` means that the current round is still live:
    /// a local timer alone never advances it.
    pub fn advance_close_cut_round(&mut self) -> (r: Option<(QualifiedRoot, BlockHash)>)
        ensures
            r == match old(self)@.next_cut_round() {
                Some((round, hash)) => Some(
                    (election_root("RAI/CloseCutId", old(self)@.state.closing->0.epoch, round), hash),
                ),
                None => None,
            },
            final(self)@ == old(self)@.cut_round_advanced(),
    {
        let closing = match self.state.closing {
            Some(closing) => closing,
            None => return None,
        };
        let epoch = closing.epoch;
        if closing.phase != RaiClosingPhase::ElectingCut || self.cut_hashes.contains_key(&epoch) {
            return None;
        }
        let source = match self.cut_rounds.get(&epoch) {
            Some(rounds) => match rounds.round(rounds.current_round()) {
                Some(state) => state.derive(),
                None => return None,
            },
            None => return None,
        };
        let fresh = match source {
            RaiCloseRoundResult::Pending => return None,
            RaiCloseRoundResult::Decided(_) => return None,
            RaiCloseRoundResult::LiveCarry(hash) => hash,
            RaiCloseRoundResult::Dead => {
                let obligations = match self.visible_obligations.get(&epoch) {
                    Some(obligations) => obligations.duplicate(),
                    None => return None,
                };
                self.close_cuts.insert(RaiCloseCut { epoch, obligations })
            },
        };
        let ghost stored = self@;
        proof {
            assert(old(self)@.offered_cut() == Some((fresh, stored)));
        }
        match self.cut_rounds.get_mut(&epoch) {
            None => None,
            Some(rounds) => {
                let (round, hash) = match rounds.next(fresh) {
                    RaiCloseRoundAction::StartFresh { round, hash } => (round, hash),
                    RaiCloseRoundAction::StartCarry { round, hash } => (round, hash),
                    RaiCloseRoundAction::Wait => {
                        return None;
                    },
                    RaiCloseRoundAction::Inert => {
                        return None;
                    },
                };
                add_preimage(rounds, round, hash);
                Some((rai_close_cut_root(epoch, round), hash))
            },
        }
    }

    /// Opens the next round of the record election once the votes stored for
    /// the current one allow it. A fresh candidate comes from the frontiers
    /// captured while draining: confirmation heights written since play no part.
    pub fn advance_close_record_round(
        &mut self,
        _confirmation_heights: &Vec<(Account, ConfirmationHeightInfo)>,
    ) -> (r: Option<(QualifiedRoot, BlockHash)>)
        ensures
            r == match old(self)@.next_record_round() {
                Some((round, hash)) => Some(
                    (election_root("RAI/CloseRecordId", old(self)@.state.closing->0.epoch, round), hash),
                ),
                None => None,
            },
            final(self)@ == old(self)@.record_round_advanced(),
    {
        let closing = match self.state.closing {
            Some(closing) => closing,
            None => return None,
        };
        let epoch = closing.epoch;
        if closing.phase != RaiClosingPhase::ElectingRecord || self.close_hashes.contains_key(&epoch) {
            return None;
        }
        let source = match self.record_rounds.get(&epoch) {
            Some(rounds) => match rounds.round(rounds.current_round()) {
                Some(state) => state.derive(),
                None => return None,
            },
            None => return None,
        };
        let fresh = match source {
            RaiCloseRoundResult::Pending => return None,
            RaiCloseRoundResult::Decided(_) => return None,
            RaiCloseRoundResult::LiveCarry(hash) => hash,
            RaiCloseRoundResult::Dead => {
                let previous = self.previous_close(epoch);
                let frontiers = match self.drain_frontiers.get(&epoch) {
                    Some(frontiers) => frontiers.duplicate(),
                    None => return None,
                };
                self.close_records.insert(RaiCloseRecord { epoch, previous, frontiers })
            },
        };
        let ghost stored = self@;
        proof {
            assert(old(self)@.offered_record() == Some((fresh, stored)));
        }
        match self.record_rounds.get_mut(&epoch) {
            None => None,
            Some(rounds) => {
                let (round, hash) = match rounds.next(fresh) {
                    RaiCloseRoundAction::StartFresh { round, hash } => (round, hash),
                    RaiCloseRoundAction::StartCarry { round, hash } => (round, hash),
                    RaiCloseRoundAction::Wait => {
                        return None;
                    },
                    RaiCloseRoundAction::Inert => {
                        return None;
                    },
                };
                add_preimage(rounds, round, hash);
                Some((rai_close_record_root(epoch, round), hash))
            },
        }
    }

    /// Derives the candidate of round zero after every obligation of the cut
    /// is settled. Records of the same close that came earlier become known in
    /// the round as well.
    pub fn begin_close_record(&mut self, committee: RepWeights) -> (r: Option<(QualifiedRoot, BlockHash)>)
        ensures
            r == if old(self)@.can_begin_record() {
                let record = old(self)@.local_record();
                Some((election_root("RAI/CloseRecordId", record.epoch, 0), record.hash()))
            } else {
                None
            },
            final(self)@ == if old(self)@.can_begin_record() {
                old(self)@.record_begun(committee@)
            } else {
                old(self)@
            },
    {
        let closing = match self.state.closing {
            Some(closing) => closing,
            None => return None,
        };
        let epoch = closing.epoch;
        let drained = match self.drains.get(&epoch) {
            Some(drain) => drain.is_complete(),
            None => false,
        };
        if closing.phase != RaiClosingPhase::Draining || !drained {
            return None;
        }
        let previous = self.previous_close(epoch);
        let frontiers = match self.drain_frontiers.get(&epoch) {
            Some(frontiers) => frontiers.duplicate(),
            None => return None,
        };
        let record = RaiCloseRecord { epoch, previous, frontiers };
        let hash = self.close_records.insert(record);
        self.close_record_committees.insert(hash, committee.duplicate());
        self.state.closing = Some(RaiClosingEpoch { epoch, phase: RaiClosingPhase::ElectingRecord });
        open_rounds(&mut self.record_rounds, RaiCloseKind::Record, epoch, hash);
        let versions = self.close_records.all();
        let ghost m = self@;
        let ghost hashes = ascending(m.close_records.dom());
        let ghost rivals = Epochs::rival_records(m.close_records, epoch, previous);
        let ghost rounds = m.record_rounds[epoch];
        proof {
            lemma_ascending(m.close_records.dom());
            assert(versions@.len() == versions.deep_view().len());
            assert(hashes.take(0).to_set().intersect(rivals) =~= Set::<BlockHash>::empty());
            lemma_no_preimages(rounds, 0, hashes.take(0).to_set().intersect(rivals));
            assert(with_default(
                m.close_record_committees,
                hashes.take(0).to_set().intersect(rivals),
                committee@,
            ) =~= m.close_record_committees);
            assert(m.record_rounds.insert(epoch, rounds) =~= m.record_rounds);
        }
        for i in 0..versions.len()
            invariant
                hashes == ascending(m.close_records.dom()),
                hashes.len() == versions@.len(),
                rivals == Epochs::rival_records(m.close_records, epoch, previous),
                names_records(m.close_records),
                forall|j: int| 0 <= j < hashes.len() ==> m.close_records.contains_key(#[trigger] hashes[j]),
                versions.deep_view() == hashes.map_values(|hash: BlockHash| m.close_records[hash]),
                m.record_rounds.contains_key(epoch),
                rounds == m.record_rounds[epoch],
                self@ == (Epochs {
                    record_rounds: m.record_rounds.insert(
                        epoch,
                        with_preimages(rounds, 0, hashes.take(i as int).to_set().intersect(rivals)),
                    ),
                    close_record_committees: with_default(
                        m.close_record_committees,
                        hashes.take(i as int).to_set().intersect(rivals),
                        committee@,
                    ),
                    ..m
                }),
        {
            let version = &versions[i];
            let ghost key = hashes[i as int];
            let ghost seen = hashes.take(i as int).to_set().intersect(rivals);
            proof {
                assert(version.deep_view() == versions.deep_view()[i as int]);
                assert(version.deep_view() == m.close_records[key]);
                lemma_take_set(hashes, i as int);
            }
            if version.epoch == epoch && version.previous == previous {
                let version_hash = version.hash();
                proof {
                    assert(version_hash == key);
                    assert(hashes.take(i + 1).to_set().intersect(rivals) =~= seen.insert(key));
                    lemma_one_more_preimage(rounds, 0, seen, key);
                }
                match self.record_rounds.get_mut(&epoch) {
                    Some(tracker) => {
                        add_preimage(tracker, 0, version_hash);
                    },
                    None => {},
                }
                if !self.close_record_committees.contains_key(&version_hash) {
                    self.close_record_committees.insert(version_hash, committee.duplicate());
                }
                proof {
                    assert(self@.record_rounds =~= m.record_rounds.insert(
                        epoch,
                        with_preimages(rounds, 0, seen.insert(key)),
                    ));
                    assert(self@.close_record_committees =~= with_default(
                        m.close_record_committees,
                        seen.insert(key),
                        committee@,
                    ));
                }
            } else {
                proof {
                    assert(hashes.take(i + 1).to_set().intersect(rivals) =~= seen);
                }
            }
        }
        proof {
            assert(hashes.take(hashes.len() as int) =~= hashes);
            assert(hashes.to_set().intersect(rivals) =~= rivals);
            assert(self@.record_rounds =~= old(self)@.record_begun(committee@).record_rounds);
            assert(self@.close_record_committees =~= old(self)@.record_begun(committee@).close_record_committees);
        }
        Some((rai_close_record_root(epoch, 0), hash))
    }

    /// The frontiers that installing the record would make durable.
    pub(crate) fn certified_frontiers(&self, epoch: RaiEpoch, round: u32, hash: BlockHash) -> (r: Result<
        RaiFrontierMap,
        CloseRecordDecisionError,
    >)
        requires
            !self@.close_hashes.contains_key(epoch),
        ensures
            match r {
                Ok(frontiers) => {
                    &&& self@.install_error(epoch, round, hash) is None
                    &&& frontiers@ == self@.close_records[hash].frontiers
                },
                Err(error) => self@.install_error(epoch, round, hash) == Some(error),
            },
    {
        let electing = match self.state.closing {
            Some(closing) => closing.epoch == epoch && closing.phase == RaiClosingPhase::ElectingRecord,
            None => false,
        };
        if !electing {
            return Err(CloseRecordDecisionError::WrongPhase);
        }
        let record = match self.close_records.get(&hash) {
            Some(record) => record,
            None => return Err(CloseRecordDecisionError::MissingPreimage),
        };
        let previous = self.previous_close(epoch);
        let local_frontiers = match self.drain_frontiers.get(&epoch) {
            Some(frontiers) => frontiers,
            None => return Err(CloseRecordDecisionError::MissingPreimage),
        };
        let known = self.close_record_committees.contains_key(&hash);
        if record.epoch != epoch || record.previous != previous || record.hash() != hash
            || (!record.frontiers.agrees(local_frontiers) && !known) {
            return Err(CloseRecordDecisionError::InvalidRecord);
        }
        if !known {
            return Err(CloseRecordDecisionError::MissingPreimage);
        }
        match self.record_rounds.get(&epoch) {
            Some(tracker) => {
                let mut probe = tracker.snapshot();
                if !probe.decide(round, hash) {
                    return Err(CloseRecordDecisionError::MissingPreimage);
                }
            },
            None => return Err(CloseRecordDecisionError::WrongPhase),
        }
        Ok(record.frontiers.duplicate())
    }

    /// Makes a validated close record the close of its epoch.
    pub(crate) fn publish_close(&mut self, epoch: RaiEpoch, round: u32, hash: BlockHash, frontiers: RaiFrontierMap)
        requires
            !old(self)@.close_hashes.contains_key(epoch),
            old(self)@.install_error(epoch, round, hash) is None,
            frontiers@ == old(self)@.close_records[hash].frontiers,
        ensures
            final(self)@ == old(self)@.installed(epoch, round, hash),
    {
        let ghost m = self@;
        let released = self.slots_to_release(epoch);
        match self.record_rounds.get_mut(&epoch) {
            Some(tracker) => {
                tracker.decide(round, hash);
            },
            None => {},
        }
        // The certificate, not this replica's provisional drain, selects the
        // durable frontiers.
        self.drain_frontiers.insert(epoch, frontiers);
        self.close_hashes.insert(epoch, hash);
        if !self.committees.contains_key(&epoch) {
            match self.close_record_committees.get(&hash) {
                Some(committee) => {
                    self.committees.insert(epoch, Arc::new(committee.duplicate()));
                },
                None => {},
            }
        }
        self.state.closed_through = Some(epoch);
        if let Some(drain) = self.drains.get_mut(&epoch) {
            merge_selected(drain);
        }
        self.release_slots(&released, RaiCertifiedRelease { close_epoch: epoch, close_record_hash: hash });
        self.state.closing = None;
        proof {
            let n = m.installed(epoch, round, hash);
            assert(self@.committees =~= n.committees);
            assert(self@.drains =~= n.drains);
            assert(self@.record_rounds =~= n.record_rounds);
        }
    }

    fn slots_to_release(&self, epoch: RaiEpoch) -> (r: SortedSet<RaiSlotId>)
        ensures
            r@ == self@.releases(epoch),
    {
        let mut released: SortedSet<RaiSlotId> = SortedSet::new();
        let list = self.known_slots.to_vec();
        let ghost all = self@.releases(epoch);
        proof {
            lemma_ascending(self.known_slots@);
        }
        for i in 0..list.len()
            invariant
                all == self@.releases(epoch),
                list@ == ascending(self.known_slots@),
                forall|j: int| 0 <= j < list@.len() ==> self.known_slots@.contains(#[trigger] list@[j]),
                released@ == list@.take(i as int).to_set().intersect(all),
        {
            let slot = list[i];
            let drained = match self.drains.get(&epoch) {
                Some(drain) => drain.released.contains_key(&slot),
                None => false,
            };
            let included = match self.frozen_obligations.get(&slot.epoch) {
                Some(included) => included.contains(&slot),
                None => false,
            };
            proof {
                lemma_take_set(list@, i as int);
                assert(self.known_slots@.contains(list@[i as int]));
            }
            if slot.epoch.number() <= epoch.number() && (drained || !included) && !self.released_slots.contains_key(
                &slot,
            ) {
                released.insert(slot);
            }
            proof {
                assert(released@ =~= list@.take(i + 1).to_set().intersect(all));
            }
        }
        proof {
            assert(list@.take(list@.len() as int) =~= list@);
            assert(released@ =~= all);
        }
        released
    }

    fn release_slots(&mut self, slots: &SortedSet<RaiSlotId>, release: RaiCertifiedRelease)
        requires
            forall|slot: RaiSlotId| #[trigger]
                slots@.contains(slot) ==> !old(self)@.released_slots.contains_key(slot),
        ensures
            final(self)@ == (Epochs {
                released_slots: with_default(old(self)@.released_slots, slots@, release),
                unresolved_epochs_by_root: without_slots(old(self)@.unresolved_epochs_by_root, slots@),
                ..old(self)@
            }),
    {
        let list = slots.to_vec();
        let ghost m = self@;
        proof {
            lemma_ascending(slots@);
            lemma_without_none(m.unresolved_epochs_by_root, list@.take(0).to_set());
            assert(with_default(m.released_slots, list@.take(0).to_set(), release) =~= m.released_slots);
        }
        for i in 0..list.len()
            invariant
                m == old(self)@,
                list@ == ascending(slots@),
                list@.no_duplicates(),
                self@ == (Epochs {
                    released_slots: with_default(m.released_slots, list@.take(i as int).to_set(), release),
                    unresolved_epochs_by_root: without_slots(
                        m.unresolved_epochs_by_root,
                        list@.take(i as int).to_set(),
                    ),
                    ..m
                }),
                forall|j: int| 0 <= j < list@.len() ==> !m.released_slots.contains_key(#[trigger] list@[j]),
        {
            let slot = list[i];
            let ghost seen = list@.take(i as int).to_set();
            proof {
                lemma_take_distinct(list@, i as int);
                assert(!m.released_slots.contains_key(list@[i as int]));
            }
            let ghost before = self.unresolved_epochs_by_root@;
            self.released_slots.insert(slot, release);
            let mut emptied = false;
            if let Some(epochs) = self.unresolved_epochs_by_root.get_mut(&slot.root) {
                epochs.remove(&slot.epoch);
                emptied = epochs.is_empty();
            }
            if emptied {
                self.unresolved_epochs_by_root.remove(&slot.root);
            }
            proof {
                let left = before[slot.root].remove(slot.epoch);
                assert(before.insert(slot.root, left).remove(slot.root) =~= before.remove(slot.root));
                lemma_without_one(m.unresolved_epochs_by_root, seen, slot, before, self.unresolved_epochs_by_root@);
                assert(self@.released_slots =~= with_default(m.released_slots, seen.insert(slot), release));
            }
        }
        proof {
            assert(list@.take(list@.len() as int) =~= list@);
        }
    }

    /// Installs a close record that the epoch's own committee certified.
    pub fn install_close_record(&mut self, epoch: RaiEpoch, round: u32, hash: BlockHash) -> (r: Result<
        &RaiFrontierMap,
        CloseRecordDecisionError,
    >)
        ensures
            match r {
                Ok(frontiers) => {
                    &&& old(self)@.close_committee(epoch) is Some
                    &&& old(self)@.install_error(epoch, round, hash) is None
                    &&& final(self)@ == if old(self)@.is_installed(epoch, hash) {
                        old(self)@
                    } else {
                        old(self)@.installed(epoch, round, hash)
                    }
                    &&& frontiers@ == old(self)@.close_records[hash].frontiers
                },
                Err(error) => {
                    &&& Some(error) == if old(self)@.close_committee(epoch) is None {
                        Some(CloseRecordDecisionError::MissingPreimage)
                    } else {
                        old(self)@.install_error(epoch, round, hash)
                    }
                    &&& final(self)@ == old(self)@
                },
            },
    {
        let certified_weights = match self.close_committee(epoch) {
            Some(committee) => committee.duplicate(),
            None => return Err(CloseRecordDecisionError::MissingPreimage),
        };
        self.install_certified_close_record(epoch, round, hash, certified_weights)
    }

    pub fn install_certified_close_record(
        &mut self,
        epoch: RaiEpoch,
        round: u32,
        hash: BlockHash,
        _certified_weights: RepWeights,
    ) -> (r: Result<&RaiFrontierMap, CloseRecordDecisionError>)
        ensures
            match r {
                Ok(frontiers) => {
                    &&& old(self)@.install_error(epoch, round, hash) is None
                    &&& final(self)@ == if old(self)@.is_installed(epoch, hash) {
                        old(self)@
                    } else {
                        old(self)@.installed(epoch, round, hash)
                    }
                    &&& frontiers@ == old(self)@.close_records[hash].frontiers
                },
                Err(error) => {
                    &&& old(self)@.install_error(epoch, round, hash) == Some(error)
                    &&& final(self)@ == old(self)@
                },
            },
    {
        if let Some(existing) = lookup_hash(&self.close_hashes, epoch) {
            return self.installed_frontiers(existing, hash);
        }
        let frontiers = match self.certified_frontiers(epoch, round, hash) {
            Ok(frontiers) => frontiers,
            Err(error) => return Err(error),
        };
        self.publish_close(epoch, round, hash, frontiers);
        match self.close_records.get(&hash) {
            Some(record) => Ok(&record.frontiers),
            None => Err(CloseRecordDecisionError::MissingPreimage),
        }
    }

    fn installed_frontiers(&self, existing: BlockHash, hash: BlockHash) -> (r: Result<
        &RaiFrontierMap,
        CloseRecordDecisionError,
    >)
        ensures
            match r {
                Ok(frontiers) => {
                    &&& existing == hash
                    &&& self@.close_records.contains_key(hash)
                    &&& frontiers@ == self@.close_records[hash].frontiers
                },
                Err(error) => error == if existing != hash {
                    CloseRecordDecisionError::ImmutableDecision
                } else {
                    CloseRecordDecisionError::MissingPreimage
                } && (existing != hash || !self@.close_records.contains_key(hash)),
            },
    {
        if existing != hash {
            return Err(CloseRecordDecisionError::ImmutableDecision);
        }
        match self.close_records.get(&hash) {
            Some(record) => Ok(&record.frontiers),
            None => Err(CloseRecordDecisionError::MissingPreimage),
        }
    }

    /// Installs a certified close record only after `commit` has made its
    /// frontiers durable. `commit` runs before anything of the close is
    /// published; if it fails, the same certificate can be tried again. It runs
    /// only for a record that can be installed and is not yet, and on the
    /// frontiers of that record: nothing else of it is asked for.
    pub fn install_certified_close_record_after<F: FnOnce(RaiEpoch, &RaiFrontierMap) -> bool>(
        &mut self,
        epoch: RaiEpoch,
        round: u32,
        hash: BlockHash,
        _certified_weights: RepWeights,
        commit: F,
    ) -> (r: Result<&RaiFrontierMap, CloseRecordDecisionError>)
        requires
            old(self)@.awaits_commit(epoch, round, hash) ==> forall|frontiers: &RaiFrontierMap|
                frontiers@ == old(self)@.close_records[hash].frontiers ==> #[trigger] call_requires(
                    commit,
                    (epoch, frontiers),
                ),
        ensures
            match r {
                Ok(frontiers) => {
                    &&& old(self)@.install_error(epoch, round, hash) is None
                    &&& frontiers@ == old(self)@.close_records[hash].frontiers
                    &&& if old(self)@.is_installed(epoch, hash) {
                        final(self)@ == old(self)@
                    } else {
                        &&& old(self)@.awaits_commit(epoch, round, hash)
                        &&& final(self)@ == old(self)@.installed(epoch, round, hash)
                        &&& exists|committed: &RaiFrontierMap|
                            committed@ == old(self)@.close_records[hash].frontiers && call_ensures(
                                commit,
                                (epoch, committed),
                                true,
                            )
                    }
                },
                Err(error) => {
                    &&& final(self)@ == old(self)@
                    &&& match old(self)@.install_error(epoch, round, hash) {
                        Some(expected) => error == expected,
                        None => {
                            &&& error == CloseRecordDecisionError::LedgerCommitFailed
                            &&& old(self)@.awaits_commit(epoch, round, hash)
                            &&& exists|committed: &RaiFrontierMap|
                                committed@ == old(self)@.close_records[hash].frontiers && call_ensures(
                                    commit,
                                    (epoch, committed),
                                    false,
                                )
                        },
                    }
                },
            },
    {
        if let Some(existing) = lookup_hash(&self.close_hashes, epoch) {
            return self.installed_frontiers(existing, hash);
        }
        let frontiers = match self.certified_frontiers(epoch, round, hash) {
            Ok(frontiers) => frontiers,
            Err(error) => return Err(error),
        };
        if !commit(epoch, &frontiers) {
            return Err(CloseRecordDecisionError::LedgerCommitFailed);
        }
        self.publish_close(epoch, round, hash, frontiers);
        match self.close_records.get(&hash) {
            Some(record) => Ok(&record.frontiers),
            None => Err(CloseRecordDecisionError::MissingPreimage),
        }
    }
}

fn merge_selected(drain: &mut RaiHappyPathDrain)
    ensures
        final(drain).deep_view() == old(drain).deep_view().certified(),
{
    let ghost d = drain.deep_view();
    let slots = drain.selected.keys_vec();
    proof {
        lemma_ascending(d.selected.dom());
        assert(d.finalized.union_prefer_right(d.selected.restrict(slots@.take(0).to_set())) =~= d.finalized);
    }
    for i in 0..slots.len()
        invariant
            slots@ == ascending(d.selected.dom()),
            forall|j: int| 0 <= j < slots@.len() ==> d.selected.contains_key(#[trigger] slots@[j]),
            drain.deep_view() == (Drain {
                finalized: d.finalized.union_prefer_right(d.selected.restrict(slots@.take(i as int).to_set())),
                ..d
            }),
    {
        let slot = slots[i];
        proof {
            lemma_take_set(slots@, i as int);
            assert(d.selected.contains_key(slots@[i as int]));
        }
        if let Some(hash) = drain.selected.get(&slot) {
            let hash = *hash;
            drain.finalized.insert(slot, hash);
        }
        proof {
            assert(drain.finalized@ =~= d.finalized.union_prefer_right(
                d.selected.restrict(slots@.take(i + 1).to_set()),
            ));
        }
    }
    drain.selected = SortedMap::new();
    proof {
        assert(slots@.take(slots@.len() as int) =~= slots@);
        assert(d.selected.restrict(slots@.to_set()) =~= d.selected);
    }
}

proof fn lemma_no_preimages(rounds: CloseRounds, round: u32, none: Set<BlockHash>)
    requires
        none == Set::<BlockHash>::empty(),
    ensures
        with_preimages(rounds, round, none) == rounds,
{
    if rounds.rounds.contains_key(round) {
        let state = rounds.rounds[round];
        assert(state.candidates.union(none) =~= state.candidates);
        assert(state.validated_preimages.union(none) =~= state.validated_preimages);
        assert(rounds.rounds.insert(round, state) =~= rounds.rounds);
    }
}

proof fn lemma_one_more_preimage(rounds: CloseRounds, round: u32, hashes: Set<BlockHash>, hash: BlockHash)
    ensures
        with_preimages(with_preimages(rounds, round, hashes), round, set![hash]) == with_preimages(
            rounds,
            round,
            hashes.insert(hash),
        ),
{
    if rounds.rounds.contains_key(round) {
        let a = with_preimages(with_preimages(rounds, round, hashes), round, set![hash]);
        let b = with_preimages(rounds, round, hashes.insert(hash));
        assert(a.rounds[round].candidates =~= b.rounds[round].candidates);
        assert(a.rounds[round].validated_preimages =~= b.rounds[round].validated_preimages);
        assert(a.rounds =~= b.rounds);
    }
}

proof fn lemma_without_none(u: Map<QualifiedRoot, Set<RaiEpoch>>, none: Set<RaiSlotId>)
    requires
        forall|slot: RaiSlotId| !none.contains(slot),
    ensures
        without_slots(u, none) == u,
{
    let w = without_slots(u, none);
    assert forall|root: QualifiedRoot| w.contains_key(root) implies w[root] == u[root] by {
        assert(w[root] =~= u[root]);
    }
    assert(w =~= u);
}

proof fn lemma_without_one(
    u: Map<QualifiedRoot, Set<RaiEpoch>>,
    slots: Set<RaiSlotId>,
    slot: RaiSlotId,
    before: Map<QualifiedRoot, Set<RaiEpoch>>,
    after: Map<QualifiedRoot, Set<RaiEpoch>>,
)
    requires
        !slots.contains(slot),
        before == without_slots(u, slots),
        after == if !before.contains_key(slot.root) {
            before
        } else if before[slot.root].remove(slot.epoch) == Set::<RaiEpoch>::empty() {
            before.remove(slot.root)
        } else {
            before.insert(slot.root, before[slot.root].remove(slot.epoch))
        },
    ensures
        after == without_slots(u, slots.insert(slot)),
{
    let more = slots.insert(slot);
    let w = without_slots(u, more);
    assert forall|root: QualifiedRoot| w.contains_key(root) == after.contains_key(root) by {
        let left = u[root].filter(|epoch: RaiEpoch| !slots.contains(RaiSlotId { epoch, root }));
        let less = u[root].filter(|epoch: RaiEpoch| !more.contains(RaiSlotId { epoch, root }));
        if root == slot.root {
            assert(more.contains(slot));
            assert(less =~= left.remove(slot.epoch));
            if !before.contains_key(root) && u.contains_key(root) {
                assert(less =~= Set::<RaiEpoch>::empty());
            }
        } else {
            assert(less =~= left);
            if forall|s: RaiSlotId| #[trigger] slots.contains(s) ==> s.root != root {
                assert forall|s: RaiSlotId| #[trigger] more.contains(s) implies s.root != root by {
                    if s != slot {
                        assert(slots.contains(s));
                    }
                }
            } else {
                let s = choose|s: RaiSlotId| #[trigger] slots.contains(s) && s.root == root;
                assert(more.contains(s));
            }
        }
    }
    assert forall|root: QualifiedRoot| w.contains_key(root) implies w[root] == after[root] by {
        assert(w[root] =~= after[root]);
    }
    assert(w =~= after);
}

/// The least that must be stored together when a close is installed. The
/// frontiers are part of it: they cannot be rebuilt from a ledger that has
/// moved on.
pub struct RaiDurableCloseState {
    pub epoch: RaiEpoch,
    pub close_hash: BlockHash,
    pub previous_close_hash: BlockHash,
    pub frontiers: RaiFrontierMap,
    pub committee: RepWeights,
    pub current_epoch: RaiEpoch,
    pub committees: SortedMap<RaiEpoch, RepWeights>,
    pub decided_cut_hash: BlockHash,
    pub frozen_obligations: SortedSet<RaiSlotId>,
}

/// The model of a stored close.
#[verifier::ext_equal]
pub struct DurableClose {
    pub epoch: RaiEpoch,
    pub close_hash: BlockHash,
    pub previous_close_hash: BlockHash,
    pub frontiers: Frontiers,
    pub committee: Weights,
    pub current_epoch: RaiEpoch,
    pub committees: Map<RaiEpoch, Weights>,
    pub decided_cut_hash: BlockHash,
    pub frozen_obligations: Set<RaiSlotId>,
}

impl DeepView for RaiDurableCloseState {
    type V = DurableClose;

    open spec fn deep_view(&self) -> DurableClose {
        DurableClose {
            epoch: self.epoch,
            close_hash: self.close_hash,
            previous_close_hash: self.previous_close_hash,
            frontiers: self.frontiers@,
            committee: self.committee@,
            current_epoch: self.current_epoch,
            committees: self.committees@,
            decided_cut_hash: self.decided_cut_hash,
            frozen_obligations: self.frozen_obligations@,
        }
    }
}

impl Duplicate for RaiDurableCloseState {
    fn duplicate(&self) -> (r: Self) {
        RaiDurableCloseState {
            epoch: self.epoch,
            close_hash: self.close_hash,
            previous_close_hash: self.previous_close_hash,
            frontiers: self.frontiers.duplicate(),
            committee: self.committee.duplicate(),
            current_epoch: self.current_epoch,
            committees: self.committees.duplicate(),
            decided_cut_hash: self.decided_cut_hash,
            frozen_obligations: self.frozen_obligations.duplicate(),
        }
    }

    fn agrees(&self, other: &Self) -> (r: bool) {
        self.epoch == other.epoch && self.close_hash == other.close_hash && self.previous_close_hash
            == other.previous_close_hash && self.frontiers.agrees(&other.frontiers) && self.committee.agrees(
            &other.committee,
        ) && self.current_epoch == other.current_epoch && self.committees.agrees(&other.committees)
            && self.decided_cut_hash == other.decided_cut_hash && self.frozen_obligations.agrees(
            &other.frozen_obligations,
        )
    }
}

/// The stored image of a close in progress. Votes are kept; what follows from
/// them is derived again after a restart.
pub struct RaiDurableCloseRoundState {
    pub epoch: RaiEpoch,
    pub phase: RaiClosingPhase,
    pub cut_rounds: Option<RaiCloseRoundTracker>,
    pub record_rounds: Option<RaiCloseRoundTracker>,
    pub close_cuts: RaiCloseCutStore<RaiSlotId>,
    pub close_records: RaiCloseRecordStore,
    pub close_record_committees: SortedMap<BlockHash, RepWeights>,
    pub visible_obligations: Option<SortedSet<RaiSlotId>>,
}

/// The model of a stored close in progress.
#[verifier::ext_equal]
pub struct DurableRounds {
    pub epoch: RaiEpoch,
    pub phase: RaiClosingPhase,
    pub cut_rounds: Option<CloseRounds>,
    pub record_rounds: Option<CloseRounds>,
    pub close_cuts: Map<BlockHash, CloseCut<RaiSlotId>>,
    pub close_records: Map<BlockHash, CloseRecord>,
    pub close_record_committees: Map<BlockHash, Weights>,
    pub visible_obligations: Option<Set<RaiSlotId>>,
}

impl DeepView for RaiDurableCloseRoundState {
    type V = DurableRounds;

    open spec fn deep_view(&self) -> DurableRounds {
        DurableRounds {
            epoch: self.epoch,
            phase: self.phase,
            cut_rounds: self.cut_rounds.deep_view(),
            record_rounds: self.record_rounds.deep_view(),
            close_cuts: self.close_cuts@,
            close_records: self.close_records@,
            close_record_committees: self.close_record_committees@,
            visible_obligations: self.visible_obligations.deep_view(),
        }
    }
}

impl DurableClose {
    pub open spec fn record(self) -> CloseRecord {
        CloseRecord { epoch: self.epoch, previous: self.previous_close_hash, frontiers: self.frontiers }
    }
}

/// Whether stored rounds can be taken up: the current one is open.
pub open spec fn is_resumable(rounds: Option<CloseRounds>) -> bool {
    rounds matches Some(rounds) && rounds.rounds.contains_key(rounds.current_round)
}

impl Epochs {
    /// The close of an epoch as it is stored.
    pub open spec fn durable_close(self, epoch: RaiEpoch) -> Option<DurableClose> {
        if self.close_hashes.contains_key(epoch) && self.close_records.contains_key(self.close_hashes[epoch])
            && self.close_committee(epoch) is Some && self.cut_hashes.contains_key(epoch)
            && self.frozen_obligations.contains_key(epoch) {
            let record = self.close_records[self.close_hashes[epoch]];
            Some(
                DurableClose {
                    epoch,
                    close_hash: self.close_hashes[epoch],
                    previous_close_hash: record.previous,
                    frontiers: record.frontiers,
                    committee: self.close_committee(epoch)->0,
                    current_epoch: self.state.open_epoch,
                    committees: self.committees,
                    decided_cut_hash: self.cut_hashes[epoch],
                    frozen_obligations: self.frozen_obligations[epoch],
                },
            )
        } else {
            None
        }
    }

    /// Whether the stored close contradicts itself or a known close.
    pub open spec fn rejects_close(self, stored: DurableClose) -> Option<CloseRecordDecisionError> {
        if stored.record().hash() != stored.close_hash {
            Some(CloseRecordDecisionError::InvalidRecord)
        } else if self.close_hashes.contains_key(stored.epoch) && self.close_hashes[stored.epoch] != stored.close_hash {
            Some(CloseRecordDecisionError::ImmutableDecision)
        } else {
            None
        }
    }

    pub open spec fn adoption(self, stored: DurableClose) -> (Map<RaiEpoch, Weights>, bool) {
        adopted(self.committees, stored.committees, ascending(stored.committees.dom()))
    }

    pub open spec fn restore_error(self, stored: DurableClose) -> Option<CloseRecordDecisionError> {
        if self.rejects_close(stored) is Some {
            self.rejects_close(stored)
        } else if !self.adoption(stored).1 {
            Some(CloseRecordDecisionError::ImmutableDecision)
        } else {
            None
        }
    }

    /// The state after a stored close was read. Where a committee contradicts
    /// a known one, the close stands but the epochs do not advance.
    pub open spec fn restored(self, stored: DurableClose) -> Epochs {
        if self.rejects_close(stored) is Some {
            self
        } else {
            let (committees, ok) = self.adoption(stored);
            let closed = Epochs {
                close_records: with_record(self.close_records, stored.record()),
                close_hashes: self.close_hashes.insert(stored.epoch, stored.close_hash),
                cut_hashes: self.cut_hashes.insert(stored.epoch, stored.decided_cut_hash),
                frozen_obligations: self.frozen_obligations.insert(stored.epoch, stored.frozen_obligations),
                committees,
                ..self
            };
            if ok {
                Epochs {
                    state: RaiEpochState {
                        open_epoch: if stored.current_epoch.number >= self.state.open_epoch.number {
                            stored.current_epoch
                        } else {
                            self.state.open_epoch
                        },
                        closed_through: match self.state.closed_through {
                            Some(epoch) => if epoch.number > stored.epoch.number {
                                Some(epoch)
                            } else {
                                Some(stored.epoch)
                            },
                            None => Some(stored.epoch),
                        },
                        ..self.state
                    },
                    ..closed
                }
            } else {
                closed
            }
        }
    }

    /// The close in progress as it is stored, while an election runs.
    pub open spec fn durable_rounds(self) -> Option<DurableRounds> {
        match self.state.closing {
            Some(closing) => if closing.phase == RaiClosingPhase::ElectingCut || closing.phase
                == RaiClosingPhase::ElectingRecord {
                Some(
                    DurableRounds {
                        epoch: closing.epoch,
                        phase: closing.phase,
                        cut_rounds: lookup(self.cut_rounds, closing.epoch),
                        record_rounds: lookup(self.record_rounds, closing.epoch),
                        close_cuts: self.close_cuts,
                        close_records: self.close_records,
                        close_record_committees: self.close_record_committees,
                        visible_obligations: lookup(self.visible_obligations, closing.epoch),
                    },
                )
            } else {
                None
            },
            None => None,
        }
    }

    pub open spec fn rounds_error(stored: DurableRounds) -> Option<CloseRecordDecisionError> {
        if stored.phase != RaiClosingPhase::ElectingCut && stored.phase != RaiClosingPhase::ElectingRecord {
            Some(CloseRecordDecisionError::WrongPhase)
        } else if (stored.phase == RaiClosingPhase::ElectingCut && !is_resumable(stored.cut_rounds)) || (stored.phase
            == RaiClosingPhase::ElectingRecord && !is_resumable(stored.record_rounds)) {
            Some(CloseRecordDecisionError::MissingPreimage)
        } else if stored.epoch.number == u64::MAX {
            Some(CloseRecordDecisionError::InvalidRecord)
        } else {
            None
        }
    }

    pub open spec fn rounds_restored(self, stored: DurableRounds) -> Epochs {
        Epochs {
            state: RaiEpochState {
                open_epoch: RaiEpoch { number: (stored.epoch.number + 1) as u64 },
                closing: Some(RaiClosingEpoch { epoch: stored.epoch, phase: stored.phase }),
                ..self.state
            },
            close_cuts: stored.close_cuts,
            close_records: stored.close_records,
            close_record_committees: stored.close_record_committees,
            cut_rounds: if is_resumable(stored.cut_rounds) {
                self.cut_rounds.insert(stored.epoch, stored.cut_rounds->0)
            } else {
                self.cut_rounds
            },
            record_rounds: if is_resumable(stored.record_rounds) {
                self.record_rounds.insert(stored.epoch, stored.record_rounds->0)
            } else {
                self.record_rounds
            },
            visible_obligations: match stored.visible_obligations {
                Some(visible) => self.visible_obligations.insert(stored.epoch, visible),
                None => self.visible_obligations,
            },
            ..self
        }
    }

    /// The state once evidence for a slot was taken into account.
    pub open spec fn evidence_drained(
        self,
        epoch: RaiEpoch,
        slot: RaiSlotId,
        evidence: ElectionVotes,
        segment: Seq<(Account, ConfirmationHeightInfo)>,
    ) -> Epochs {
        if !self.drains.contains_key(epoch) {
            self
        } else {
            let drain = self.drains[epoch];
            let advances = drain.outcome(slot, evidence) matches Some(RaiDrainOutcome::Finalized(_)) || drain.outcome(
                slot,
                evidence,
            ) matches Some(RaiDrainOutcome::Selected(_));
            Epochs {
                drains: self.drains.insert(epoch, drain.with_evidence(slot, evidence)),
                drain_frontiers: if advances && self.drain_frontiers.contains_key(epoch) {
                    self.drain_frontiers.insert(epoch, raised_by(self.drain_frontiers[epoch], segment))
                } else {
                    self.drain_frontiers
                },
                ..self
            }
        }
    }

    /// The outcome that is reported for that evidence. Without captured
    /// frontiers, a block outcome is recorded but not reported.
    pub open spec fn drain_outcome(self, epoch: RaiEpoch, slot: RaiSlotId, evidence: ElectionVotes) -> Option<
        RaiDrainOutcome,
    > {
        if !self.drains.contains_key(epoch) {
            None
        } else {
            match self.drains[epoch].outcome(slot, evidence) {
                Some(RaiDrainOutcome::ReleasedTimeout) => Some(RaiDrainOutcome::ReleasedTimeout),
                Some(RaiDrainOutcome::ReleasedConflict) => Some(RaiDrainOutcome::ReleasedConflict),
                Some(outcome) => if self.drain_frontiers.contains_key(epoch) {
                    Some(outcome)
                } else {
                    None
                },
                None => None,
            }
        }
    }

    pub open spec fn accepts_notarized(self, epoch: RaiEpoch, slot: RaiSlotId, hash: BlockHash) -> bool {
        self.drains.contains_key(epoch) && self.drains[epoch].accepts_notarized(slot, hash)
    }

    pub open spec fn accepts_finalized(self, epoch: RaiEpoch, slot: RaiSlotId, hash: BlockHash) -> bool {
        self.drains.contains_key(epoch) && slot.epoch == epoch && self.drains[epoch].accepts_finalized(slot, hash)
    }

    /// The state with a drain replaced and its frontiers, if any, raised.
    pub open spec fn drain_advanced(
        self,
        epoch: RaiEpoch,
        drain: Drain,
        segment: Seq<(Account, ConfirmationHeightInfo)>,
    ) -> Epochs {
        Epochs {
            drains: self.drains.insert(epoch, drain),
            drain_frontiers: if self.drain_frontiers.contains_key(epoch) {
                self.drain_frontiers.insert(epoch, raised_by(self.drain_frontiers[epoch], segment))
            } else {
                self.drain_frontiers
            },
            ..self
        }
    }
}

impl RaiEpochManager {
    pub fn durable_close_state(&self, epoch: RaiEpoch) -> (r: Option<RaiDurableCloseState>)
        ensures
            match r {
                Some(stored) => self@.durable_close(epoch) == Some(stored.deep_view()),
                None => self@.durable_close(epoch) is None,
            },
    {
        let close_hash = match self.close_hashes.get(&epoch) {
            Some(hash) => *hash,
            None => return None,
        };
        let record = match self.close_records.get(&close_hash) {
            Some(record) => record,
            None => return None,
        };
        let committee = match self.close_committee(epoch) {
            Some(committee) => committee.duplicate(),
            None => return None,
        };
        let decided_cut_hash = match self.cut_hashes.get(&epoch) {
            Some(hash) => *hash,
            None => return None,
        };
        let frozen_obligations = match self.frozen_obligations.get(&epoch) {
            Some(obligations) => obligations.duplicate(),
            None => return None,
        };
        Some(
            RaiDurableCloseState {
                epoch,
                close_hash,
                previous_close_hash: record.previous,
                frontiers: record.frontiers.duplicate(),
                committee,
                current_epoch: self.state.open_epoch,
                committees: self.copied_committees(),
                decided_cut_hash,
                frozen_obligations,
            },
        )
    }

    fn copied_committees(&self) -> (r: SortedMap<RaiEpoch, RepWeights>)
        ensures
            r@ == self@.committees,
    {
        let mut copied: SortedMap<RaiEpoch, RepWeights> = SortedMap::new();
        let n: usize = self.committees.len();
        let ghost epochs = ascending(self.committees@.dom());
        proof {
            lemma_ascending(self.committees@.dom());
        }
        for i in 0..n
            invariant
                n == self.committees@.len(),
                n == epochs.len(),
                epochs == ascending(self.committees@.dom()),
                forall|j: int| 0 <= j < n ==> self.committees@.contains_key(#[trigger] epochs[j]),
                copied@ == self.committees@.restrict(epochs.take(i as int).to_set()),
        {
            let epoch = self.committees.key_at(i);
            copied.insert(epoch, self.committees.value_at(i).duplicate());
            proof {
                lemma_take_set(epochs, i as int);
                assert(copied@ =~= self.committees@.restrict(epochs.take(i + 1).to_set()));
            }
        }
        proof {
            assert(epochs.take(n as int) =~= epochs);
            assert(copied@ =~= self.committees@);
        }
        copied
    }

    /// Restores a close before votes are accepted after a restart.
    pub fn restore_close_state(&mut self, state: RaiDurableCloseState) -> (r: Result<(), CloseRecordDecisionError>)
        ensures
            match r {
                Ok(_) => old(self)@.restore_error(state.deep_view()) is None,
                Err(error) => old(self)@.restore_error(state.deep_view()) == Some(error),
            },
            final(self)@ == old(self)@.restored(state.deep_view()),
    {
        let record = RaiCloseRecord {
            epoch: state.epoch,
            previous: state.previous_close_hash,
            frontiers: state.frontiers.duplicate(),
        };
        proof {
            assert(record.deep_view() == state.deep_view().record());
        }
        if record.hash() != state.close_hash {
            return Err(CloseRecordDecisionError::InvalidRecord);
        }
        if let Some(existing) = lookup_hash(&self.close_hashes, state.epoch) {
            if existing != state.close_hash {
                return Err(CloseRecordDecisionError::ImmutableDecision);
            }
        }
        self.close_records.insert(record);
        self.close_hashes.insert(state.epoch, state.close_hash);
        self.cut_hashes.insert(state.epoch, state.decided_cut_hash);
        self.frozen_obligations.insert(state.epoch, state.frozen_obligations.duplicate());
        if !self.adopt_committees(&state.committees) {
            return Err(CloseRecordDecisionError::ImmutableDecision);
        }
        if state.current_epoch.number() >= self.state.open_epoch.number() {
            self.state.open_epoch = state.current_epoch;
        }
        self.state.closed_through = match self.state.closed_through {
            Some(epoch) => if epoch.number() > state.epoch.number() {
                Some(epoch)
            } else {
                Some(state.epoch)
            },
            None => Some(state.epoch),
        };
        Ok(())
    }

    fn adopt_committees(&mut self, committees: &SortedMap<RaiEpoch, RepWeights>) -> (r: bool)
        ensures
            ({
                let (after, ok) = adopted(old(self)@.committees, committees@, ascending(committees@.dom()));
                r == ok && final(self)@ == (Epochs { committees: after, ..old(self)@ })
            }),
    {
        let n: usize = committees.len();
        let ghost epochs = ascending(committees@.dom());
        let ghost ours = self@.committees;
        for i in 0..n
            invariant
                n == committees@.len(),
                n == epochs.len(),
                epochs == ascending(committees@.dom()),
                ours == old(self)@.committees,
                self@ == (Epochs { committees: self@.committees, ..old(self)@ }),
                adopted(ours, committees@, epochs.take(i as int)) == (self@.committees, true),
        {
            let epoch = committees.key_at(i);
            let theirs = committees.value_at(i);
            proof {
                assert(epochs.take(i + 1).drop_last() =~= epochs.take(i as int));
            }
            let same = match self.committees.get(&epoch) {
                Some(committee) => Some(committee.agrees(theirs)),
                None => None,
            };
            match same {
                None => {
                    self.committees.insert(epoch, Arc::new(theirs.duplicate()));
                },
                Some(true) => {},
                Some(false) => {
                    proof {
                        lemma_adoption_stops(ours, committees@, epochs, i + 1);
                    }
                    return false;
                },
            }
        }
        proof {
            assert(epochs.take(n as int) =~= epochs);
        }
        true
    }

    pub fn obligations_to_drain(&self, epoch: RaiEpoch) -> (r: Option<&SortedSet<RaiSlotId>>)
        ensures
            match r {
                Some(obligations) => lookup(self@.frozen_obligations, epoch) == Some(obligations@),
                None => !self@.frozen_obligations.contains_key(epoch),
            },
    {
        self.frozen_obligations.get(&epoch)
    }

    /// The obligations of a drain that are not settled, in order.
    pub fn unresolved_drain_obligations(&self, epoch: RaiEpoch) -> (r: Option<Vec<RaiSlotId>>)
        ensures
            match r {
                Some(slots) => self@.drains.contains_key(epoch) && slots@ == ascending(
                    self@.drains[epoch].obligations.filter(
                        |slot: RaiSlotId| !self@.drains[epoch].is_settled(slot),
                    ),
                ),
                None => !self@.drains.contains_key(epoch),
            },
    {
        match self.drains.get(&epoch) {
            Some(drain) => {
                let open = drain.obligations.difference(&drain.finalized.key_set()).difference(
                    &drain.selected.key_set(),
                ).difference(&drain.released.key_set());
                proof {
                    let d = self@.drains[epoch];
                    assert(open@ =~= d.obligations.filter(|slot: RaiSlotId| !d.is_settled(slot)));
                }
                Some(open.to_vec())
            },
            None => None,
        }
    }

    /// The obligations of a drain that the ledger may still finalize, in order.
    pub fn obligations_requiring_durable_check(&self, epoch: RaiEpoch) -> (r: Option<Vec<RaiSlotId>>)
        ensures
            match r {
                Some(slots) => self@.drains.contains_key(epoch) && slots@ == ascending(
                    self@.drains[epoch].obligations.filter(
                        |slot: RaiSlotId| !self@.drains[epoch].finalized.contains_key(slot),
                    ),
                ),
                None => !self@.drains.contains_key(epoch),
            },
    {
        match self.drains.get(&epoch) {
            Some(drain) => {
                let open = drain.obligations.difference(&drain.finalized.key_set());
                proof {
                    let d = self@.drains[epoch];
                    assert(open@ =~= d.obligations.filter(|slot: RaiSlotId| !d.finalized.contains_key(slot)));
                }
                Some(open.to_vec())
            },
            None => None,
        }
    }

    pub fn happy_path_drain(&self, epoch: RaiEpoch) -> (r: Option<&RaiHappyPathDrain>)
        ensures
            match r {
                Some(drain) => lookup(self@.drains, epoch) == Some(drain.deep_view()),
                None => !self@.drains.contains_key(epoch),
            },
    {
        self.drains.get(&epoch)
    }

    pub fn happy_path_drains(&self) -> (r: &SortedMap<RaiEpoch, RaiHappyPathDrain>)
        ensures
            r@ == self@.drains,
    {
        &self.drains
    }

    pub fn released_slots(&self) -> (r: &SortedMap<RaiSlotId, RaiCertifiedRelease>)
        ensures
            r@ == self@.released_slots,
    {
        &self.released_slots
    }

    pub fn certified_release(&self, slot: &RaiSlotId) -> (r: Option<&RaiCertifiedRelease>)
        ensures
            match r {
                Some(release) => lookup(self@.released_slots, *slot) == Some(*release),
                None => !self@.released_slots.contains_key(*slot),
            },
    {
        self.released_slots.get(slot)
    }

    /// After a cut, only included elections of the closing epoch remain
    /// enabled. An unrelated election in the successor remains enabled, but a
    /// retry of the same root waits until every earlier slot of it is released.
    pub fn slot_election_enabled(&self, epoch: RaiEpoch, root: &QualifiedRoot) -> (r: bool)
        ensures
            r == self@.slot_enabled(RaiSlotId { epoch, root: *root }),
    {
        let slot = RaiSlotId { epoch, root: *root };
        if self.released_slots.contains_key(&slot) {
            return false;
        }
        if let Some(epochs) = self.unresolved_epochs_by_root.get(root) {
            let count: usize = epochs.len();
            proof {
                lemma_ascending(epochs@);
            }
            if count > 0 {
                let oldest = epochs.at(0);
                if oldest.number() < epoch.number() {
                    proof {
                        assert(self@.unresolved_epochs_by_root[*root].contains(oldest));
                    }
                    return false;
                }
                proof {
                    let list = ascending(epochs@);
                    assert forall|older: RaiEpoch| epochs@.contains(older) implies older.number >= epoch.number by {
                        assert(list.contains(older));
                        let j = choose|j: int| 0 <= j < list.len() && list[j] == older;
                        if j > 0 {
                            assert(list[0].rank() < list[j].rank());
                        }
                    }
                }
            }
        }
        match self.state.closing {
            None => true,
            Some(closing) => closing.epoch != epoch || match self.frozen_obligations.get(&epoch) {
                Some(included) => included.contains(&slot),
                None => true,
            },
        }
    }

    /// Captures the certified state immediately before this epoch. The first
    /// capture stands.
    pub fn initialize_drain_frontiers(
        &mut self,
        epoch: RaiEpoch,
        base: Vec<(Account, ConfirmationHeightInfo)>,
    ) -> (r: bool)
        ensures
            r == (old(self)@.drains.contains_key(epoch) && !old(self)@.drain_frontiers.contains_key(epoch)),
            final(self)@ == if r {
                Epochs {
                    drain_frontiers: old(self)@.drain_frontiers.insert(epoch, collected(base@)),
                    ..old(self)@
                }
            } else {
                old(self)@
            },
    {
        if !self.drains.contains_key(&epoch) || self.drain_frontiers.contains_key(&epoch) {
            return false;
        }
        let record = RaiCloseRecord::new(epoch, BlockHash::zero(), base);
        self.drain_frontiers.insert(epoch, record.frontiers);
        true
    }

    /// Applies an epoch-local cemented segment after its vote certificate has
    /// been validated.
    pub fn record_drain_evidence(
        &mut self,
        epoch: RaiEpoch,
        slot: &RaiSlotId,
        evidence: &RaiElectionVoteState,
        segment: &Vec<(Account, ConfirmationHeightInfo)>,
    ) -> (r: Option<RaiDrainOutcome>)
        ensures
            r == old(self)@.drain_outcome(epoch, *slot, evidence.deep_view()),
            final(self)@ == old(self)@.evidence_drained(epoch, *slot, evidence.deep_view(), segment@),
    {
        let outcome = match self.drains.get_mut(&epoch) {
            Some(drain) => match drain.record_persistent_evidence(slot, evidence) {
                Some(outcome) => outcome,
                None => return None,
            },
            None => return None,
        };
        match outcome {
            RaiDrainOutcome::ReleasedTimeout => Some(outcome),
            RaiDrainOutcome::ReleasedConflict => Some(outcome),
            _ => match self.drain_frontiers.get_mut(&epoch) {
                Some(frontiers) => {
                    raise_frontiers(frontiers, segment);
                    Some(outcome)
                },
                None => None,
            },
        }
    }

    pub fn record_notarized_drain(
        &mut self,
        epoch: RaiEpoch,
        slot: &RaiSlotId,
        hash: BlockHash,
        segment: &Vec<(Account, ConfirmationHeightInfo)>,
    ) -> (r: Option<RaiDrainOutcome>)
        ensures
            r == if old(self)@.accepts_notarized(epoch, *slot, hash) && old(self)@.drain_frontiers.contains_key(epoch) {
                Some(RaiDrainOutcome::Selected(hash))
            } else {
                None
            },
            final(self)@ == if old(self)@.accepts_notarized(epoch, *slot, hash) {
                old(self)@.drain_advanced(epoch, old(self)@.drains[epoch].with_notarized(*slot, hash), segment@)
            } else {
                old(self)@
            },
    {
        let outcome = match self.drains.get_mut(&epoch) {
            Some(drain) => match drain.record_notarized(slot, hash) {
                Some(outcome) => outcome,
                None => {
                    proof {
                        assert(self@.drains =~= old(self)@.drains);
                    }
                    return None;
                },
            },
            None => return None,
        };
        match self.drain_frontiers.get_mut(&epoch) {
            Some(frontiers) => {
                raise_frontiers(frontiers, segment);
                Some(outcome)
            },
            None => None,
        }
    }

    /// Settles an obligation from the ledger's durable finalizations, which
    /// supersede what votes said before.
    pub fn record_finalized_drain(
        &mut self,
        epoch: RaiEpoch,
        slot: &RaiSlotId,
        hash: BlockHash,
        segment: &Vec<(Account, ConfirmationHeightInfo)>,
    ) -> (r: bool)
        ensures
            r == (old(self)@.accepts_finalized(epoch, *slot, hash) && old(self)@.drain_frontiers.contains_key(epoch)),
            final(self)@ == if old(self)@.accepts_finalized(epoch, *slot, hash) {
                old(self)@.drain_advanced(epoch, old(self)@.drains[epoch].with_finalized(*slot, hash), segment@)
            } else {
                old(self)@
            },
    {
        match self.drains.get_mut(&epoch) {
            Some(drain) => {
                let contradicted = match drain.finalized.get(slot) {
                    Some(existing) => *existing != hash,
                    None => false,
                };
                if slot.epoch != epoch || !drain.obligations.contains(slot) || contradicted {
                    proof {
                        assert(self@.drains =~= old(self)@.drains);
                    }
                    return false;
                }
                drain.selected.remove(slot);
                drain.released.remove(slot);
                drain.finalized.insert(*slot, hash);
            },
            None => return false,
        }
        match self.drain_frontiers.get_mut(&epoch) {
            Some(frontiers) => {
                raise_frontiers(frontiers, segment);
                true
            },
            None => false,
        }
    }

    pub fn drain_frontiers(&self, epoch: RaiEpoch) -> (r: Option<&RaiFrontierMap>)
        ensures
            match r {
                Some(frontiers) => lookup(self@.drain_frontiers, epoch) == Some(frontiers@),
                None => !self@.drain_frontiers.contains_key(epoch),
            },
    {
        self.drain_frontiers.get(&epoch)
    }

    pub fn durable_close_round_state(&self) -> (r: Option<RaiDurableCloseRoundState>)
        ensures
            match r {
                Some(stored) => self@.durable_rounds() == Some(stored.deep_view()),
                None => self@.durable_rounds() is None,
            },
    {
        let closing = match self.state.closing {
            Some(closing) => closing,
            None => return None,
        };
        if closing.phase != RaiClosingPhase::ElectingCut && closing.phase != RaiClosingPhase::ElectingRecord {
            return None;
        }
        let cut_rounds = match self.cut_rounds.get(&closing.epoch) {
            Some(rounds) => Some(rounds.snapshot()),
            None => None,
        };
        let record_rounds = match self.record_rounds.get(&closing.epoch) {
            Some(rounds) => Some(rounds.snapshot()),
            None => None,
        };
        let visible_obligations = match self.visible_obligations.get(&closing.epoch) {
            Some(visible) => Some(visible.duplicate()),
            None => None,
        };
        Some(
            RaiDurableCloseRoundState {
                epoch: closing.epoch,
                phase: closing.phase,
                cut_rounds,
                record_rounds,
                close_cuts: self.close_cuts.duplicate(),
                close_records: self.close_records.duplicate(),
                close_record_committees: self.close_record_committees.duplicate(),
                visible_obligations,
            },
        )
    }

    pub fn restore_close_round_state(&mut self, state: RaiDurableCloseRoundState) -> (r: Result<
        (),
        CloseRecordDecisionError,
    >)
        ensures
            match r {
                Ok(_) => {
                    &&& Epochs::rounds_error(state.deep_view()) is None
                    &&& final(self)@ == old(self)@.rounds_restored(state.deep_view())
                },
                Err(error) => {
                    &&& Epochs::rounds_error(state.deep_view()) == Some(error)
                    &&& final(self)@ == old(self)@
                },
            },
    {
        if state.phase != RaiClosingPhase::ElectingCut && state.phase != RaiClosingPhase::ElectingRecord {
            return Err(CloseRecordDecisionError::WrongPhase);
        }
        let cut = match state.cut_rounds {
            Some(rounds) => RaiCloseRoundTracker::from_snapshot(rounds),
            None => None,
        };
        let record = match state.record_rounds {
            Some(rounds) => RaiCloseRoundTracker::from_snapshot(rounds),
            None => None,
        };
        if (state.phase == RaiClosingPhase::ElectingCut && cut.is_none()) || (state.phase
            == RaiClosingPhase::ElectingRecord && record.is_none()) {
            return Err(CloseRecordDecisionError::MissingPreimage);
        }
        let next: u64 = match state.epoch.number().checked_add(1) {
            Some(next) => next,
            None => return Err(CloseRecordDecisionError::InvalidRecord),
        };
        self.state.open_epoch = RaiEpoch::new(next);
        self.state.closing = Some(RaiClosingEpoch { epoch: state.epoch, phase: state.phase });
        self.close_cuts = state.close_cuts;
        self.close_records = state.close_records;
        self.close_record_committees = state.close_record_committees;
        if let Some(rounds) = cut {
            self.cut_rounds.insert(state.epoch, rounds);
        }
        if let Some(rounds) = record {
            self.record_rounds.insert(state.epoch, rounds);
        }
        if let Some(visible) = state.visible_obligations {
            self.visible_obligations.insert(state.epoch, visible);
        }
        Ok(())
    }
}

/// Once a committee contradicts, further ones are not looked at.
proof fn lemma_adoption_stops(
    ours: Map<RaiEpoch, Weights>,
    theirs: Map<RaiEpoch, Weights>,
    epochs: Seq<RaiEpoch>,
    n: int,
)
    requires
        0 <= n <= epochs.len(),
        !adopted(ours, theirs, epochs.take(n)).1,
    ensures
        adopted(ours, theirs, epochs) == adopted(ours, theirs, epochs.take(n)),
    decreases epochs.len(),
{
    if n == epochs.len() {
        assert(epochs.take(n) =~= epochs);
    } else {
        assert(epochs.drop_last().take(n) =~= epochs.take(n));
        lemma_adoption_stops(ours, theirs, epochs.drop_last(), n);
    }
}

/// The index is exact from the start and stays so whenever slots become known,
/// a cut is decided or a close is installed.
pub proof fn index_stays_exact(m: Epochs, slots: Set<RaiSlotId>, epoch: RaiEpoch, round: u32, hash: BlockHash)
    requires
        m.index_is_exact(),
    ensures
        Epochs::genesis(m.genesis_committee, m.genesis_governing_hash).index_is_exact(),
        m.with_known(slots).index_is_exact(),
        m.cut_decided(epoch, round, hash).index_is_exact(),
        m.installed(epoch, round, hash).index_is_exact(),
{
    lemma_known_index(m, slots);
    lemma_known_index(m, m.close_cuts[hash].obligations);
    let c = m.cut_decided(epoch, round, hash);
    assert forall|slot: RaiSlotId| #[trigger] c.is_unresolved(slot) == (c.known_slots.contains(slot)
        && !c.released_slots.contains_key(slot)) by {
        if !m.cut_hashes.contains_key(epoch) {
            let k = m.with_known(m.close_cuts[hash].obligations);
            assert(c.is_unresolved(slot) == k.is_unresolved(slot));
        } else {
            assert(c.is_unresolved(slot) == m.is_unresolved(slot));
        }
    }
    let n = m.installed(epoch, round, hash);
    let released = m.releases(epoch);
    assert forall|slot: RaiSlotId| #[trigger] n.is_unresolved(slot) == (n.known_slots.contains(slot)
        && !n.released_slots.contains_key(slot)) by {
        let u = m.unresolved_epochs_by_root;
        let w = n.unresolved_epochs_by_root;
        let root = slot.root;
        let left = u[root].filter(|e: RaiEpoch| !released.contains(RaiSlotId { epoch: e, root }));
        assert(slot == RaiSlotId { epoch: slot.epoch, root });
        assert(m.is_unresolved(slot) == (m.known_slots.contains(slot) && !m.released_slots.contains_key(slot)));
        if m.is_unresolved(slot) && !released.contains(slot) {
            assert(left.contains(slot.epoch));
            assert(left != Set::<RaiEpoch>::empty());
        }
    }
}

proof fn lemma_known_index(m: Epochs, slots: Set<RaiSlotId>)
    requires
        m.index_is_exact(),
    ensures
        m.with_known(slots).index_is_exact(),
{
    let n = m.with_known(slots);
    let locked = m.newly_locked(slots);
    assert forall|slot: RaiSlotId| #[trigger] n.is_unresolved(slot) == (n.known_slots.contains(slot)
        && !n.released_slots.contains_key(slot)) by {
        let root = slot.root;
        let added = Set::new(|e: RaiEpoch| locked.contains(RaiSlotId { epoch: e, root }));
        assert(slot == RaiSlotId { epoch: slot.epoch, root });
        assert(m.is_unresolved(slot) == (m.known_slots.contains(slot) && !m.released_slots.contains_key(slot)));
        if locked.contains(slot) {
            assert(added.contains(slot.epoch));
        }
    }
}

/// A retry waits: an enabled election has no earlier slot of the same root that
/// is known and not released.
pub proof fn retry_waits_for_release(m: Epochs, slot: RaiSlotId, earlier: RaiSlotId)
    requires
        m.index_is_exact(),
        m.slot_enabled(slot),
        m.known_slots.contains(earlier),
        earlier.root == slot.root,
        earlier.epoch.number < slot.epoch.number,
    ensures
        m.released_slots.contains_key(earlier),
{
    if !m.released_slots.contains_key(earlier) {
        assert(m.is_unresolved(earlier));
        assert(m.unresolved_epochs_by_root[slot.root].contains(earlier.epoch));
    }
}

/// Only a certified close releases: an old slot that no cut includes, or that
/// the drain released, is released by the close of its epoch and never runs
/// again, while an included slot with a block outcome stays locked.
pub proof fn certified_close_releases(m: Epochs, epoch: RaiEpoch, round: u32, hash: BlockHash, slot: RaiSlotId)
    requires
        m.known_slots.contains(slot),
        !m.released_slots.contains_key(slot),
        slot.epoch.number <= epoch.number,
    ensures
        ({
            let n = m.installed(epoch, round, hash);
            let included = m.frozen_obligations.contains_key(slot.epoch) && m.frozen_obligations[slot.epoch].contains(
                slot,
            );
            let drained = m.drains.contains_key(epoch) && m.drains[epoch].released.contains_key(slot);
            &&& n.released_slots.contains_key(slot) == (!included || drained)
            &&& n.released_slots.contains_key(slot) ==> {
                &&& n.released_slots[slot] == (RaiCertifiedRelease {
                    close_epoch: epoch,
                    close_record_hash: hash,
                })
                &&& !n.slot_enabled(slot)
            }
        }),
{
}

/// A decided cut is immutable: the same value is acknowledged without change,
/// any other is refused.
pub proof fn decided_cut_is_immutable(m: Epochs, epoch: RaiEpoch, round: u32, hash: BlockHash, later: u32, other: BlockHash)
    requires
        m.cut_error(epoch, round, hash) is None,
    ensures
        ({
            let n = m.cut_decided(epoch, round, hash);
            &&& n.cut_hashes[epoch] == hash
            &&& n.cut_error(epoch, later, hash) is None
            &&& n.cut_decided(epoch, later, hash) == n
            &&& other != hash ==> n.cut_error(epoch, later, other) == Some(CloseCutDecisionError::ImmutableDecision)
        }),
{
}

/// An installed close is immutable: the same value is acknowledged without
/// change, any other is refused, and nothing is committed for either.
pub proof fn installed_close_is_immutable(
    m: Epochs,
    epoch: RaiEpoch,
    round: u32,
    hash: BlockHash,
    later: u32,
    other: BlockHash,
)
    requires
        !m.close_hashes.contains_key(epoch),
        m.install_error(epoch, round, hash) is None,
    ensures
        ({
            let n = m.installed(epoch, round, hash);
            &&& n.is_installed(epoch, hash)
            &&& n.install_error(epoch, later, hash) is None
            &&& other != hash ==> n.install_error(epoch, later, other) == Some(
                CloseRecordDecisionError::ImmutableDecision,
            )
            &&& !n.awaits_commit(epoch, later, hash)
            &&& !n.awaits_commit(epoch, later, other)
            &&& n.state.closing is None
            &&& n.state.closed_through == Some(epoch)
        }),
{
}

/// A cut that could be decided stays decidable when visibility grows and the
/// replica prefers another one by now.
pub proof fn certified_cut_survives_refresh(
    m: Epochs,
    epoch: RaiEpoch,
    round: u32,
    hash: BlockHash,
    fresh_round: u32,
    visible: Set<RaiSlotId>,
)
    requires
        m.cut_error(epoch, round, hash) is None,
        !m.cut_hashes.contains_key(epoch),
    ensures
        m.cut_refreshed(epoch, fresh_round, visible).cut_error(epoch, round, hash) is None,
{
}

/// A refresh of the cut preference: the cut of all that is visible by now is
/// known under the returned hash and in the round, and round and phase stay. A
/// repeat with the same visibility has nothing to refresh. This is so unless
/// another known cut has the same digest.
pub proof fn refreshed_cut_is_known(m: Epochs, epoch: RaiEpoch, round: u32, visible: Set<RaiSlotId>)
    requires
        m.can_refresh_cut(epoch, round, visible),
        m.cut_rounds.contains_key(epoch),
        m.cut_rounds[epoch].rounds.contains_key(round),
        ({
            let cut = m.cut_for(epoch, visible);
            m.close_cuts.contains_key(cut.hash()) ==> m.close_cuts[cut.hash()] == cut
        }),
    ensures
        ({
            let cut = m.cut_for(epoch, visible);
            let after = m.cut_refreshed(epoch, round, visible);
            &&& cut.epoch == epoch
            &&& cut.obligations == m.visible(epoch, visible)
            &&& after.close_cuts.contains_key(cut.hash()) && after.close_cuts[cut.hash()] == cut
            &&& after.cut_rounds[epoch].rounds[round].validated_preimages.contains(cut.hash())
            &&& after.cut_rounds[epoch].current_round == m.cut_rounds[epoch].current_round
            &&& after.state == m.state
            &&& !after.can_refresh_cut(epoch, round, visible)
        }),
{
}

/// A drained frontier depends on what was captured and on the segments of the
/// epoch's own obligations alone: nothing else changes it while draining.
pub proof fn release_never_advances_frontier(
    m: Epochs,
    epoch: RaiEpoch,
    slot: RaiSlotId,
    evidence: ElectionVotes,
    segment: Seq<(Account, ConfirmationHeightInfo)>,
)
    requires
        m.drain_outcome(epoch, slot, evidence) == Some(RaiDrainOutcome::ReleasedTimeout) || m.drain_outcome(
            epoch,
            slot,
            evidence,
        ) == Some(RaiDrainOutcome::ReleasedConflict),
        m.drains.contains_key(epoch),
        m.drains[epoch].well_formed(),
    ensures
        m.evidence_drained(epoch, slot, evidence, segment).drain_frontiers == m.drain_frontiers,
{
}

/// What was stored of a close restores it: a fresh manager has the same close,
/// cut, obligations and committees, and a valid store is never refused.
pub proof fn stored_close_restores(m: Epochs, epoch: RaiEpoch, committee: Weights, governing_hash: BlockHash)
    requires
        m.committees.dom().finite(),
        names_records(m.close_records),
        m.durable_close(epoch) is Some,
        m.close_records[m.close_hashes[epoch]].epoch == epoch,
    ensures
        ({
            let stored = m.durable_close(epoch)->0;
            let fresh = Epochs::genesis(committee, governing_hash);
            let n = fresh.restored(stored);
            &&& fresh.restore_error(stored) is None
            &&& n.close_hashes[epoch] == m.close_hashes[epoch]
            &&& n.close_records[n.close_hashes[epoch]] == m.close_records[m.close_hashes[epoch]]
            &&& n.cut_hashes[epoch] == m.cut_hashes[epoch]
            &&& n.frozen_obligations[epoch] == m.frozen_obligations[epoch]
            &&& n.committees == m.committees
            &&& n.state.open_epoch == m.state.open_epoch
            &&& n.state.closed_through == Some(epoch)
        }),
{
    let stored = m.durable_close(epoch)->0;
    let epochs = ascending(m.committees.dom());
    lemma_ascending(m.committees.dom());
    assert(stored.record() =~= m.close_records[m.close_hashes[epoch]]);
    lemma_adopt_all(m.committees, epochs);
    assert(m.committees.restrict(epochs.to_set()) =~= m.committees);
}

proof fn lemma_adopt_all(theirs: Map<RaiEpoch, Weights>, epochs: Seq<RaiEpoch>)
    requires
        epochs.no_duplicates(),
        forall|i: int| 0 <= i < epochs.len() ==> theirs.contains_key(#[trigger] epochs[i]),
    ensures
        adopted(Map::empty(), theirs, epochs) == (theirs.restrict(epochs.to_set()), true),
    decreases epochs.len(),
{
    let none = Map::<RaiEpoch, Weights>::empty();
    if epochs.len() == 0 {
        assert(theirs.restrict(epochs.to_set()) =~= none);
    } else {
        let n = epochs.len() - 1;
        let init = epochs.drop_last();
        lemma_adopt_all(theirs, init);
        lemma_take_distinct(epochs, n);
        assert(epochs.take(n) =~= init);
        assert(epochs.take(n + 1) =~= epochs);
        assert(theirs.restrict(init.to_set()).insert(epochs.last(), theirs[epochs.last()]) =~= theirs.restrict(
            epochs.to_set(),
        ));
    }
}

/// What was stored of a close in progress resumes it: the same epoch is closing
/// in the same phase, and the rounds, their votes and all known contents are back.
pub proof fn stored_rounds_resume(m: Epochs, n: Epochs)
    requires
        m.durable_rounds() is Some,
        Epochs::rounds_error(m.durable_rounds()->0) is None,
    ensures
        ({
            let stored = m.durable_rounds()->0;
            let r = n.rounds_restored(stored);
            &&& r.state.closing == m.state.closing
            &&& r.close_cuts == m.close_cuts
            &&& r.close_records == m.close_records
            &&& r.close_record_committees == m.close_record_committees
            &&& stored.phase == RaiClosingPhase::ElectingCut ==> lookup(r.cut_rounds, stored.epoch) == lookup(
                m.cut_rounds,
                stored.epoch,
            )
            &&& stored.phase == RaiClosingPhase::ElectingRecord ==> lookup(r.record_rounds, stored.epoch) == lookup(
                m.record_rounds,
                stored.epoch,
            )
        }),
{
}

/// The committee has a fast or a final certificate for the hash.
pub open spec fn certifies(c: Committee, hash: BlockHash) -> bool {
    c.result() == Some(RaiLocalResult::Fast(hash)) || c.result() == Some(RaiLocalResult::Final(hash))
}

/// The committees before this one stand behind one hash, and this one has a result
/// that does not.
pub open spec fn breaks_ranks(all: Seq<Committee>, k: int, hash: BlockHash) -> bool {
    &&& 0 <= k < all.len()
    &&& forall|i: int| 0 <= i < k ==> stands_behind(#[trigger] all[i], hash)
    &&& all[k].result() is Some
    &&& !stands_behind(all[k], hash)
    &&& k > 0 || all[k].result() == Some(RaiLocalResult::Timeout)
}

proof fn lemma_agreement(all: Seq<Committee>, hash: BlockHash)
    ensures
        agreement(all) == Agreement::Block(None) <==> all.len() == 0,
        agreement(all) == Agreement::Block(Some(hash)) <==> all.len() > 0 && forall|i: int|
            0 <= i < all.len() ==> stands_behind(#[trigger] all[i], hash),
        agreement(all) == Agreement::Conflict <==> exists|k: int, h: BlockHash| #[trigger] breaks_ranks(all, k, h),
    decreases all.len(),
{
    if all.len() > 0 {
        let front = all.drop_last();
        let last = all.last();
        let n = all.len() - 1;
        lemma_agreement(front, hash);
        assert forall|i: int| 0 <= i < n implies #[trigger] front[i] == all[i] by {
        }
        assert forall|i: int| 0 <= i < n implies #[trigger] all[i] == front[i] by {
        }
        assert forall|k: int, h: BlockHash| k < n implies #[trigger] breaks_ranks(all, k, h) == breaks_ranks(front, k, h) by {
            if breaks_ranks(all, k, h) {
                assert forall|i: int| 0 <= i < k implies stands_behind(#[trigger] front[i], h) by {
                    assert(stands_behind(all[i], h));
                }
            }
            if breaks_ranks(front, k, h) {
                assert forall|i: int| 0 <= i < k implies stands_behind(#[trigger] all[i], h) by {
                    assert(stands_behind(front[i], h));
                }
            }
        }
        assert forall|h: BlockHash| #[trigger] stands_behind(last, h) <==> backed_by(last.result()) == Some(h) by {
        }
        match agreement(front) {
            Agreement::Block(earlier) => {
                if earlier is Some {
                    lemma_agreement(front, earlier->0);
                    let g = earlier->0;
                    assert forall|i: int| 0 <= i < n implies stands_behind(#[trigger] all[i], g) by {
                        assert(stands_behind(front[i], g));
                    }
                    if agreement(all) == Agreement::Conflict {
                        assert(breaks_ranks(all, n, g));
                    }
                    if agreement(all) == Agreement::Block(Some(hash)) {
                        assert(hash == g);
                    }
                    if forall|i: int| 0 <= i < all.len() ==> stands_behind(#[trigger] all[i], hash) {
                        assert(stands_behind(all[0], hash) && stands_behind(all[0], g));
                        assert(stands_behind(all[n], hash));
                        assert(agreement(all) == Agreement::Block(Some(hash)));
                    }
                } else {
                    lemma_agreement(front, hash);
                    assert(front.len() == 0);
                    if agreement(all) == Agreement::Conflict {
                        assert(breaks_ranks(all, 0, hash));
                    }
                    if forall|i: int| 0 <= i < all.len() ==> stands_behind(#[trigger] all[i], hash) {
                        assert(stands_behind(all[0], hash));
                    }
                }
                if exists|k: int, h: BlockHash| #[trigger] breaks_ranks(all, k, h) {
                    let (k, h) = choose|k: int, h: BlockHash| #[trigger] breaks_ranks(all, k, h);
                    if k < n {
                        assert(breaks_ranks(front, k, h));
                    } else {
                        assert(k == n);
                        if n > 0 {
                            assert(stands_behind(all[0], h) && stands_behind(all[0], earlier->0));
                        }
                        assert(agreement(all) == Agreement::Conflict);
                    }
                }
            },
            Agreement::Conflict => {
                let (k, h) = choose|k: int, h: BlockHash| #[trigger] breaks_ranks(front, k, h);
                assert(breaks_ranks(all, k, h));
                if forall|i: int| 0 <= i < all.len() ==> stands_behind(#[trigger] all[i], hash) {
                    assert(stands_behind(all[k], hash));
                    if k > 0 {
                        assert(stands_behind(all[0], h) && stands_behind(all[0], hash));
                    }
                }
            },
            Agreement::Open => {
                assert(front.len() > 0);
                if forall|i: int| 0 <= i < all.len() ==> stands_behind(#[trigger] all[i], hash) {
                    assert forall|i: int| 0 <= i < front.len() implies stands_behind(#[trigger] front[i], hash) by {
                        assert(stands_behind(all[i], hash));
                    }
                }
                if exists|k: int, h: BlockHash| #[trigger] breaks_ranks(all, k, h) {
                    let (k, h) = choose|k: int, h: BlockHash| #[trigger] breaks_ranks(all, k, h);
                    if k < n {
                        assert(breaks_ranks(front, k, h));
                    } else {
                        assert forall|i: int| 0 <= i < front.len() implies stands_behind(#[trigger] front[i], h) by {
                            assert(stands_behind(all[i], h));
                        }
                        lemma_agreement(front, h);
                    }
                }
            },
        }
    }
}

/// How an obligation ends, from the results of its committees. A timeout certificate
/// in any committee releases it. Otherwise it is finalized exactly if every committee
/// has a fast or final certificate for one hash, selected exactly if every committee
/// stands behind one hash but not all that strongly, and released exactly if a
/// committee breaks ranks with those before it.
pub proof fn committees_settle_the_obligation(all: Seq<Committee>, hash: BlockHash)
    ensures
        ({
            let out = certified_outcome(all);
            let timeout = exists|i: int|
                0 <= i < all.len() && weight_for(#[trigger] all[i], BlockHashOrTimeout::Timeout)
                    >= all[i].thresholds.notarization.raw;
            &&& out == Some(RaiDrainOutcome::ReleasedTimeout) <==> timeout
            &&& out == Some(RaiDrainOutcome::Finalized(hash)) <==> !timeout && all.len() > 0 && forall|i: int|
                0 <= i < all.len() ==> certifies(#[trigger] all[i], hash)
            &&& out == Some(RaiDrainOutcome::Selected(hash)) <==> !timeout && all.len() > 0 && (forall|i: int|
                0 <= i < all.len() ==> stands_behind(#[trigger] all[i], hash)) && exists|i: int|
                0 <= i < all.len() && !certifies(#[trigger] all[i], hash)
            &&& out == Some(RaiDrainOutcome::ReleasedConflict) <==> !timeout && exists|k: int, h: BlockHash| #[trigger]
                breaks_ranks(all, k, h)
        }),
{
    assert forall|i: int| 0 <= i < all.len() implies (has_timeout_certificate(#[trigger] all[i]) <==> weight_for(
        all[i],
        BlockHashOrTimeout::Timeout,
    ) >= all[i].thresholds.notarization.raw) by {
        let c = all[i];
        assert(c.votes.supporters(BlockHashOrTimeout::Timeout) =~= all_for(c.votes, BlockHashOrTimeout::Timeout));
    }
    lemma_agreement(all, hash);
    if forall|i: int| 0 <= i < all.len() ==> certifies(#[trigger] all[i], hash) {
        assert forall|i: int| 0 <= i < all.len() implies stands_behind(#[trigger] all[i], hash) by {
            assert(certifies(all[i], hash));
        }
        assert forall|i: int| 0 <= i < all.len() implies is_strong(#[trigger] all[i]) by {
            assert(certifies(all[i], hash));
        }
    }
    if all.len() > 0 && forall|i: int| 0 <= i < all.len() ==> stands_behind(#[trigger] all[i], hash) {
        assert forall|i: int| 0 <= i < all.len() implies (is_strong(#[trigger] all[i]) <==> certifies(all[i], hash)) by {
            assert(stands_behind(all[i], hash));
        }
    }
    match agreement(all) {
        Agreement::Block(Some(h)) => {
            lemma_agreement(all, h);
            if h == hash {
            } else {
                assert(stands_behind(all[0], h));
                assert(!stands_behind(all[0], hash));
                assert(!certifies(all[0], hash));
            }
        },
        _ => {},
    }
}

/// An obligation that is still open takes the outcome of its committees, and keeps
/// it; evidence about anything else changes nothing.
pub proof fn obligation_takes_its_outcome(d: Drain, slot: RaiSlotId, evidence: ElectionVotes)
    requires
        evidence.committees.len() > 0,
        !d.finalized.contains_key(slot),
        !d.selected.contains_key(slot),
        !d.released.contains_key(slot),
    ensures
        ({
            let after = d.with_evidence(slot, evidence);
            &&& !d.obligations.contains(slot) ==> after == d && d.outcome(slot, evidence) is None
            &&& d.obligations.contains(slot) ==> {
                &&& d.outcome(slot, evidence) == certified_outcome(evidence.committees)
                &&& match certified_outcome(evidence.committees) {
                    Some(RaiDrainOutcome::Finalized(hash)) => after.finalized.contains_key(slot) && after.finalized[slot]
                        == hash && after.selected == d.selected && after.released == d.released,
                    Some(RaiDrainOutcome::Selected(hash)) => after.selected.contains_key(slot) && after.selected[slot]
                        == hash && after.finalized == d.finalized && after.released == d.released,
                    Some(outcome) => after.released.contains_key(slot) && after.released[slot] == outcome
                        && after.finalized == d.finalized && after.selected == d.selected,
                    None => after == d,
                }
                &&& certified_outcome(evidence.committees) is Some ==> after.outcome(slot, evidence) == certified_outcome(
                    evidence.committees,
                )
            }
        }),
{
}

/// A finalized block overrides an earlier selection or release of its obligation,
/// never another finalized block; a notarized block is taken only where nothing
/// else was.
pub proof fn finalized_blocks_prevail(d: Drain, slot: RaiSlotId, hash: BlockHash)
    requires
        d.obligations.contains(slot),
    ensures
        d.accepts_finalized(slot, hash) <==> !d.finalized.contains_key(slot) || d.finalized[slot] == hash,
        d.accepts_finalized(slot, hash) ==> {
            let after = d.with_finalized(slot, hash);
            &&& after.finalized.contains_key(slot) && after.finalized[slot] == hash
            &&& !after.selected.contains_key(slot)
            &&& !after.released.contains_key(slot)
        },
        d.accepts_notarized(slot, hash) <==> !d.finalized.contains_key(slot) && !d.released.contains_key(slot) && (
        !d.selected.contains_key(slot) || d.selected[slot] == hash),
        d.accepts_notarized(slot, hash) ==> d.with_notarized(slot, hash).selected.contains_key(slot) && d.with_notarized(
            slot,
            hash,
        ).selected[slot] == hash && d.with_notarized(slot, hash).finalized == d.finalized,
        !d.accepts_notarized(slot, hash) ==> d.with_notarized(slot, hash) == d,
{
}

/// A certified close makes every selected block of its drain final.
pub proof fn close_finalizes_the_selected(d: Drain, slot: RaiSlotId)
    requires
        d.well_formed(),
    ensures
        ({
            let after = d.certified();
            &&& after.finalized.contains_key(slot) <==> d.finalized.contains_key(slot) || d.selected.contains_key(slot)
            &&& d.finalized.contains_key(slot) ==> after.finalized[slot] == d.finalized[slot]
            &&& d.selected.contains_key(slot) ==> after.finalized[slot] == d.selected[slot]
            &&& !after.selected.contains_key(slot)
            &&& after.released == d.released
        }),
{
}

/// A frontier goes up to the highest block of a segment and is otherwise left alone:
/// it is never below a block of the segment, and always a block of it or the frontier
/// before.
pub proof fn frontier_reaches_the_highest_block(
    frontiers: Frontiers,
    segment: Seq<(Account, ConfirmationHeightInfo)>,
    account: Account,
)
    requires
        frontiers.contains_key(account),
    ensures
        ({
            let after = raised_by(frontiers, segment);
            &&& after.contains_key(account)
            &&& forall|i: int|
                0 <= i < segment.len() && (#[trigger] segment[i]).0 == account ==> segment[i].1.height <= after[account].height
            &&& after[account] == frontiers[account] || exists|i: int|
                0 <= i < segment.len() && (#[trigger] segment[i]).0 == account && segment[i].1 == after[account]
        }),
    decreases segment.len(),
{
    if segment.len() > 0 {
        let front = segment.drop_last();
        frontier_reaches_the_highest_block(frontiers, front, account);
        let before = raised_by(frontiers, front);
        let after = raised_by(frontiers, segment);
        assert forall|i: int| 0 <= i < segment.len() && (#[trigger] segment[i]).0 == account implies segment[i].1.height
            <= after[account].height by {
            if i < front.len() {
                assert(front[i] == segment[i]);
            }
        }
        if after[account] != frontiers[account] {
            if after[account] == before[account] {
                let i = choose|i: int|
                    0 <= i < front.len() && (#[trigger] front[i]).0 == account && front[i].1 == before[account];
                assert(segment[i] == front[i]);
            } else {
                assert(segment[segment.len() - 1].1 == after[account]);
            }
        }
    }
}

/// An epoch's slots vote with the committees of the third and of the second epoch
/// before it, once where the two are equal, and its close with the second alone; the
/// genesis committee stands in for epochs before the first.
pub proof fn committees_come_from_closed_epochs(m: Epochs, epoch: RaiEpoch)
    requires
        epoch.number <= i64::MAX,
    ensures
        ({
            let older = if epoch.number < 3 {
                Some(m.genesis_committee)
            } else {
                m.committees.get(RaiEpoch { number: (epoch.number - 3) as u64 })
            };
            let newer = if epoch.number < 2 {
                Some(m.genesis_committee)
            } else {
                m.committees.get(RaiEpoch { number: (epoch.number - 2) as u64 })
            };
            &&& m.close_committee(epoch) == newer
            &&& m.slot_committees(epoch) is Some <==> older is Some && newer is Some
            &&& m.slot_committees(epoch) matches Some(list) ==> {
                &&& list[0] == older->0
                &&& list.last() == newer->0
                &&& list.len() == if older == newer {
                    1nat
                } else {
                    2nat
                }
            }
        }),
        m.governing_hash(epoch) == if epoch.number < 2 {
            Some(m.genesis_governing_hash)
        } else {
            m.close_hashes.get(RaiEpoch { number: (epoch.number - 2) as u64 })
        },
{
}

/// The cut of an epoch holds exactly the slots that votes show, and those that more
/// than a tolerable part of the committee's weight reported.
pub proof fn cut_holds_reported_and_voted_slots(
    m: Epochs,
    epoch: RaiEpoch,
    vote_visible: Set<RaiSlotId>,
    committee: Weights,
    f: nat,
    slot: RaiSlotId,
    reporters: Set<PublicKey>,
    named: Set<PublicKey>,
)
    requires
        m.close_committee(epoch) == Some(committee),
        5 * f < total_weight(committee) <= 5 * f + 5,
        forall|k: PublicKey| #[trigger] reporters.contains(k) <==> m.reports.reports.contains_key(Pair(epoch, k)),
        forall|k: PublicKey| #[trigger]
            named.contains(k) <==> m.reports.reports.contains_key(Pair(epoch, k)) && m.reports.reports[Pair(
                epoch,
                k,
            )].visible_obligations.contains(slot),
    ensures
        m.cut_for(epoch, vote_visible).epoch == epoch,
        m.cut_for(epoch, vote_visible).obligations.contains(slot) <==> vote_visible.contains(slot) || tally(committee, named)
            >= f + 1,
        m.is_closing(epoch, RaiClosingPhase::CollectingReports) ==> (m.can_begin_cut() <==> tally(committee, reporters) + f
            >= total_weight(committee)),
{
    reports_outweigh_the_faulty(m.reports, epoch, committee, f, slot, reporters, named);
}

/// A slot may be voted on exactly if it is not released, every older slot of its root
/// that is known is released, and it is in the cut of its epoch where that is frozen
/// and the epoch closes.
pub proof fn slots_wait_for_older_ones(m: Epochs, slot: RaiSlotId)
    requires
        m.index_is_exact(),
    ensures
        m.slot_enabled(slot) <==> {
            &&& !m.released_slots.contains_key(slot)
            &&& forall|older: RaiSlotId| #[trigger]
                m.known_slots.contains(older) && older.root == slot.root && older.epoch.number < slot.epoch.number
                    ==> m.released_slots.contains_key(older)
            &&& m.state.closing is Some && m.state.closing->0.epoch == slot.epoch && m.frozen_obligations.contains_key(
                slot.epoch,
            ) ==> m.frozen_obligations[slot.epoch].contains(slot)
        },
{
    if m.unresolved_epochs_by_root.contains_key(slot.root) && exists|older: RaiEpoch| #[trigger]
        m.unresolved_epochs_by_root[slot.root].contains(older) && older.number < slot.epoch.number {
        let epoch = choose|older: RaiEpoch| #[trigger]
            m.unresolved_epochs_by_root[slot.root].contains(older) && older.number < slot.epoch.number;
        let older = RaiSlotId { epoch, root: slot.root };
        assert(m.is_unresolved(older));
        assert(m.known_slots.contains(older));
    } else {
        assert forall|older: RaiSlotId| #[trigger]
            m.known_slots.contains(older) && older.root == slot.root && older.epoch.number
                < slot.epoch.number implies m.released_slots.contains_key(older) by {
            assert(m.is_unresolved(older) == (m.known_slots.contains(older) && !m.released_slots.contains_key(older)));
        }
    }
}

/// A decided cut freezes exactly its obligations, all still open, and the epoch
/// drains.
pub proof fn decided_cut_is_drained(m: Epochs, epoch: RaiEpoch, round: u32, hash: BlockHash, slot: RaiSlotId)
    requires
        m.cut_error(epoch, round, hash) is None,
        !m.cut_hashes.contains_key(epoch),
    ensures
        ({
            let after = m.cut_decided(epoch, round, hash);
            &&& m.close_cuts.contains_key(hash) && m.close_cuts[hash].epoch == epoch
            &&& after.frozen_obligations.contains_key(epoch) && after.frozen_obligations[epoch]
                == m.close_cuts[hash].obligations
            &&& after.drains.contains_key(epoch)
            &&& after.drains[epoch].obligations == m.close_cuts[hash].obligations
            &&& !after.drains[epoch].finalized.contains_key(slot)
            &&& !after.drains[epoch].selected.contains_key(slot)
            &&& !after.drains[epoch].released.contains_key(slot)
            &&& after.state.closing == Some(RaiClosingEpoch { epoch, phase: RaiClosingPhase::Draining })
            &&& after.known_slots.contains(slot) <==> m.known_slots.contains(slot)
                || m.close_cuts[hash].obligations.contains(slot)
            &&& after.close_hashes == m.close_hashes && after.committees == m.committees
        }),
{
}

/// An installed record closes its epoch: it fixes the committee that was computed for
/// it, unless one is fixed already, takes over the record's frontiers, and makes what
/// the drain selected final.
pub proof fn installed_record_closes_the_epoch(m: Epochs, epoch: RaiEpoch, round: u32, hash: BlockHash, other: RaiEpoch)
    requires
        m.install_error(epoch, round, hash) is None,
        !m.close_hashes.contains_key(epoch),
        other != epoch,
    ensures
        ({
            let after = m.installed(epoch, round, hash);
            &&& m.is_closing(epoch, RaiClosingPhase::ElectingRecord)
            &&& m.close_records.contains_key(hash) && m.close_records[hash].epoch == epoch
            &&& epoch.number > 0 && m.close_hashes.contains_key(RaiEpoch { number: (epoch.number - 1) as u64 })
                ==> m.close_records[hash].previous == m.close_hashes[RaiEpoch { number: (epoch.number - 1) as u64 }]
            &&& after.state.closing is None
            &&& after.state.closed_through == Some(epoch)
            &&& after.state.open_epoch == m.state.open_epoch
            &&& after.close_hashes.contains_key(epoch) && after.close_hashes[epoch] == hash
            &&& after.committees.contains_key(epoch)
            &&& after.committees[epoch] == if m.committees.contains_key(epoch) {
                m.committees[epoch]
            } else {
                m.close_record_committees[hash]
            }
            &&& after.drain_frontiers[epoch] == m.close_records[hash].frontiers
            &&& after.committees.contains_key(other) <==> m.committees.contains_key(other)
            &&& m.committees.contains_key(other) ==> after.committees[other] == m.committees[other]
        }),
{
}

/// A restored close never moves the open epoch or the last closed one back.
pub proof fn restoring_never_goes_back(m: Epochs, stored: DurableClose)
    requires
        m.restore_error(stored) is None,
    ensures
        ({
            let after = m.restored(stored);
            &&& after.state.open_epoch.number >= m.state.open_epoch.number
            &&& after.state.open_epoch.number >= stored.current_epoch.number
            &&& after.state.open_epoch == m.state.open_epoch || after.state.open_epoch == stored.current_epoch
            &&& after.state.closed_through is Some
            &&& after.state.closed_through->0.number >= stored.epoch.number
            &&& m.state.closed_through matches Some(epoch) ==> after.state.closed_through->0.number >= epoch.number
            &&& after.state.closed_through == m.state.closed_through || after.state.closed_through == Some(stored.epoch)
            &&& after.close_hashes.contains_key(stored.epoch) && after.close_hashes[stored.epoch] == stored.close_hash
            &&& after.frozen_obligations[stored.epoch] == stored.frozen_obligations
        }),
{
}

/// A record is begun exactly if every obligation of the closing epoch has an outcome
/// and its frontiers are known; it names those frontiers and the close before it.
pub proof fn record_needs_a_complete_drain(m: Epochs, epoch: RaiEpoch)
    requires
        m.is_closing(epoch, RaiClosingPhase::Draining),
        m.drains.contains_key(epoch),
        m.drains[epoch].well_formed(),
    ensures
        m.can_begin_record() <==> m.drain_frontiers.contains_key(epoch) && forall|slot: RaiSlotId| #[trigger]
            m.drains[epoch].obligations.contains(slot) ==> m.drains[epoch].finalized.contains_key(slot)
                || m.drains[epoch].selected.contains_key(slot) || m.drains[epoch].released.contains_key(slot),
        m.local_record().epoch == epoch,
        m.local_record().frontiers == m.drain_frontiers[epoch],
        epoch.number == 0 ==> m.local_record().previous == (BlockHash { hi: 0, lo: 0 }),
        epoch.number > 0 && m.close_hashes.contains_key(RaiEpoch { number: (epoch.number - 1) as u64 })
            ==> m.local_record().previous == m.close_hashes[RaiEpoch { number: (epoch.number - 1) as u64 }],
{
    let d = m.drains[epoch];
    let a = d.finalized.dom();
    let b = d.selected.dom();
    let c = d.released.dom();
    vstd::set_lib::lemma_len_subset(a, d.obligations);
    vstd::set_lib::lemma_len_subset(b, d.obligations);
    vstd::set_lib::lemma_len_subset(c, d.obligations);
    vstd::set_lib::lemma_set_disjoint_lens(a, b);
    vstd::set_lib::lemma_set_disjoint_lens(a + b, c);
    let all = a + b + c;
    assert(all.subset_of(d.obligations));
    if d.is_complete() {
        vstd::set_lib::lemma_subset_equality(all, d.obligations);
        assert forall|slot: RaiSlotId| #[trigger] d.obligations.contains(slot) implies d.finalized.contains_key(slot)
            || d.selected.contains_key(slot) || d.released.contains_key(slot) by {
            assert(all.contains(slot));
        }
    }
    if forall|slot: RaiSlotId| #[trigger]
        d.obligations.contains(slot) ==> d.finalized.contains_key(slot) || d.selected.contains_key(slot)
            || d.released.contains_key(slot) {
        assert(all =~= d.obligations);
    }
}

/// A cut can be decided in a round exactly if its epoch elects a cut, the cut is known and
/// belongs to the epoch, and the round is open with its hash checked. Once one is decided,
/// the same one is acknowledged and every other refused.
pub proof fn known_cut_can_be_decided(m: Epochs, epoch: RaiEpoch, round: u32, hash: BlockHash)
    requires
        m.cut_rounds.contains_key(epoch) ==> m.cut_rounds[epoch].decision is None,
    ensures
        !m.cut_hashes.contains_key(epoch) ==> (m.cut_error(epoch, round, hash) is None <==> {
            &&& m.state.closing == Some(RaiClosingEpoch { epoch, phase: RaiClosingPhase::ElectingCut })
            &&& m.close_cuts.contains_key(hash)
            &&& m.close_cuts[hash].epoch == epoch
            &&& m.cut_rounds.contains_key(epoch)
            &&& m.cut_rounds[epoch].rounds.contains_key(round)
            &&& m.cut_rounds[epoch].rounds[round].validated_preimages.contains(hash)
        }),
        m.cut_hashes.contains_key(epoch) && m.cut_hashes[epoch] != hash ==> m.cut_error(epoch, round, hash) == Some(
            CloseCutDecisionError::ImmutableDecision,
        ),
        m.cut_hashes.contains_key(epoch) && m.cut_hashes[epoch] == hash ==> (m.cut_error(epoch, round, hash) is None
            <==> m.frozen_obligations.contains_key(epoch)),
{
}

/// A record can be installed in a round exactly if its epoch elects a record, it is known,
/// belongs to the epoch and follows the close before, the weights it fixes are known, and
/// the round is open with its hash checked.
pub proof fn known_record_can_be_installed(m: Epochs, epoch: RaiEpoch, round: u32, hash: BlockHash)
    requires
        m.record_rounds.contains_key(epoch) ==> m.record_rounds[epoch].decision is None,
        !m.close_hashes.contains_key(epoch),
        epoch.number > 0,
        m.close_hashes.contains_key(RaiEpoch { number: (epoch.number - 1) as u64 }),
    ensures
        m.install_error(epoch, round, hash) is None <==> {
            &&& m.state.closing == Some(RaiClosingEpoch { epoch, phase: RaiClosingPhase::ElectingRecord })
            &&& m.close_records.contains_key(hash)
            &&& m.drain_frontiers.contains_key(epoch)
            &&& m.close_records[hash].epoch == epoch
            &&& m.close_records[hash].previous == m.close_hashes[RaiEpoch { number: (epoch.number - 1) as u64 }]
            &&& m.close_record_committees.contains_key(hash)
            &&& m.record_rounds.contains_key(epoch)
            &&& m.record_rounds[epoch].rounds.contains_key(round)
            &&& m.record_rounds[epoch].rounds[round].validated_preimages.contains(hash)
        },
{
}

proof fn lemma_adopted(ours: Map<RaiEpoch, Weights>, theirs: Map<RaiEpoch, Weights>, epochs: Seq<RaiEpoch>)
    requires
        forall|i: int| 0 <= i < epochs.len() ==> theirs.contains_key(#[trigger] epochs[i]),
    ensures
        ({
            let (after, ok) = adopted(ours, theirs, epochs);
            &&& ok <==> forall|i: int|
                0 <= i < epochs.len() && ours.contains_key(#[trigger] epochs[i]) ==> ours[epochs[i]] == theirs[epochs[i]]
            &&& forall|e: RaiEpoch| #[trigger]
                after.contains_key(e) ==> if ours.contains_key(e) {
                    after[e] == ours[e]
                } else {
                    epochs.contains(e) && after[e] == theirs[e]
                }
            &&& forall|e: RaiEpoch| #[trigger] ours.contains_key(e) ==> after.contains_key(e)
            &&& ok ==> forall|i: int| 0 <= i < epochs.len() ==> after.contains_key(#[trigger] epochs[i])
        }),
    decreases epochs.len(),
{
    if epochs.len() > 0 {
        let front = epochs.drop_last();
        let n = epochs.len() - 1;
        assert forall|i: int| 0 <= i < front.len() implies theirs.contains_key(#[trigger] front[i]) by {
            assert(front[i] == epochs[i]);
        }
        lemma_adopted(ours, theirs, front);
        assert forall|i: int| 0 <= i < n implies #[trigger] epochs[i] == front[i] by {
        }
        assert forall|i: int| 0 <= i < n implies #[trigger] front[i] == epochs[i] by {
        }
        let (sofar, ok) = adopted(ours, theirs, front);
        let (after, now) = adopted(ours, theirs, epochs);
        let e = epochs.last();
        assert(e == epochs[n]);
        assert forall|x: RaiEpoch| front.contains(x) implies epochs.contains(x) by {
            let i = choose|i: int| 0 <= i < front.len() && front[i] == x;
            assert(epochs[i] == x);
        }
        assert(epochs.contains(e));
        if ok {
            if sofar.contains_key(e) {
                if !ours.contains_key(e) {
                    assert(sofar[e] == theirs[e]);
                }
            }
        } else {
            let i = choose|i: int|
                0 <= i < front.len() && ours.contains_key(#[trigger] front[i]) && ours[front[i]] != theirs[front[i]];
            assert(epochs[i] == front[i]);
        }
    }
}

/// A stored close is adopted exactly if its committees contradict none that is fixed here;
/// its own are then added, and none that is fixed here changes.
pub proof fn stored_committees_are_added(m: Epochs, stored: DurableClose, epoch: RaiEpoch)
    requires
        stored.committees.dom().finite(),
    ensures
        ({
            let (after, ok) = m.adoption(stored);
            &&& ok <==> forall|e: RaiEpoch| #[trigger]
                stored.committees.contains_key(e) && m.committees.contains_key(e) ==> m.committees[e] == stored.committees[e]
            &&& m.committees.contains_key(epoch) ==> after.contains_key(epoch) && after[epoch] == m.committees[epoch]
            &&& ok && !m.committees.contains_key(epoch) ==> {
                &&& after.contains_key(epoch) <==> stored.committees.contains_key(epoch)
                &&& stored.committees.contains_key(epoch) ==> after[epoch] == stored.committees[epoch]
            }
        }),
{
    let q = ascending(stored.committees.dom());
    lemma_ascending(stored.committees.dom());
    assert forall|i: int| 0 <= i < q.len() implies stored.committees.contains_key(#[trigger] q[i]) by {
        assert(stored.committees.dom().contains(q[i]));
    }
    lemma_adopted(m.committees, stored.committees, q);
    let (after, ok) = m.adoption(stored);
    assert forall|e: RaiEpoch| #[trigger] stored.committees.contains_key(e) implies exists|i: int|
        0 <= i < q.len() && #[trigger] q[i] == e by {
        assert(q.contains(e));
        let i = choose|i: int| 0 <= i < q.len() && q[i] == e;
    }
    if stored.committees.contains_key(epoch) {
        let i = choose|i: int| 0 <= i < q.len() && #[trigger] q[i] == epoch;
        assert(q[i] == epoch);
    }
    if after.contains_key(epoch) && !m.committees.contains_key(epoch) {
        assert(q.contains(epoch));
        let i = choose|i: int| 0 <= i < q.len() && q[i] == epoch;
        assert(stored.committees.contains_key(q[i]));
    }
}

/// After a round of a cut that died the cut of the visible obligations is voted on, in the
/// next round; a value that all stand behind is voted on again. A round that is still open
/// is left alone.
pub proof fn dead_cut_round_starts_afresh(m: Epochs, epoch: RaiEpoch)
    requires
        m.is_closing(epoch, RaiClosingPhase::ElectingCut),
        !m.cut_hashes.contains_key(epoch),
        m.cut_rounds.contains_key(epoch),
        m.cut_rounds[epoch].decision is None,
        m.cut_rounds[epoch].rounds.contains_key(m.cut_rounds[epoch].current_round),
        m.cut_rounds[epoch].current_round < u32::MAX,
        !m.cut_rounds[epoch].rounds.contains_key((m.cut_rounds[epoch].current_round + 1) as u32),
        m.visible_obligations.contains_key(epoch),
    ensures
        ({
            let rounds = m.cut_rounds[epoch];
            let source = rounds.rounds[rounds.current_round];
            let next = (rounds.current_round + 1) as u32;
            let fresh = CloseCut { epoch, obligations: m.visible_obligations[epoch] };
            let after = m.cut_round_advanced();
            &&& source.derived() is Dead ==> {
                &&& m.next_cut_round() == Some((next, fresh.hash()))
                &&& after.cut_rounds[epoch].current_round == next
                &&& after.cut_rounds[epoch].rounds[next].validated_preimages.contains(fresh.hash())
                &&& after.close_cuts.contains_key(fresh.hash())
            }
            &&& source.derived() matches RaiCloseRoundResult::LiveCarry(hash) ==> source.validated_preimages.contains(hash) ==> {
                &&& m.next_cut_round() == Some((next, hash))
                &&& after.cut_rounds[epoch].current_round == next
                &&& after.cut_rounds[epoch].rounds[next].carried == Some(hash)
                &&& after.close_cuts == m.close_cuts
            }
            &&& source.derived() is Pending ==> m.next_cut_round() is None && after == m
        }),
{
}

/// After a round of a record that died the record of the frontiers at hand is voted on, in
/// the next round; a value that all stand behind is voted on again.
pub proof fn dead_record_round_starts_afresh(m: Epochs, epoch: RaiEpoch, frontiers: Frontiers)
    requires
        m.is_closing(epoch, RaiClosingPhase::ElectingRecord),
        !m.close_hashes.contains_key(epoch),
        m.record_rounds.contains_key(epoch),
        m.record_rounds[epoch].decision is None,
        m.record_rounds[epoch].rounds.contains_key(m.record_rounds[epoch].current_round),
        m.record_rounds[epoch].current_round < u32::MAX,
        !m.record_rounds[epoch].rounds.contains_key((m.record_rounds[epoch].current_round + 1) as u32),
        m.drain_frontiers.contains_key(epoch),
        m.drain_frontiers[epoch] == frontiers,
    ensures
        ({
            let rounds = m.record_rounds[epoch];
            let source = rounds.rounds[rounds.current_round];
            let next = (rounds.current_round + 1) as u32;
            let fresh = CloseRecord { epoch, previous: m.previous_close(epoch), frontiers };
            let after = m.record_round_advanced();
            &&& source.derived() is Dead ==> {
                &&& m.next_record_round() == Some((next, fresh.hash()))
                &&& after.record_rounds[epoch].current_round == next
                &&& after.record_rounds[epoch].rounds[next].validated_preimages.contains(fresh.hash())
                &&& after.close_records.contains_key(fresh.hash())
            }
            &&& source.derived() matches RaiCloseRoundResult::LiveCarry(hash) ==> source.validated_preimages.contains(hash) ==> {
                &&& m.next_record_round() == Some((next, hash))
                &&& after.record_rounds[epoch].current_round == next
                &&& after.record_rounds[epoch].rounds[next].carried == Some(hash)
                &&& after.close_records == m.close_records
            }
            &&& source.derived() is Pending ==> m.next_record_round() is None && after == m
        }),
{
}

/// A record goes to the vote together with every record known that closes the same epoch
/// after the same close; each of them fixes the same weights, unless others are known for it.
pub proof fn rival_records_are_voted_on_too(m: Epochs, committee: Weights, epoch: RaiEpoch, hash: BlockHash)
    requires
        m.is_closing(epoch, RaiClosingPhase::Draining),
        !m.record_rounds.contains_key(epoch),
    ensures
        ({
            let record = m.local_record();
            let after = m.record_begun(committee);
            let rival = hash == record.hash() || (m.close_records.contains_key(hash) && m.close_records[hash].epoch == epoch
                && m.close_records[hash].previous == record.previous);
            &&& after.is_closing(epoch, RaiClosingPhase::ElectingRecord)
            &&& after.record_rounds.contains_key(epoch)
            &&& after.record_rounds[epoch].rounds.contains_key(0)
            &&& !m.close_records.contains_key(record.hash()) ==> (
            after.record_rounds[epoch].rounds[0].validated_preimages.contains(hash) <==> rival)
            &&& rival && hash != record.hash() ==> after.record_rounds[epoch].rounds[0].validated_preimages.contains(hash)
            &&& after.close_record_committees[record.hash()] == committee
            &&& rival && hash != record.hash() ==> after.close_record_committees.contains_key(hash)
                && after.close_record_committees[hash] == if m.close_record_committees.contains_key(hash) {
                m.close_record_committees[hash]
            } else {
                committee
            }
        }),
{
}

/// A cut or a record from another node is taken where its epoch votes on such, and changes
/// nothing elsewhere.
pub proof fn foreign_values_are_taken_where_awaited(m: Epochs, cut: CloseCut<RaiSlotId>, record: CloseRecord, round: u32)
    ensures
        ({
            let after = m.cut_reconciled(cut, round);
            let awaited = m.is_closing(cut.epoch, RaiClosingPhase::ElectingCut) && m.cut_rounds.contains_key(cut.epoch)
                && m.cut_rounds[cut.epoch].rounds.contains_key(round);
            &&& !awaited ==> after == m
            &&& awaited ==> after.close_cuts.contains_key(cut.hash())
                && after.cut_rounds[cut.epoch].rounds[round].validated_preimages.contains(cut.hash())
            &&& after.cut_hashes == m.cut_hashes
        }),
        ({
            let after = m.record_reconciled(record, round);
            let awaited = (m.is_closing(record.epoch, RaiClosingPhase::Draining) || m.is_closing(
                record.epoch,
                RaiClosingPhase::ElectingRecord,
            )) && record.previous == m.previous_close(record.epoch);
            let open = m.record_rounds.contains_key(record.epoch) && m.record_rounds[record.epoch].rounds.contains_key(round);
            &&& !awaited ==> after == m
            &&& awaited ==> after.close_records.contains_key(record.hash())
            &&& awaited && open ==> after.record_rounds[record.epoch].rounds[round].validated_preimages.contains(record.hash())
            &&& after.close_hashes == m.close_hashes
        }),
{
}

/// A frontier moves only up, to the first of the highest blocks that a segment lists for the
/// account, and only if that is higher than where it stood; an account without a frontier
/// stands at height zero. Accounts that the segment does not list are left alone.
pub proof fn frontier_moves_only_up(
    frontiers: Frontiers,
    segment: Seq<(Account, ConfirmationHeightInfo)>,
    account: Account,
)
    ensures
        ({
            let after = raised_by(frontiers, segment);
            let start = if frontiers.contains_key(account) {
                frontiers[account]
            } else {
                ConfirmationHeightInfo { height: 0, frontier: BlockHash { hi: 0, lo: 0 } }
            };
            let listed = exists|i: int| 0 <= i < segment.len() && (#[trigger] segment[i]).0 == account;
            &&& after.contains_key(account) <==> frontiers.contains_key(account) || listed
            &&& after.contains_key(account) ==> {
                ||| after[account] == start && forall|i: int|
                    0 <= i < segment.len() && (#[trigger] segment[i]).0 == account ==> segment[i].1.height <= start.height
                ||| after[account].height > start.height && exists|i: int|
                    0 <= i < segment.len() && (#[trigger] segment[i]).0 == account && segment[i].1 == after[account] && forall|
                        j: int,
                    | 0 <= j < i && (#[trigger] segment[j]).0 == account ==> segment[j].1.height < after[account].height
            }
        }),
    decreases segment.len(),
{
    if segment.len() > 0 {
        let front = segment.drop_last();
        let n = segment.len() - 1;
        frontier_moves_only_up(frontiers, front, account);
        let before = raised_by(frontiers, front);
        let after = raised_by(frontiers, segment);
        assert forall|i: int| 0 <= i < n implies #[trigger] front[i] == segment[i] by {
        }
        assert forall|i: int| 0 <= i < n implies #[trigger] segment[i] == front[i] by {
        }
        assert(segment[n] == segment.last());
        if before.contains_key(account) && before[account] == after[account] {
            if exists|i: int|
                0 <= i < front.len() && (#[trigger] front[i]).0 == account && front[i].1 == before[account] && forall|j: int|
                    0 <= j < i && (#[trigger] front[j]).0 == account ==> front[j].1.height < before[account].height {
                let i = choose|i: int|
                    0 <= i < front.len() && (#[trigger] front[i]).0 == account && front[i].1 == before[account] && forall|j: int|
                        0 <= j < i && (#[trigger] front[j]).0 == account ==> front[j].1.height < before[account].height;
                assert(segment[i] == front[i]);
            }
        }
        if segment.last().0 == account {
            if before.contains_key(account) {
                lemma_frontier_heights(frontiers, front, account);
            } else {
                assert forall|i: int| 0 <= i < n implies (#[trigger] segment[i]).0 != account by {
                    assert(front[i] == segment[i]);
                }
            }
        }
    }
}

proof fn lemma_frontier_heights(frontiers: Frontiers, segment: Seq<(Account, ConfirmationHeightInfo)>, account: Account)
    requires
        raised_by(frontiers, segment).contains_key(account),
    ensures
        forall|i: int|
            0 <= i < segment.len() && (#[trigger] segment[i]).0 == account ==> segment[i].1.height <= raised_by(
                frontiers,
                segment,
            )[account].height,
    decreases segment.len(),
{
    if segment.len() > 0 {
        let front = segment.drop_last();
        if raised_by(frontiers, front).contains_key(account) {
            lemma_frontier_heights(frontiers, front, account);
        } else {
            frontier_moves_only_up(frontiers, front, account);
        }
        assert forall|i: int| 0 <= i < segment.len() && (#[trigger] segment[i]).0 == account implies segment[i].1.height
            <= raised_by(frontiers, segment)[account].height by {
            if i < front.len() {
                assert(front[i] == segment[i]);
            }
        }
    }
}

/// The record of an epoch names the close before it, and the zero hash where that is not known;
/// the same holds of the records that can be installed.
pub proof fn records_follow_the_close_before(m: Epochs, epoch: RaiEpoch, round: u32, hash: BlockHash)
    requires
        m.record_rounds.contains_key(epoch) ==> m.record_rounds[epoch].decision is None,
        !m.close_hashes.contains_key(epoch),
    ensures
        ({
            let before = RaiEpoch { number: (epoch.number - 1) as u64 };
            let previous = if epoch.number > 0 && m.close_hashes.contains_key(before) {
                m.close_hashes[before]
            } else {
                BlockHash { hi: 0, lo: 0 }
            };
            &&& m.previous_close(epoch) == previous
            &&& m.install_error(epoch, round, hash) is None ==> m.close_records[hash].previous == previous
            &&& m.is_closing(epoch, RaiClosingPhase::Draining) ==> m.local_record().previous == previous
        }),
{
}

/// Without votes of any committee an obligation stays as it is.
pub proof fn no_committee_settles_nothing(d: Drain, slot: RaiSlotId, evidence: ElectionVotes)
    requires
        evidence.committees.len() == 0,
    ensures
        d.outcome(slot, evidence) is None,
        d.with_evidence(slot, evidence) == d,
{
}

/// A request for a decided cut or record is answered exactly where its root is that of the round it
/// was decided in.
pub proof fn decided_rounds_answer_to_their_root(m: Epochs, epoch: RaiEpoch, root: Root, round: u32, hash: BlockHash)
    ensures
        m.cut_rounds.contains_key(epoch) && m.cut_rounds[epoch].decision == Some((round, hash)) ==> (m.cut_answers(epoch, root)
            <==> m.cut_hashes.contains_key(epoch) && m.cut_hashes[epoch] == hash && root == election_root(
            "RAI/CloseCutId",
            epoch,
            round,
        ).root),
        !m.cut_rounds.contains_key(epoch) || m.cut_rounds[epoch].decision is None ==> !m.cut_answers(epoch, root),
        m.record_rounds.contains_key(epoch) && m.record_rounds[epoch].decision == Some((round, hash)) ==> (m.record_answers(
            epoch,
            root,
        ) <==> m.close_hashes.contains_key(epoch) && m.close_hashes[epoch] == hash && root == election_root(
            "RAI/CloseRecordId",
            epoch,
            round,
        ).root),
        !m.record_rounds.contains_key(epoch) || m.record_rounds[epoch].decision is None ==> !m.record_answers(epoch, root),
{
}

/// An advanced drain is stored for its epoch and raises its frontiers, if they are known; other
/// epochs are left alone.
pub proof fn drains_advance_apart(
    m: Epochs,
    epoch: RaiEpoch,
    drain: Drain,
    segment: Seq<(Account, ConfirmationHeightInfo)>,
    other: RaiEpoch,
)
    requires
        other != epoch,
    ensures
        ({
            let after = m.drain_advanced(epoch, drain, segment);
            &&& after.drains.contains_key(epoch) && after.drains[epoch] == drain
            &&& m.drain_frontiers.contains_key(epoch) ==> after.drain_frontiers[epoch] == raised_by(
                m.drain_frontiers[epoch],
                segment,
            )
            &&& after.drain_frontiers.contains_key(epoch) <==> m.drain_frontiers.contains_key(epoch)
            &&& m.drains.contains_key(other) ==> after.drains[other] == m.drains[other]
            &&& m.drain_frontiers.contains_key(other) ==> after.drain_frontiers[other] == m.drain_frontiers[other]
        }),
{
}

}
