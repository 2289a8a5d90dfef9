//! The life of epochs: what is open, closing and closed.
use vstd::prelude::*;

use crate::bytes::{push_text, text_bytes};
use crate::close_values::{
    carry_root, close_value_pairs, entries_hash, finalized_root, hash_carry_entries, hash_entries,
    hash_finalized_entries, stored_close_values, stored_close_values_round_trip, visible_hash, CloseRecordEntries,
    RaiCloseValueSnapshot, RaiClosedSlotState, RaiVisibilityTracker, StoredCloseValue, Visibility, VisibleSlots,
};
use crate::committee::RaiEpoch;
use crate::digest::{blake2b_256, digest_hash};
use crate::ordered::{
    ascending, lemma_ascending, lemma_map_of_pairs, lemma_take_distinct, lemma_value_exists, map_of, pairs_of,
    sorted_map_is_finite, sorted_set_is_finite, Duplicate, SortedMap, SortedSet,
};
use crate::types::{BlockHash, PendingReport, PublicKey, RaiPendingReport, RaiSlot};

verus! {

broadcast use {sorted_set_is_finite, sorted_map_is_finite};

/// The number of a try at a close election.
pub type RaiCloseAttempt = u64;

/// Where an epoch stands.
#[derive(Clone, Copy, Debug, PartialEq, Eq, Structural)]
pub enum RaiEpochPhase {
    Open,
    Closing,
    Closed,
}

impl DeepView for RaiEpochPhase {
    type V = RaiEpochPhase;

    open spec fn deep_view(&self) -> RaiEpochPhase {
        *self
    }
}

impl Duplicate for RaiEpochPhase {
    fn duplicate(&self) -> (r: Self) {
        *self
    }

    fn agrees(&self, other: &Self) -> (r: bool) {
        *self == *other
    }
}

/// Why an epoch does not move on.
#[derive(Clone, Copy, Debug, PartialEq, Eq, Structural)]
pub enum RaiEpochTransitionError {
    NotCurrent,
    NotClosing,
    AlreadyClosed,
    CutMissing,
    CutNotDrained,
    CloseRecordMissing,
}

/// Why a pending report is not kept.
#[derive(Clone, Copy, Debug, PartialEq, Eq, Structural)]
pub enum RaiPendingReportInsertError {
    Duplicate,
}

/// A record of how an epoch closed; it has a hash.
pub trait EpochRecord: Duplicate {
    spec fn digest(record: Self::V) -> BlockHash;

    /// Whether the record can be the one of an epoch.
    spec fn fits(record: Self::V, epoch: RaiEpoch) -> bool;

    fn hash(&self) -> (r: BlockHash)
        ensures
            r == Self::digest(self.deep_view()),
    ;

    fn fits_epoch(&self, epoch: RaiEpoch) -> (r: bool)
        ensures
            r == Self::fits(self.deep_view(), epoch),
    ;
}

/// A close record that commits to finalized and carried slots by two roots.
#[derive(Clone, Copy, Debug, PartialEq, Eq, Structural)]
pub struct RaiCloseRecord {
    pub previous_close_hash: BlockHash,
    pub finalized_root: BlockHash,
    pub carry_root: BlockHash,
}

impl RaiCloseRecord {
    /// The encoding that names the record.
    pub open spec fn bytes(self) -> Seq<u8> {
        text_bytes("rai close record ") + self.previous_close_hash.bytes() + self.finalized_root.bytes()
            + self.carry_root.bytes()
    }

    pub fn new(previous_close_hash: BlockHash, finalized_root: BlockHash, carry_root: BlockHash) -> (r: Self)
        ensures
            r == (RaiCloseRecord { previous_close_hash, finalized_root, carry_root }),
    {
        RaiCloseRecord { previous_close_hash, finalized_root, carry_root }
    }

    /// The record over entries that follows a close.
    pub open spec fn of_entries(
        previous_close_hash: BlockHash,
        entries: Map<RaiSlot, RaiClosedSlotState>,
    ) -> RaiCloseRecord {
        RaiCloseRecord {
            previous_close_hash,
            finalized_root: finalized_root(entries),
            carry_root: carry_root(entries),
        }
    }
}

impl DeepView for RaiCloseRecord {
    type V = RaiCloseRecord;

    open spec fn deep_view(&self) -> RaiCloseRecord {
        *self
    }
}

impl Duplicate for RaiCloseRecord {
    fn duplicate(&self) -> (r: Self) {
        *self
    }

    fn agrees(&self, other: &Self) -> (r: bool) {
        *self == *other
    }
}

impl EpochRecord for RaiCloseRecord {
    open spec fn digest(record: RaiCloseRecord) -> BlockHash {
        BlockHash::of_bytes(blake2b_256(record.bytes()))
    }

    /// The record names no epoch.
    open spec fn fits(record: RaiCloseRecord, epoch: RaiEpoch) -> bool {
        true
    }

    fn fits_epoch(&self, epoch: RaiEpoch) -> (r: bool) {
        true
    }

    fn hash(&self) -> (r: BlockHash) {
        let mut bytes: Vec<u8> = Vec::new();
        push_text(&mut bytes, "rai close record ");
        self.previous_close_hash.push_bytes(&mut bytes);
        self.finalized_root.push_bytes(&mut bytes);
        self.carry_root.push_bytes(&mut bytes);
        proof {
            assert(bytes@ =~= self.bytes());
        }
        digest_hash(&bytes)
    }
}

/// Records with the same bytes are the same record.
pub proof fn record_bytes_identify_record(a: RaiCloseRecord, b: RaiCloseRecord)
    requires
        a.bytes() == b.bytes(),
    ensures
        a == b,
{
    let p = a.bytes();
    let q = b.bytes();
    let d = text_bytes("rai close record ").len() as int;
    a.previous_close_hash.bytes_round_trip();
    b.previous_close_hash.bytes_round_trip();
    a.finalized_root.bytes_round_trip();
    b.finalized_root.bytes_round_trip();
    a.carry_root.bytes_round_trip();
    b.carry_root.bytes_round_trip();
    assert(p.subrange(d, d + 32) =~= a.previous_close_hash.bytes());
    assert(q.subrange(d, d + 32) =~= b.previous_close_hash.bytes());
    assert(p.subrange(d + 32, d + 64) =~= a.finalized_root.bytes());
    assert(q.subrange(d + 32, d + 64) =~= b.finalized_root.bytes());
    assert(p.subrange(d + 64, d + 96) =~= a.carry_root.bytes());
    assert(q.subrange(d + 64, d + 96) =~= b.carry_root.bytes());
}

/// A close record with the entries that it commits to.
#[derive(Debug, PartialEq, Eq)]
pub struct RaiCloseRecordValue<R: EpochRecord> {
    pub record: R,
    pub entries: CloseRecordEntries,
}

/// The model of a close record with its entries.
#[verifier::ext_equal]
pub struct Package<V> {
    pub record: V,
    pub entries: Map<RaiSlot, RaiClosedSlotState>,
}

impl<R: EpochRecord> DeepView for RaiCloseRecordValue<R> {
    type V = Package<R::V>;

    open spec fn deep_view(&self) -> Package<R::V> {
        Package { record: self.record.deep_view(), entries: self.entries@ }
    }
}

impl<R: EpochRecord> Duplicate for RaiCloseRecordValue<R> {
    fn duplicate(&self) -> (r: Self) {
        RaiCloseRecordValue { record: self.record.duplicate(), entries: self.entries.duplicate() }
    }

    fn agrees(&self, other: &Self) -> (r: bool) {
        self.record.agrees(&other.record) && self.entries.agrees(&other.entries)
    }
}

/// What is known of one epoch.
pub struct RaiCloseEpochState<R: EpochRecord> {
    pub phase: RaiEpochPhase,
    pub close_hash: Option<BlockHash>,
    pub pending_reports: SortedMap<PublicKey, RaiPendingReport>,
    pub visibility: RaiVisibilityTracker,
    pub started_close_attempts: SortedSet<RaiCloseAttempt>,
    pub processed_close_attempts: SortedSet<RaiCloseAttempt>,
    pub cut_set: Option<VisibleSlots>,
    pub closed_slots: SortedMap<RaiSlot, RaiClosedSlotState>,
    pub close_record_values: SortedMap<BlockHash, RaiCloseRecordValue<R>>,
    pub started_close_record_attempts: SortedSet<RaiCloseAttempt>,
    pub processed_close_record_attempts: SortedSet<RaiCloseAttempt>,
}

/// The model of one epoch.
#[verifier::ext_equal]
pub struct CloseEpoch<V> {
    pub phase: RaiEpochPhase,
    pub close_hash: Option<BlockHash>,
    pub pending_reports: Map<PublicKey, PendingReport>,
    pub visibility: Visibility,
    pub started_cuts: Set<RaiCloseAttempt>,
    pub processed_cuts: Set<RaiCloseAttempt>,
    pub cut: Option<Set<RaiSlot>>,
    pub closed_slots: Map<RaiSlot, RaiClosedSlotState>,
    pub records: Map<BlockHash, Package<V>>,
    pub started_records: Set<RaiCloseAttempt>,
    pub processed_records: Set<RaiCloseAttempt>,
}

impl<R: EpochRecord> DeepView for RaiCloseEpochState<R> {
    type V = CloseEpoch<R::V>;

    open spec fn deep_view(&self) -> CloseEpoch<R::V> {
        CloseEpoch {
            phase: self.phase,
            close_hash: self.close_hash,
            pending_reports: self.pending_reports@,
            visibility: self.visibility@,
            started_cuts: self.started_close_attempts@,
            processed_cuts: self.processed_close_attempts@,
            cut: self.cut_set.deep_view(),
            closed_slots: self.closed_slots@,
            records: self.close_record_values@,
            started_records: self.started_close_record_attempts@,
            processed_records: self.processed_close_record_attempts@,
        }
    }
}

/// Every report stands under its reporter.
pub open spec fn reports_keyed(reports: Map<PublicKey, PendingReport>) -> bool {
    forall|reporter: PublicKey| #[trigger] reports.contains_key(reporter) ==> reports[reporter].reporter == reporter
}

impl<V> CloseEpoch<V> {
    /// An epoch in which nothing has happened.
    pub open spec fn open() -> CloseEpoch<V> {
        CloseEpoch {
            phase: RaiEpochPhase::Open,
            close_hash: None,
            pending_reports: Map::empty(),
            visibility: Visibility::empty(),
            started_cuts: Set::empty(),
            processed_cuts: Set::empty(),
            cut: None,
            closed_slots: Map::empty(),
            records: Map::empty(),
            started_records: Set::empty(),
            processed_records: Set::empty(),
        }
    }

    /// Every report stands under its reporter, and all parts are finite.
    pub open spec fn well_formed(self) -> bool {
        reports_keyed(self.pending_reports) && self.has_finite_parts()
    }

    pub open spec fn has_finite_parts(self) -> bool {
        &&& self.pending_reports.dom().finite()
        &&& self.visibility.well_formed()
        &&& self.started_cuts.finite()
        &&& self.processed_cuts.finite()
        &&& self.cut is Some ==> self.cut->0.finite()
        &&& self.closed_slots.dom().finite()
        &&& self.records.dom().finite()
        &&& forall|hash: BlockHash| #[trigger]
            self.records.contains_key(hash) ==> self.records[hash].entries.dom().finite()
        &&& self.started_records.finite()
        &&& self.processed_records.finite()
    }

    /// Every slot of the cut has a closed state.
    pub open spec fn drained(self) -> bool {
        self.cut is Some && forall|slot: RaiSlot| #[trigger]
            self.cut->0.contains(slot) ==> self.closed_slots.contains_key(slot)
    }

    /// The closed states of the cut.
    pub open spec fn entries(self) -> Map<RaiSlot, RaiClosedSlotState> {
        self.closed_slots.restrict(self.cut->0)
    }

    /// Why the entries of the close record are not known yet.
    pub open spec fn entries_error(self) -> Option<RaiEpochTransitionError> {
        if self.cut is None {
            Some(RaiEpochTransitionError::CutMissing)
        } else if !self.drained() {
            Some(RaiEpochTransitionError::CutNotDrained)
        } else {
            None
        }
    }

    /// A new slot vote may be cast.
    pub open spec fn enables(self, slot: RaiSlot) -> bool {
        match self.phase {
            RaiEpochPhase::Open => true,
            RaiEpochPhase::Closing => self.cut is Some && self.cut->0.contains(slot),
            RaiEpochPhase::Closed => false,
        }
    }

    /// A slot vote of another voter may be counted.
    pub open spec fn accepts(self, slot: RaiSlot) -> bool {
        match self.phase {
            RaiEpochPhase::Open => true,
            RaiEpochPhase::Closing => self.cut is None || self.cut->0.contains(slot),
            RaiEpochPhase::Closed => false,
        }
    }

    /// Votes for the slot in this epoch bind no longer.
    pub open spec fn releases(self, slot: RaiSlot) -> bool {
        &&& self.phase == RaiEpochPhase::Closed
        &&& self.cut is Some
        &&& !self.cut->0.contains(slot) || (self.closed_slots.contains_key(slot) && self.closed_slots[slot]
            == RaiClosedSlotState::Released)
    }

    /// A record with its entries is kept under a hash, unless the hash is taken.
    pub open spec fn with_record(self, hash: BlockHash, package: Package<V>) -> CloseEpoch<V> {
        if self.records.contains_key(hash) {
            self
        } else {
            CloseEpoch { records: self.records.insert(hash, package), ..self }
        }
    }

    /// The close hash that holds when the epoch ends: the certified one, or that of the only record.
    pub open spec fn settled_hash(self) -> Option<BlockHash> {
        if self.close_hash is Some {
            self.close_hash
        } else if self.records.len() == 1 {
            Some(ascending(self.records.dom())[0])
        } else {
            None
        }
    }

    /// Why the epoch does not end.
    pub open spec fn end_error(self) -> Option<RaiEpochTransitionError> {
        if self.phase != RaiEpochPhase::Closing {
            Some(RaiEpochTransitionError::NotClosing)
        } else if self.entries_error() is Some {
            self.entries_error()
        } else if self.settled_hash() is None {
            Some(RaiEpochTransitionError::CloseRecordMissing)
        } else {
            None
        }
    }

    pub open spec fn ended(self) -> CloseEpoch<V> {
        CloseEpoch { phase: RaiEpochPhase::Closed, close_hash: self.settled_hash(), ..self }
    }
}

impl<R: EpochRecord> Duplicate for RaiCloseEpochState<R> {
    fn duplicate(&self) -> (r: Self) {
        RaiCloseEpochState {
            phase: self.phase,
            close_hash: self.close_hash,
            pending_reports: self.pending_reports.duplicate(),
            visibility: self.visibility.duplicate(),
            started_close_attempts: self.started_close_attempts.duplicate(),
            processed_close_attempts: self.processed_close_attempts.duplicate(),
            cut_set: self.cut_set.duplicate(),
            closed_slots: self.closed_slots.duplicate(),
            close_record_values: self.close_record_values.duplicate(),
            started_close_record_attempts: self.started_close_record_attempts.duplicate(),
            processed_close_record_attempts: self.processed_close_record_attempts.duplicate(),
        }
    }

    fn agrees(&self, other: &Self) -> (r: bool) {
        self.phase == other.phase && self.close_hash.agrees(&other.close_hash) && self.pending_reports.agrees(
            &other.pending_reports,
        ) && self.visibility.agrees(&other.visibility) && self.started_close_attempts.agrees(
            &other.started_close_attempts,
        ) && self.processed_close_attempts.agrees(&other.processed_close_attempts) && self.cut_set.agrees(
            &other.cut_set,
        ) && self.closed_slots.agrees(&other.closed_slots) && self.close_record_values.agrees(
            &other.close_record_values,
        ) && self.started_close_record_attempts.agrees(&other.started_close_record_attempts)
            && self.processed_close_record_attempts.agrees(&other.processed_close_record_attempts)
    }
}

impl<R: EpochRecord> RaiCloseEpochState<R> {
    /// All parts of the model are finite.
    pub proof fn lemma_finite_parts(&self)
        ensures
            self.deep_view().has_finite_parts(),
    {
        self.visibility.lemma_well_formed();
        let records = self.close_record_values;
        assert forall|hash: BlockHash| #[trigger] records@.contains_key(hash) implies records@[hash].entries.dom().finite() by {
            let value = lemma_value_exists(records, hash);
            assert(value.entries@.dom().finite());
        }
        if self.cut_set is Some {
            assert(self.cut_set->0@.finite());
        }
    }

    pub fn open() -> (r: Self)
        ensures
            r.deep_view() == CloseEpoch::<R::V>::open(),
    {
        let pending_reports: SortedMap<PublicKey, RaiPendingReport> = SortedMap::new();
        let closed_slots: SortedMap<RaiSlot, RaiClosedSlotState> = SortedMap::new();
        let close_record_values: SortedMap<BlockHash, RaiCloseRecordValue<R>> = SortedMap::new();
        RaiCloseEpochState {
            phase: RaiEpochPhase::Open,
            close_hash: None,
            pending_reports,
            visibility: RaiVisibilityTracker::new(),
            started_close_attempts: SortedSet::new(),
            processed_close_attempts: SortedSet::new(),
            cut_set: None,
            closed_slots,
            close_record_values,
            started_close_record_attempts: SortedSet::new(),
            processed_close_record_attempts: SortedSet::new(),
        }
    }

    fn cut_drained(&self) -> (r: bool)
        ensures
            r == self.deep_view().drained(),
    {
        match &self.cut_set {
            Some(cut) => {
                let n: usize = cut.len();
                let ghost slots = ascending(cut@);
                proof {
                    lemma_ascending(cut@);
                }
                for i in 0..n
                    invariant
                        n == cut@.len(),
                        n == slots.len(),
                        slots == ascending(cut@),
                        forall|j: int| 0 <= j < i ==> self.closed_slots@.contains_key(#[trigger] slots[j]),
                        self.cut_set.deep_view() == Some(cut@),
                {
                    let slot = cut.at(i);
                    if !self.closed_slots.contains_key(&slot) {
                        proof {
                            assert(self.deep_view().cut->0.contains(slot));
                        }
                        return false;
                    }
                }
                proof {
                    assert forall|slot: RaiSlot| #[trigger] cut@.contains(slot) implies self.closed_slots@.contains_key(
                        slot,
                    ) by {
                        assert(slots.contains(slot));
                        let j = choose|j: int| 0 <= j < slots.len() && slots[j] == slot;
                        assert(self.closed_slots@.contains_key(slots[j]));
                    }
                }
                true
            },
            None => false,
        }
    }

    pub(crate) fn current_close_record_entries(&self) -> (r: Result<CloseRecordEntries, RaiEpochTransitionError>)
        ensures
            match r {
                Ok(entries) => self.deep_view().entries_error() is None && entries@ == self.deep_view().entries(),
                Err(error) => self.deep_view().entries_error() == Some(error),
            },
    {
        match &self.cut_set {
            None => Err(RaiEpochTransitionError::CutMissing),
            Some(cut) => {
                if !self.cut_drained() {
                    return Err(RaiEpochTransitionError::CutNotDrained);
                }
                let n: usize = cut.len();
                let ghost slots = ascending(cut@);
                let mut entries: CloseRecordEntries = SortedMap::new();
                proof {
                    lemma_ascending(cut@);
                    assert(self.closed_slots@.restrict(slots.take(0).to_set()) =~= Map::<
                        RaiSlot,
                        RaiClosedSlotState,
                    >::empty());
                }
                for i in 0..n
                    invariant
                        n == cut@.len(),
                        n == slots.len(),
                        slots == ascending(cut@),
                        slots.no_duplicates(),
                        self.cut_set.deep_view() == Some(cut@),
                        self.deep_view().drained(),
                        entries@ == self.closed_slots@.restrict(slots.take(i as int).to_set()),
                {
                    let slot = cut.at(i);
                    proof {
                        lemma_take_distinct(slots, i as int);
                        assert(self.deep_view().cut->0.contains(slot));
                    }
                    if let Some(state) = self.closed_slots.get(&slot) {
                        entries.insert(slot, *state);
                    }
                    proof {
                        assert(entries@ =~= self.closed_slots@.restrict(slots.take(i + 1).to_set()));
                    }
                }
                proof {
                    assert(slots.take(n as int) =~= slots);
                    assert(entries@ =~= self.deep_view().entries());
                }
                Ok(entries)
            },
        }
    }
}

/// The epochs and the one that is current.
pub struct RaiCloseState<R: EpochRecord> {
    current_epoch: RaiEpoch,
    epochs: SortedMap<RaiEpoch, RaiCloseEpochState<R>>,
}

/// The model of the epochs.
#[verifier::ext_equal]
pub struct CloseState<V> {
    pub current: RaiEpoch,
    pub epochs: Map<RaiEpoch, CloseEpoch<V>>,
}

impl<V> CloseState<V> {
    pub open spec fn initial() -> CloseState<V> {
        CloseState { current: 0, epochs: Map::empty().insert(0, CloseEpoch::open()) }
    }

    pub open spec fn well_formed(self) -> bool {
        &&& self.epochs.contains_key(self.current)
        &&& self.epochs.dom().finite()
        &&& forall|epoch: RaiEpoch| #[trigger] self.epochs.contains_key(epoch) ==> self.epochs[epoch].well_formed()
    }

    /// What is known of an epoch; an unknown epoch is open.
    pub open spec fn epoch(self, epoch: RaiEpoch) -> CloseEpoch<V> {
        if self.epochs.contains_key(epoch) {
            self.epochs[epoch]
        } else {
            CloseEpoch::open()
        }
    }

    pub open spec fn with_epoch(self, epoch: RaiEpoch, state: CloseEpoch<V>) -> CloseState<V> {
        CloseState { epochs: self.epochs.insert(epoch, state), ..self }
    }

    /// The epoch becomes known.
    pub open spec fn knowing(self, epoch: RaiEpoch) -> CloseState<V> {
        self.with_epoch(epoch, self.epoch(epoch))
    }

    /// The close hash that an epoch builds on.
    pub open spec fn previous_hash(self, epoch: RaiEpoch) -> Option<BlockHash> {
        if epoch == 0 {
            Some(BlockHash { hi: 0, lo: 0 })
        } else {
            self.epoch((epoch - 1) as RaiEpoch).close_hash
        }
    }

    /// The epoch that takes new slots: the current one while it is open, then its successor.
    pub open spec fn open_epoch(self) -> int {
        if self.epoch(self.current).phase == RaiEpochPhase::Open {
            self.current as int
        } else {
            self.current + 1
        }
    }

    /// Why the current epoch does not end.
    pub open spec fn advance_error(self, epoch: RaiEpoch) -> Option<RaiEpochTransitionError> {
        if epoch != self.current {
            Some(RaiEpochTransitionError::NotCurrent)
        } else {
            self.epoch(epoch).end_error()
        }
    }

    /// The current epoch has ended and the next one is current.
    pub open spec fn advanced(self) -> CloseState<V> {
        let next = (self.current + 1) as RaiEpoch;
        let ended = self.with_epoch(self.current, self.epoch(self.current).ended());
        CloseState { current: next, ..ended.knowing(next) }
    }

    pub open spec fn closing_error(self, epoch: RaiEpoch) -> Option<RaiEpochTransitionError> {
        if epoch != self.current {
            Some(RaiEpochTransitionError::NotCurrent)
        } else if self.epoch(epoch).phase == RaiEpochPhase::Closed {
            Some(RaiEpochTransitionError::AlreadyClosed)
        } else {
            None
        }
    }
}

impl<R: EpochRecord> View for RaiCloseState<R> {
    type V = CloseState<R::V>;

    closed spec fn view(&self) -> CloseState<R::V> {
        CloseState { current: self.current_epoch, epochs: self.epochs@ }
    }
}

impl<R: EpochRecord> RaiCloseState<R> {
    #[verifier::type_invariant]
    spec fn is_well_formed(&self) -> bool {
        self.view().well_formed()
    }

    /// Epoch 0 is current and open.
    pub fn new() -> (r: Self)
        ensures
            r@ == CloseState::<R::V>::initial(),
    {
        let mut epochs: SortedMap<RaiEpoch, RaiCloseEpochState<R>> = SortedMap::new();
        epochs.insert(0, RaiCloseEpochState::open());
        RaiCloseState { current_epoch: 0, epochs }
    }

    /// The state over known epochs; the current one becomes known.
    pub(crate) fn from_epochs(current_epoch: RaiEpoch, epochs: SortedMap<RaiEpoch, RaiCloseEpochState<R>>) -> (r: Self)
        requires
            forall|epoch: RaiEpoch| #[trigger]
                epochs@.contains_key(epoch) ==> reports_keyed(epochs@[epoch].pending_reports),
        ensures
            r@ == (CloseState { current: current_epoch, epochs: epochs@ }).knowing(current_epoch),
    {
        proof {
            assert forall|epoch: RaiEpoch| #[trigger] epochs@.contains_key(epoch) implies epochs@[epoch].well_formed() by {
                let state = lemma_value_exists(epochs, epoch);
                state.lemma_finite_parts();
            }
        }
        let mut epochs = epochs;
        let ghost given = epochs@;
        if !epochs.contains_key(&current_epoch) {
            epochs.insert(current_epoch, RaiCloseEpochState::open());
        }
        let r = RaiCloseState { current_epoch, epochs };
        proof {
            assert(r@ =~= (CloseState { current: current_epoch, epochs: given }).knowing(current_epoch));
        }
        r
    }

    fn epoch(&self, epoch: RaiEpoch) -> (r: Option<&RaiCloseEpochState<R>>)
        ensures
            match r {
                Some(state) => self@.epochs.contains_key(epoch) && state.deep_view() == self@.epochs[epoch],
                None => !self@.epochs.contains_key(epoch),
            },
    {
        self.epochs.get(&epoch)
    }

    /// A copy of what is known of an epoch.
    pub(crate) fn copy_epoch(&self, epoch: RaiEpoch) -> (r: RaiCloseEpochState<R>)
        ensures
            r.deep_view() == self@.epoch(epoch),
            r.deep_view().well_formed(),
    {
        proof {
            use_type_invariant(self);
        }
        match self.epochs.get(&epoch) {
            Some(state) => state.duplicate(),
            None => RaiCloseEpochState::open(),
        }
    }

    /// Replaces what is known of an epoch.
    pub(crate) fn put_epoch(&mut self, epoch: RaiEpoch, state: RaiCloseEpochState<R>)
        requires
            state.deep_view().well_formed(),
        ensures
            final(self)@ == old(self)@.with_epoch(epoch, state.deep_view()),
    {
        proof {
            use_type_invariant(&*self);
        }
        let current_epoch = self.current_epoch;
        let mut taken: RaiCloseState<R> = RaiCloseState::new();
        core::mem::swap(&mut taken, self);
        let RaiCloseState { current_epoch: _, epochs: mut all } = taken;
        all.insert(epoch, state);
        *self = RaiCloseState { current_epoch, epochs: all };
    }

    /// Makes an epoch known.
    pub(crate) fn touch(&mut self, epoch: RaiEpoch)
        ensures
            final(self)@ == old(self)@.knowing(epoch),
    {
        let state = self.copy_epoch(epoch);
        self.put_epoch(epoch, state);
    }

    pub fn current_epoch(&self) -> (r: RaiEpoch)
        ensures
            r == self@.current,
    {
        self.current_epoch
    }

    pub fn current_epoch_phase(&self) -> (r: RaiEpochPhase)
        ensures
            r == self@.epoch(self@.current).phase,
    {
        match self.epoch_phase(self.current_epoch) {
            Some(phase) => phase,
            None => RaiEpochPhase::Open,
        }
    }

    /// The epoch that takes new slots.
    pub fn open_epoch(&self) -> (r: RaiEpoch)
        requires
            self@.open_epoch() <= u64::MAX,
        ensures
            r == self@.open_epoch(),
    {
        if self.current_epoch_phase() == RaiEpochPhase::Open {
            self.current_epoch
        } else {
            self.current_epoch + 1
        }
    }

    pub fn epoch_phase(&self, epoch: RaiEpoch) -> (r: Option<RaiEpochPhase>)
        ensures
            r == if self@.epochs.contains_key(epoch) {
                Some(self@.epoch(epoch).phase)
            } else {
                None
            },
    {
        match self.epoch(epoch) {
            Some(state) => Some(state.phase),
            None => None,
        }
    }

    /// Ends the open phase of the current epoch.
    pub fn start_closing(&mut self, epoch: RaiEpoch) -> (r: Result<(), RaiEpochTransitionError>)
        ensures
            match r {
                Ok(_) => {
                    &&& old(self)@.closing_error(epoch) is None
                    &&& final(self)@ == old(self)@.with_epoch(
                        epoch,
                        (CloseEpoch { phase: RaiEpochPhase::Closing, ..old(self)@.epoch(epoch) }),
                    )
                },
                Err(error) => {
                    &&& old(self)@.closing_error(epoch) == Some(error)
                    &&& final(self)@ == old(self)@
                },
            },
    {
        proof {
            use_type_invariant(&*self);
        }
        if epoch != self.current_epoch {
            return Err(RaiEpochTransitionError::NotCurrent);
        }
        let mut state = self.copy_epoch(epoch);
        if state.phase == RaiEpochPhase::Closed {
            return Err(RaiEpochTransitionError::AlreadyClosed);
        }
        state.phase = RaiEpochPhase::Closing;
        self.put_epoch(epoch, state);
        Ok(())
    }

    pub fn is_slot_vote_enabled(&self, epoch: RaiEpoch, slot: &RaiSlot) -> (r: bool)
        ensures
            r == self@.epoch(epoch).enables(*slot),
    {
        match self.epoch(epoch) {
            None => true,
            Some(state) => match state.phase {
                RaiEpochPhase::Open => true,
                RaiEpochPhase::Closing => match &state.cut_set {
                    Some(cut) => cut.contains(slot),
                    None => false,
                },
                RaiEpochPhase::Closed => false,
            },
        }
    }

    pub fn is_slot_vote_acceptable(&self, epoch: RaiEpoch, slot: &RaiSlot) -> (r: bool)
        ensures
            r == self@.epoch(epoch).accepts(*slot),
    {
        match self.epoch(epoch) {
            None => true,
            Some(state) => match state.phase {
                RaiEpochPhase::Open => true,
                RaiEpochPhase::Closing => match &state.cut_set {
                    Some(cut) => cut.contains(slot),
                    None => true,
                },
                RaiEpochPhase::Closed => false,
            },
        }
    }

    /// Keeps the first report of each reporter.
    pub fn insert_pending_report(&mut self, report: RaiPendingReport) -> (r: Result<(), RaiPendingReportInsertError>)
        ensures
            match r {
                Ok(_) => {
                    let before = old(self)@.epoch(report.epoch);
                    &&& !before.pending_reports.contains_key(report.reporter)
                    &&& final(self)@ == old(self)@.with_epoch(
                        report.epoch,
                        (CloseEpoch {
                            pending_reports: before.pending_reports.insert(report.reporter, report.deep_view()),
                            ..before
                        }),
                    )
                },
                Err(_) => {
                    &&& old(self)@.epoch(report.epoch).pending_reports.contains_key(report.reporter)
                    &&& final(self)@ == old(self)@
                },
            },
    {
        let epoch = report.epoch;
        let mut state = self.copy_epoch(epoch);
        if state.pending_reports.contains_key(&report.reporter) {
            return Err(RaiPendingReportInsertError::Duplicate);
        }
        state.pending_reports.insert(report.reporter, report);
        self.put_epoch(epoch, state);
        Ok(())
    }

    pub fn pending_report(&self, epoch: RaiEpoch, reporter: &PublicKey) -> (r: Option<&RaiPendingReport>)
        ensures
            match r {
                Some(report) => self@.epoch(epoch).pending_reports.contains_key(*reporter) && report.deep_view()
                    == self@.epoch(epoch).pending_reports[*reporter],
                None => !self@.epoch(epoch).pending_reports.contains_key(*reporter),
            },
    {
        match self.epoch(epoch) {
            Some(state) => state.pending_reports.get(reporter),
            None => None,
        }
    }

    pub fn pending_report_count(&self, epoch: RaiEpoch) -> (r: usize)
        ensures
            r == self@.epoch(epoch).pending_reports.len(),
    {
        match self.epoch(epoch) {
            Some(state) => state.pending_reports.len(),
            None => 0,
        }
    }

    /// The reports of an epoch in the order of the reporters.
    pub fn pending_reports(&self, epoch: RaiEpoch) -> (r: Vec<RaiPendingReport>)
        ensures
            r.deep_view() == stored_reports(self@.epoch(epoch).pending_reports),
            self@.epoch(epoch).well_formed(),
    {
        proof {
            use_type_invariant(self);
        }
        match self.epoch(epoch) {
            Some(state) => store_reports(&state.pending_reports),
            None => {
                let none: Vec<RaiPendingReport> = Vec::new();
                proof {
                    lemma_ascending(Set::<PublicKey>::empty());
                    assert(none.deep_view() =~= stored_reports(Map::empty()));
                }
                none
            },
        }
    }

    /// Makes a slot visible in an epoch; reports whether it was not.
    pub fn mark_visible(&mut self, epoch: RaiEpoch, slot: RaiSlot) -> (r: bool)
        ensures
            r == !old(self)@.epoch(epoch).visibility.visible.contains(slot),
            final(self)@ == old(self)@.with_epoch(
                epoch,
                (CloseEpoch {
                    visibility: old(self)@.epoch(epoch).visibility.marked(set![slot]),
                    ..old(self)@.epoch(epoch)
                }),
            ),
    {
        let mut state = self.copy_epoch(epoch);
        let r = state.visibility.mark_visible(slot);
        proof {
            state.visibility.lemma_well_formed();
        }
        self.put_epoch(epoch, state);
        r
    }

    /// Makes slots visible in an epoch; reports whether any was not.
    pub fn mark_visible_slots(&mut self, epoch: RaiEpoch, slots: &Vec<RaiSlot>) -> (r: bool)
        ensures
            r == !slots@.to_set().subset_of(old(self)@.epoch(epoch).visibility.visible),
            final(self)@ == old(self)@.with_epoch(
                epoch,
                (CloseEpoch {
                    visibility: old(self)@.epoch(epoch).visibility.marked(slots@.to_set()),
                    ..old(self)@.epoch(epoch)
                }),
            ),
    {
        let mut state = self.copy_epoch(epoch);
        let r = state.visibility.mark_visible_slots(slots);
        proof {
            state.visibility.lemma_well_formed();
        }
        self.put_epoch(epoch, state);
        r
    }

    pub fn is_visible(&self, epoch: RaiEpoch, slot: &RaiSlot) -> (r: bool)
        ensures
            r == self@.epoch(epoch).visibility.visible.contains(*slot),
    {
        match self.epoch(epoch) {
            Some(state) => state.visibility.is_visible(slot),
            None => false,
        }
    }

    pub fn visible_slots(&self, epoch: RaiEpoch) -> (r: Option<&VisibleSlots>)
        ensures
            match r {
                Some(slots) => self@.epochs.contains_key(epoch) && slots@ == self@.epoch(epoch).visibility.visible,
                None => !self@.epochs.contains_key(epoch),
            },
    {
        match self.epoch(epoch) {
            Some(state) => Some(state.visibility.visible_slots()),
            None => None,
        }
    }

    /// The hash of the visible slots of an epoch.
    pub fn current_close_hash(&self, epoch: RaiEpoch) -> (r: BlockHash)
        ensures
            r == visible_hash(self@.epoch(epoch).visibility.visible),
    {
        match self.epoch(epoch) {
            Some(state) => state.visibility.current_close_hash(),
            None => {
                let none: VisibleSlots = SortedSet::new();
                RaiVisibilityTracker::hash_visible_slots(&none)
            },
        }
    }

    /// Keeps the visible slots of an epoch under their hash.
    pub fn record_current_close_value(&mut self, epoch: RaiEpoch) -> (r: BlockHash)
        ensures
            r == visible_hash(old(self)@.epoch(epoch).visibility.visible),
            final(self)@ == old(self)@.with_epoch(
                epoch,
                (CloseEpoch {
                    visibility: old(self)@.epoch(epoch).visibility.recorded(),
                    ..old(self)@.epoch(epoch)
                }),
            ),
    {
        let mut state = self.copy_epoch(epoch);
        let r = state.visibility.record_current_close_value();
        proof {
            state.visibility.lemma_well_formed();
        }
        self.put_epoch(epoch, state);
        r
    }

    /// Keeps a set of slots under a hash, unless the hash is taken; reports
    /// whether it was free.
    pub fn cache_close_value(&mut self, epoch: RaiEpoch, hash: BlockHash, slots: VisibleSlots) -> (r: bool)
        ensures
            ({
                let before = old(self)@.epoch(epoch);
                &&& r == !before.visibility.close_values.contains_key(hash)
                &&& final(self)@ == if r {
                    old(self)@.with_epoch(
                        epoch,
                        (CloseEpoch {
                            visibility: (Visibility {
                                close_values: before.visibility.close_values.insert(hash, slots@),
                                ..before.visibility
                            }),
                            ..before
                        }),
                    )
                } else {
                    old(self)@
                }
            }),
    {
        let mut state = self.copy_epoch(epoch);
        let r = state.visibility.cache_close_value(hash, slots);
        if r {
            proof {
                state.visibility.lemma_well_formed();
            }
            self.put_epoch(epoch, state);
        }
        r
    }

    pub fn close_value(&self, epoch: RaiEpoch, hash: &BlockHash) -> (r: Option<&VisibleSlots>)
        ensures
            match r {
                Some(slots) => self@.epoch(epoch).visibility.close_values.contains_key(*hash) && slots@
                    == self@.epoch(epoch).visibility.close_values[*hash],
                None => !self@.epoch(epoch).visibility.close_values.contains_key(*hash),
            },
    {
        match self.epoch(epoch) {
            Some(state) => state.visibility.close_value(hash),
            None => None,
        }
    }

    pub fn close_values(&self, epoch: RaiEpoch) -> (r: Option<&SortedMap<BlockHash, VisibleSlots>>)
        ensures
            match r {
                Some(values) => self@.epochs.contains_key(epoch) && values@
                    == self@.epoch(epoch).visibility.close_values,
                None => !self@.epochs.contains_key(epoch),
            },
    {
        match self.epoch(epoch) {
            Some(state) => Some(state.visibility.close_values()),
            None => None,
        }
    }

    pub fn has_close_values(&self, epoch: RaiEpoch) -> (r: bool)
        ensures
            r == (self@.epoch(epoch).visibility.close_values != Map::<BlockHash, Set<RaiSlot>>::empty()),
    {
        match self.close_values(epoch) {
            Some(values) => !values.is_empty(),
            None => false,
        }
    }

    pub fn close_record_value(&self, epoch: RaiEpoch, hash: &BlockHash) -> (r: Option<&RaiCloseRecordValue<R>>)
        ensures
            match r {
                Some(value) => self@.epoch(epoch).records.contains_key(*hash) && value.deep_view() == self@.epoch(
                    epoch,
                ).records[*hash],
                None => !self@.epoch(epoch).records.contains_key(*hash),
            },
    {
        match self.epoch(epoch) {
            Some(state) => state.close_record_values.get(hash),
            None => None,
        }
    }

    pub fn has_close_record_value(&self, epoch: RaiEpoch, hash: &BlockHash) -> (r: bool)
        ensures
            r == self@.epoch(epoch).records.contains_key(*hash),
    {
        self.close_record_value(epoch, hash).is_some()
    }

    pub fn has_close_record_values(&self, epoch: RaiEpoch) -> (r: bool)
        ensures
            r == (self@.epoch(epoch).records != Map::<BlockHash, Package<R::V>>::empty()),
    {
        match self.epoch(epoch) {
            Some(state) => !state.close_record_values.is_empty(),
            None => false,
        }
    }

    /// The close hash that was certified for an epoch.
    pub fn certified_close_hash(&self, epoch: RaiEpoch) -> (r: Option<BlockHash>)
        ensures
            r == self@.epoch(epoch).close_hash,
    {
        match self.epoch(epoch) {
            Some(state) => state.close_hash,
            None => None,
        }
    }
    /// Notes that a cut election was started; reports whether it was new.
    pub fn record_close_attempt_started(&mut self, epoch: RaiEpoch, attempt: RaiCloseAttempt) -> (r: bool)
        ensures
            r == !old(self)@.epoch(epoch).started_cuts.contains(attempt),
            final(self)@ == old(self)@.with_epoch(
                epoch,
                (CloseEpoch {
                    started_cuts: old(self)@.epoch(epoch).started_cuts.insert(attempt),
                    ..old(self)@.epoch(epoch)
                }),
            ),
    {
        let mut state = self.copy_epoch(epoch);
        let r = state.started_close_attempts.insert(attempt);
        self.put_epoch(epoch, state);
        r
    }

    pub fn close_attempt_started(&self, epoch: RaiEpoch, attempt: RaiCloseAttempt) -> (r: bool)
        ensures
            r == self@.epoch(epoch).started_cuts.contains(attempt),
    {
        match self.epoch(epoch) {
            Some(state) => state.started_close_attempts.contains(&attempt),
            None => false,
        }
    }

    pub fn started_close_attempts(&self, epoch: RaiEpoch) -> (r: Vec<RaiCloseAttempt>)
        ensures
            r@ == ascending(self@.epoch(epoch).started_cuts),
    {
        match self.epoch(epoch) {
            Some(state) => state.started_close_attempts.to_vec(),
            None => {
                let none: SortedSet<RaiCloseAttempt> = SortedSet::new();
                none.to_vec()
            },
        }
    }

    /// Notes that a cut election was processed; reports whether it was new.
    pub fn record_close_attempt_processed(&mut self, epoch: RaiEpoch, attempt: RaiCloseAttempt) -> (r: bool)
        ensures
            r == !old(self)@.epoch(epoch).processed_cuts.contains(attempt),
            final(self)@ == old(self)@.with_epoch(
                epoch,
                (CloseEpoch {
                    processed_cuts: old(self)@.epoch(epoch).processed_cuts.insert(attempt),
                    ..old(self)@.epoch(epoch)
                }),
            ),
    {
        let mut state = self.copy_epoch(epoch);
        let r = state.processed_close_attempts.insert(attempt);
        self.put_epoch(epoch, state);
        r
    }

    pub fn close_attempt_processed(&self, epoch: RaiEpoch, attempt: RaiCloseAttempt) -> (r: bool)
        ensures
            r == self@.epoch(epoch).processed_cuts.contains(attempt),
    {
        match self.epoch(epoch) {
            Some(state) => state.processed_close_attempts.contains(&attempt),
            None => false,
        }
    }

    /// Notes that a record election was started; reports whether it was new.
    pub fn record_close_record_attempt_started(&mut self, epoch: RaiEpoch, attempt: RaiCloseAttempt) -> (r: bool)
        ensures
            r == !old(self)@.epoch(epoch).started_records.contains(attempt),
            final(self)@ == old(self)@.with_epoch(
                epoch,
                (CloseEpoch {
                    started_records: old(self)@.epoch(epoch).started_records.insert(attempt),
                    ..old(self)@.epoch(epoch)
                }),
            ),
    {
        let mut state = self.copy_epoch(epoch);
        let r = state.started_close_record_attempts.insert(attempt);
        self.put_epoch(epoch, state);
        r
    }

    pub fn close_record_attempt_started(&self, epoch: RaiEpoch, attempt: RaiCloseAttempt) -> (r: bool)
        ensures
            r == self@.epoch(epoch).started_records.contains(attempt),
    {
        match self.epoch(epoch) {
            Some(state) => state.started_close_record_attempts.contains(&attempt),
            None => false,
        }
    }

    pub fn started_close_record_attempts(&self, epoch: RaiEpoch) -> (r: Vec<RaiCloseAttempt>)
        ensures
            r@ == ascending(self@.epoch(epoch).started_records),
    {
        match self.epoch(epoch) {
            Some(state) => state.started_close_record_attempts.to_vec(),
            None => {
                let none: SortedSet<RaiCloseAttempt> = SortedSet::new();
                none.to_vec()
            },
        }
    }

    /// Notes that a record election was processed; reports whether it was new.
    pub fn record_close_record_attempt_processed(&mut self, epoch: RaiEpoch, attempt: RaiCloseAttempt) -> (r: bool)
        ensures
            r == !old(self)@.epoch(epoch).processed_records.contains(attempt),
            final(self)@ == old(self)@.with_epoch(
                epoch,
                (CloseEpoch {
                    processed_records: old(self)@.epoch(epoch).processed_records.insert(attempt),
                    ..old(self)@.epoch(epoch)
                }),
            ),
    {
        let mut state = self.copy_epoch(epoch);
        let r = state.processed_close_record_attempts.insert(attempt);
        self.put_epoch(epoch, state);
        r
    }

    pub fn close_record_attempt_processed(&self, epoch: RaiEpoch, attempt: RaiCloseAttempt) -> (r: bool)
        ensures
            r == self@.epoch(epoch).processed_records.contains(attempt),
    {
        match self.epoch(epoch) {
            Some(state) => state.processed_close_record_attempts.contains(&attempt),
            None => false,
        }
    }

    /// Fixes the cut of a closing epoch; reports whether it was not fixed yet.
    pub fn install_cut(&mut self, epoch: RaiEpoch, cut: VisibleSlots) -> (r: Result<bool, RaiEpochTransitionError>)
        ensures
            match r {
                Ok(installed) => {
                    let before = old(self)@.epoch(epoch);
                    &&& before.phase == RaiEpochPhase::Closing
                    &&& installed == (before.cut is None)
                    &&& final(self)@ == if installed {
                        old(self)@.with_epoch(epoch, (CloseEpoch { cut: Some(cut@), ..before }))
                    } else {
                        old(self)@
                    }
                },
                Err(error) => {
                    &&& old(self)@.epoch(epoch).phase != RaiEpochPhase::Closing
                    &&& error == RaiEpochTransitionError::NotClosing
                    &&& final(self)@ == old(self)@.knowing(epoch)
                },
            },
    {
        let mut state = self.copy_epoch(epoch);
        if state.phase != RaiEpochPhase::Closing {
            self.put_epoch(epoch, state);
            return Err(RaiEpochTransitionError::NotClosing);
        }
        if state.cut_set.is_some() {
            return Ok(false);
        }
        state.cut_set = Some(cut);
        self.put_epoch(epoch, state);
        Ok(true)
    }

    pub fn cut_set(&self, epoch: RaiEpoch) -> (r: Option<&VisibleSlots>)
        ensures
            match r {
                Some(cut) => self@.epoch(epoch).cut == Some(cut@),
                None => self@.epoch(epoch).cut is None,
            },
    {
        match self.epoch(epoch) {
            Some(state) => match &state.cut_set {
                Some(cut) => Some(cut),
                None => None,
            },
            None => None,
        }
    }

    /// Notes in which state slots were closed; the last state of a slot counts.
    pub fn record_cut_drain(&mut self, epoch: RaiEpoch, states: &Vec<(RaiSlot, RaiClosedSlotState)>) -> (r: Result<
        (),
        RaiEpochTransitionError,
    >)
        ensures
            match r {
                Ok(_) => {
                    let before = old(self)@.epoch(epoch);
                    &&& before.cut is Some
                    &&& final(self)@ == old(self)@.with_epoch(
                        epoch,
                        (CloseEpoch {
                            closed_slots: before.closed_slots.union_prefer_right(map_of(states@)),
                            ..before
                        }),
                    )
                },
                Err(error) => {
                    &&& old(self)@.epoch(epoch).cut is None
                    &&& error == RaiEpochTransitionError::CutMissing
                    &&& final(self)@ == old(self)@.knowing(epoch)
                },
            },
    {
        let ghost before = self@.epoch(epoch);
        let mut state = self.copy_epoch(epoch);
        if state.cut_set.is_none() {
            self.put_epoch(epoch, state);
            return Err(RaiEpochTransitionError::CutMissing);
        }
        proof {
            assert(before.closed_slots.union_prefer_right(map_of(states@.take(0))) =~= before.closed_slots);
        }
        for i in 0..states.len()
            invariant
                state.deep_view() == (CloseEpoch {
                    closed_slots: before.closed_slots.union_prefer_right(map_of(states@.take(i as int))),
                    ..before
                }),
        {
            proof {
                assert(states@.take(i + 1).drop_last() =~= states@.take(i as int));
            }
            let (slot, closed) = states[i];
            state.closed_slots.insert(slot, closed);
            proof {
                assert(state.closed_slots@ =~= before.closed_slots.union_prefer_right(map_of(states@.take(i + 1))));
            }
        }
        proof {
            assert(states@.take(states@.len() as int) =~= states@);
            assert(state.closed_slots@.dom().finite());
        }
        self.put_epoch(epoch, state);
        Ok(())
    }

    pub fn closed_slot_state(&self, epoch: RaiEpoch, slot: &RaiSlot) -> (r: Option<&RaiClosedSlotState>)
        ensures
            match r {
                Some(state) => self@.epoch(epoch).closed_slots.contains_key(*slot) && *state == self@.epoch(
                    epoch,
                ).closed_slots[*slot],
                None => !self@.epoch(epoch).closed_slots.contains_key(*slot),
            },
    {
        match self.epoch(epoch) {
            Some(state) => state.closed_slots.get(slot),
            None => None,
        }
    }

    pub fn cut_drained(&self, epoch: RaiEpoch) -> (r: bool)
        ensures
            r == self@.epoch(epoch).drained(),
    {
        match self.epoch(epoch) {
            Some(state) => state.cut_drained(),
            None => false,
        }
    }

    pub fn is_slot_vote_released(&self, epoch: RaiEpoch, slot: &RaiSlot) -> (r: bool)
        ensures
            r == self@.epoch(epoch).releases(*slot),
    {
        match self.epoch(epoch) {
            None => false,
            Some(state) => {
                if state.phase != RaiEpochPhase::Closed {
                    return false;
                }
                match &state.cut_set {
                    None => false,
                    Some(cut) => {
                        if !cut.contains(slot) {
                            return true;
                        }
                        match state.closed_slots.get(slot) {
                            Some(closed) => *closed == RaiClosedSlotState::Released,
                            None => false,
                        }
                    },
                }
            },
        }
    }

    /// The close record under a hash is the one that was certified.
    pub fn certify_close_record(&mut self, epoch: RaiEpoch, hash: &BlockHash) -> (r: Result<
        (),
        RaiEpochTransitionError,
    >)
        ensures
            match r {
                Ok(_) => {
                    &&& old(self)@.epoch(epoch).records.contains_key(*hash)
                    &&& final(self)@ == old(self)@.with_epoch(
                        epoch,
                        (CloseEpoch { close_hash: Some(*hash), ..old(self)@.epoch(epoch) }),
                    )
                },
                Err(error) => {
                    &&& !old(self)@.epoch(epoch).records.contains_key(*hash)
                    &&& error == RaiEpochTransitionError::CloseRecordMissing
                    &&& final(self)@ == old(self)@.knowing(epoch)
                },
            },
    {
        let mut state = self.copy_epoch(epoch);
        if !state.close_record_values.contains_key(hash) {
            self.put_epoch(epoch, state);
            return Err(RaiEpochTransitionError::CloseRecordMissing);
        }
        state.close_hash = Some(*hash);
        self.put_epoch(epoch, state);
        Ok(())
    }

    /// Keeps a close record under a hash, unless the hash is taken; reports
    /// whether it was free.
    pub fn cache_close_record_value(
        &mut self,
        epoch: RaiEpoch,
        hash: BlockHash,
        record: R,
        entries: CloseRecordEntries,
    ) -> (r: bool)
        ensures
            r == !old(self)@.epoch(epoch).records.contains_key(hash),
            final(self)@ == old(self)@.with_epoch(
                epoch,
                old(self)@.epoch(epoch).with_record(
                    hash,
                    (Package { record: record.deep_view(), entries: entries@ }),
                ),
            ),
    {
        let mut state = self.copy_epoch(epoch);
        let free = !state.close_record_values.contains_key(&hash);
        if free {
            state.close_record_values.insert(hash, RaiCloseRecordValue { record, entries });
        }
        proof {
            let after = state.deep_view();
            assert(after =~= self@.epoch(epoch).with_record(
                hash,
                (Package { record: record.deep_view(), entries: entries@ }),
            ));
            assert(after.records.dom().finite());
        }
        self.put_epoch(epoch, state);
        free
    }

    /// Ends the current epoch once its cut is drained and its record settled.
    pub fn advance_epoch(&mut self, epoch: RaiEpoch) -> (r: Result<RaiEpoch, RaiEpochTransitionError>)
        requires
            old(self)@.current < u64::MAX || old(self)@.advance_error(epoch) is Some,
        ensures
            match r {
                Ok(next) => {
                    &&& old(self)@.advance_error(epoch) is None
                    &&& next == epoch + 1
                    &&& final(self)@ == old(self)@.advanced()
                },
                Err(error) => {
                    &&& old(self)@.advance_error(epoch) == Some(error)
                    &&& final(self)@ == old(self)@
                },
            },
    {
        proof {
            use_type_invariant(&*self);
        }
        if epoch != self.current_epoch {
            return Err(RaiEpochTransitionError::NotCurrent);
        }
        let ghost before = self@;
        let mut state = self.copy_epoch(epoch);
        let ghost s = state.deep_view();
        if state.phase != RaiEpochPhase::Closing {
            return Err(RaiEpochTransitionError::NotClosing);
        }
        if state.cut_set.is_none() {
            return Err(RaiEpochTransitionError::CutMissing);
        }
        if !state.cut_drained() {
            return Err(RaiEpochTransitionError::CutNotDrained);
        }
        if state.close_hash.is_none() {
            if state.close_record_values.len() == 1 {
                state.close_hash = Some(state.close_record_values.key_at(0));
            } else {
                return Err(RaiEpochTransitionError::CloseRecordMissing);
            }
        }
        state.phase = RaiEpochPhase::Closed;
        proof {
            assert(state.deep_view() =~= s.ended());
        }
        self.put_epoch(epoch, state);
        let next: RaiEpoch = epoch + 1;
        let opened = self.copy_epoch(next);
        self.put_epoch(next, opened);
        proof {
            use_type_invariant(&*self);
        }
        self.current_epoch = next;
        proof {
            assert(self@ =~= before.advanced());
        }
        Ok(next)
    }

    /// The close hash that an epoch builds on.
    pub fn previous_close_hash(&self, epoch: RaiEpoch) -> (r: Result<BlockHash, RaiEpochTransitionError>)
        ensures
            match r {
                Ok(hash) => self@.previous_hash(epoch) == Some(hash),
                Err(error) => self@.previous_hash(epoch) is None && error
                    == RaiEpochTransitionError::CloseRecordMissing,
            },
    {
        if epoch == 0 {
            return Ok(BlockHash::zero());
        }
        match self.certified_close_hash(epoch - 1) {
            Some(hash) => Ok(hash),
            None => Err(RaiEpochTransitionError::CloseRecordMissing),
        }
    }
}

impl<R: EpochRecord> Default for RaiCloseState<R> {
    fn default() -> (r: Self)
        ensures
            r@ == CloseState::<R::V>::initial(),
    {
        RaiCloseState::new()
    }
}

impl CloseState<RaiCloseRecord> {
    /// The close record that the drained cut of an epoch yields.
    pub open spec fn current_record(self, epoch: RaiEpoch) -> RaiCloseRecord {
        RaiCloseRecord::of_entries(self.previous_hash(epoch)->0, self.epoch(epoch).entries())
    }

    /// Why there is no such record yet; the cut is looked at first.
    pub open spec fn current_record_error(self, epoch: RaiEpoch) -> Option<RaiEpochTransitionError> {
        if self.epoch(epoch).entries_error() is Some {
            self.epoch(epoch).entries_error()
        } else if self.previous_hash(epoch) is None {
            Some(RaiEpochTransitionError::CloseRecordMissing)
        } else {
            None
        }
    }
}

impl RaiCloseState<RaiCloseRecord> {
    pub fn current_close_record_hash(&self, epoch: RaiEpoch) -> (r: Result<BlockHash, RaiEpochTransitionError>)
        ensures
            match r {
                Ok(hash) => self@.current_record_error(epoch) is None && hash == RaiCloseRecord::digest(
                    self@.current_record(epoch),
                ),
                Err(error) => self@.current_record_error(epoch) == Some(error),
            },
    {
        match self.current_close_record(epoch) {
            Ok(record) => Ok(record.hash()),
            Err(error) => Err(error),
        }
    }

    pub fn current_close_record(&self, epoch: RaiEpoch) -> (r: Result<RaiCloseRecord, RaiEpochTransitionError>)
        ensures
            match r {
                Ok(record) => self@.current_record_error(epoch) is None && record == self@.current_record(epoch),
                Err(error) => self@.current_record_error(epoch) == Some(error),
            },
    {
        let entries = match self.epoch(epoch) {
            Some(state) => match state.current_close_record_entries() {
                Ok(entries) => entries,
                Err(error) => return Err(error),
            },
            None => return Err(RaiEpochTransitionError::CutMissing),
        };
        match self.previous_close_hash(epoch) {
            Ok(previous) => Ok(Self::close_record_from_entries(previous, &entries)),
            Err(error) => Err(error),
        }
    }

    /// Keeps the close record of a drained cut under its hash.
    pub fn record_current_close_record_value(&mut self, epoch: RaiEpoch) -> (r: Result<
        BlockHash,
        RaiEpochTransitionError,
    >)
        ensures
            ({
                let before = old(self)@.epoch(epoch);
                let record = old(self)@.current_record(epoch);
                match r {
                    Ok(hash) => {
                        &&& old(self)@.previous_hash(epoch) is Some
                        &&& before.entries_error() is None
                        &&& hash == RaiCloseRecord::digest(record)
                        &&& final(self)@ == old(self)@.with_epoch(
                            epoch,
                            before.with_record(hash, (Package { record, entries: before.entries() })),
                        )
                    },
                    Err(error) => if old(self)@.previous_hash(epoch) is None {
                        error == RaiEpochTransitionError::CloseRecordMissing && final(self)@ == old(self)@
                    } else {
                        before.entries_error() == Some(error) && final(self)@ == old(self)@.knowing(epoch)
                    },
                }
            }),
    {
        let previous = match self.previous_close_hash(epoch) {
            Ok(previous) => previous,
            Err(error) => return Err(error),
        };
        let state = self.copy_epoch(epoch);
        match state.current_close_record_entries() {
            Err(error) => {
                self.put_epoch(epoch, state);
                Err(error)
            },
            Ok(entries) => {
                let record = Self::close_record_from_entries(previous, &entries);
                let hash = record.hash();
                self.cache_close_record_value(epoch, hash, record, entries);
                Ok(hash)
            },
        }
    }

    pub fn close_record_hash_from_entries(&self, epoch: RaiEpoch, entries: &CloseRecordEntries) -> (r: Result<
        BlockHash,
        RaiEpochTransitionError,
    >)
        ensures
            match r {
                Ok(hash) => self@.previous_hash(epoch) is Some && hash == RaiCloseRecord::digest(
                    RaiCloseRecord::of_entries(self@.previous_hash(epoch)->0, entries@),
                ),
                Err(error) => self@.previous_hash(epoch) is None && error
                    == RaiEpochTransitionError::CloseRecordMissing,
            },
    {
        match self.previous_close_hash(epoch) {
            Ok(previous) => Ok(Self::close_record_from_entries(previous, entries).hash()),
            Err(error) => Err(error),
        }
    }

    pub fn hash_close_record_entries(entries: &CloseRecordEntries) -> (r: BlockHash)
        ensures
            r == entries_hash(entries@),
    {
        hash_entries(entries)
    }

    pub fn hash_close_record_finalized_entries(entries: &CloseRecordEntries) -> (r: BlockHash)
        ensures
            r == finalized_root(entries@),
    {
        hash_finalized_entries(entries)
    }

    pub fn hash_close_record_carry_entries(entries: &CloseRecordEntries) -> (r: BlockHash)
        ensures
            r == carry_root(entries@),
    {
        hash_carry_entries(entries)
    }

    pub fn close_record_from_entries(previous_close_hash: BlockHash, entries: &CloseRecordEntries) -> (r:
        RaiCloseRecord)
        ensures
            r == RaiCloseRecord::of_entries(previous_close_hash, entries@),
    {
        RaiCloseRecord::new(previous_close_hash, hash_finalized_entries(entries), hash_carry_entries(entries))
    }
}

pub open spec fn stored_reports(reports: Map<PublicKey, PendingReport>) -> Seq<PendingReport> {
    let pairs = pairs_of(reports);
    Seq::new(pairs.len(), |i: int| pairs[i].1)
}

fn store_reports(reports: &SortedMap<PublicKey, RaiPendingReport>) -> (r: Vec<RaiPendingReport>)
    ensures
        r.deep_view() == stored_reports(reports@),
{
    let mut r: Vec<RaiPendingReport> = Vec::new();
    let n: usize = reports.len();
    let ghost stored = stored_reports(reports@);
    for i in 0..n
        invariant
            n == reports@.len(),
            n == stored.len(),
            stored == stored_reports(reports@),
            r@.len() == i,
            forall|j: int| 0 <= j < i ==> (#[trigger] r@[j]).deep_view() == stored[j],
    {
        r.push(reports.value_at(i).duplicate());
    }
    proof {
        assert(r.deep_view() =~= stored);
    }
    r
}

/// A vote that may be cast may also be counted, and a vote that binds no longer
/// may neither be cast nor counted.
pub proof fn vote_gates_agree<V>(e: CloseEpoch<V>, slot: RaiSlot)
    ensures
        e.enables(slot) ==> e.accepts(slot),
        e.releases(slot) ==> !e.accepts(slot) && !e.enables(slot),
        e.phase == RaiEpochPhase::Closing && e.cut is Some ==> e.enables(slot) == e.accepts(slot),
{
}

/// Ending the current epoch leaves every other known epoch as it was, closes
/// the ended one for good under a close hash, and makes the next one current.
pub proof fn advancing_closes_only_the_current_epoch<V>(s: CloseState<V>, other: RaiEpoch)
    requires
        s.well_formed(),
        s.current < u64::MAX,
        s.advance_error(s.current) is None,
        other != s.current,
    ensures
        s.advanced().well_formed(),
        s.advanced().current == s.current + 1,
        s.advanced().epoch(other) == s.epoch(other),
        s.advanced().epoch(s.current).phase == RaiEpochPhase::Closed,
        s.advanced().epoch(s.current).close_hash is Some,
        s.advanced().epoch(s.current).cut == s.epoch(s.current).cut,
        s.advanced().epoch(s.current).drained(),
        s.advanced().closing_error(s.current) is Some,
        s.advanced().advance_error(s.current) is Some,
        s.advanced().previous_hash((s.current + 1) as RaiEpoch) is Some,
{
}

/// A closed slot as it is stored.
#[derive(Clone, Copy, Debug, PartialEq, Eq, Structural)]
pub struct RaiClosedSlotSnapshot {
    pub slot: RaiSlot,
    pub state: RaiClosedSlotState,
}

/// A close record with its entries as it is stored.
#[derive(Debug, PartialEq, Eq)]
pub struct RaiCloseRecordValueSnapshot<R: EpochRecord> {
    pub hash: BlockHash,
    pub record: R,
    pub states: Vec<RaiClosedSlotSnapshot>,
}

/// The model of a stored close record.
#[verifier::ext_equal]
pub struct StoredPackage<V> {
    pub hash: BlockHash,
    pub record: V,
    pub states: Seq<RaiClosedSlotSnapshot>,
}

impl<R: EpochRecord> DeepView for RaiCloseRecordValueSnapshot<R> {
    type V = StoredPackage<R::V>;

    open spec fn deep_view(&self) -> StoredPackage<R::V> {
        StoredPackage { hash: self.hash, record: self.record.deep_view(), states: self.states@ }
    }
}

/// One epoch as it is stored.
#[derive(Debug, PartialEq, Eq)]
pub struct RaiCloseEpochSnapshot<R: EpochRecord> {
    pub epoch: RaiEpoch,
    pub phase: RaiEpochPhase,
    pub close_hash: Option<BlockHash>,
    pub pending_reports: Vec<RaiPendingReport>,
    pub visible_slots: Vec<RaiSlot>,
    pub close_values: Vec<RaiCloseValueSnapshot>,
    pub started_close_attempts: Vec<RaiCloseAttempt>,
    pub processed_close_attempts: Vec<RaiCloseAttempt>,
    pub cut_set: Option<Vec<RaiSlot>>,
    pub closed_slots: Vec<RaiClosedSlotSnapshot>,
    pub close_record_values: Vec<RaiCloseRecordValueSnapshot<R>>,
    pub started_close_record_attempts: Vec<RaiCloseAttempt>,
    pub processed_close_record_attempts: Vec<RaiCloseAttempt>,
}

/// The model of a stored epoch.
#[verifier::ext_equal]
pub struct StoredEpoch<V> {
    pub epoch: RaiEpoch,
    pub phase: RaiEpochPhase,
    pub close_hash: Option<BlockHash>,
    pub pending_reports: Seq<PendingReport>,
    pub visible_slots: Seq<RaiSlot>,
    pub close_values: Seq<StoredCloseValue>,
    pub started_cuts: Seq<RaiCloseAttempt>,
    pub processed_cuts: Seq<RaiCloseAttempt>,
    pub cut: Option<Seq<RaiSlot>>,
    pub closed_slots: Seq<RaiClosedSlotSnapshot>,
    pub records: Seq<StoredPackage<V>>,
    pub started_records: Seq<RaiCloseAttempt>,
    pub processed_records: Seq<RaiCloseAttempt>,
}

impl<R: EpochRecord> DeepView for RaiCloseEpochSnapshot<R> {
    type V = StoredEpoch<R::V>;

    open spec fn deep_view(&self) -> StoredEpoch<R::V> {
        StoredEpoch {
            epoch: self.epoch,
            phase: self.phase,
            close_hash: self.close_hash,
            pending_reports: self.pending_reports.deep_view(),
            visible_slots: self.visible_slots@,
            close_values: self.close_values.deep_view(),
            started_cuts: self.started_close_attempts@,
            processed_cuts: self.processed_close_attempts@,
            cut: match self.cut_set {
                Some(cut) => Some(cut@),
                None => None,
            },
            closed_slots: self.closed_slots@,
            records: self.close_record_values.deep_view(),
            started_records: self.started_close_record_attempts@,
            processed_records: self.processed_close_record_attempts@,
        }
    }
}

/// All epochs as they are stored.
#[derive(Debug, PartialEq, Eq)]
pub struct RaiCloseStateSnapshot<R: EpochRecord> {
    pub current_epoch: RaiEpoch,
    pub epochs: Vec<RaiCloseEpochSnapshot<R>>,
}

impl<R: EpochRecord> Default for RaiCloseStateSnapshot<R> {
    /// Nothing was stored.
    fn default() -> (r: Self)
        ensures
            r.deep_view() == (StoredState { current: 0, epochs: Seq::<StoredEpoch<R::V>>::empty() }),
    {
        let r = RaiCloseStateSnapshot { current_epoch: 0, epochs: Vec::new() };
        proof {
            assert(r.epochs.deep_view() =~= Seq::<StoredEpoch<R::V>>::empty());
        }
        r
    }
}

/// The model of all stored epochs.
#[verifier::ext_equal]
pub struct StoredState<V> {
    pub current: RaiEpoch,
    pub epochs: Seq<StoredEpoch<V>>,
}

impl<R: EpochRecord> DeepView for RaiCloseStateSnapshot<R> {
    type V = StoredState<R::V>;

    open spec fn deep_view(&self) -> StoredState<R::V> {
        StoredState { current: self.current_epoch, epochs: self.epochs.deep_view() }
    }
}

pub open spec fn report_pairs(stored: Seq<PendingReport>) -> Seq<(PublicKey, PendingReport)> {
    Seq::new(stored.len(), |i: int| (stored[i].reporter, stored[i]))
}

pub open spec fn stored_closed_slots(closed: Map<RaiSlot, RaiClosedSlotState>) -> Seq<RaiClosedSlotSnapshot> {
    let pairs = pairs_of(closed);
    Seq::new(pairs.len(), |i: int| RaiClosedSlotSnapshot { slot: pairs[i].0, state: pairs[i].1 })
}

pub open spec fn closed_pairs(stored: Seq<RaiClosedSlotSnapshot>) -> Seq<(RaiSlot, RaiClosedSlotState)> {
    Seq::new(stored.len(), |i: int| (stored[i].slot, stored[i].state))
}

pub open spec fn stored_records<V>(records: Map<BlockHash, Package<V>>) -> Seq<StoredPackage<V>> {
    let pairs = pairs_of(records);
    Seq::new(
        pairs.len(),
        |i: int|
            StoredPackage {
                hash: pairs[i].0,
                record: pairs[i].1.record,
                states: stored_closed_slots(pairs[i].1.entries),
            },
    )
}

pub open spec fn record_pairs<V>(stored: Seq<StoredPackage<V>>) -> Seq<(BlockHash, Package<V>)> {
    Seq::new(
        stored.len(),
        |i: int|
            (
                stored[i].hash,
                Package { record: stored[i].record, entries: map_of(closed_pairs(stored[i].states)) },
            ),
    )
}

impl<V> CloseEpoch<V> {
    pub open spec fn stored(self, epoch: RaiEpoch) -> StoredEpoch<V> {
        StoredEpoch {
            epoch,
            phase: self.phase,
            close_hash: self.close_hash,
            pending_reports: stored_reports(self.pending_reports),
            visible_slots: ascending(self.visibility.visible),
            close_values: stored_close_values(self.visibility.close_values),
            started_cuts: ascending(self.started_cuts),
            processed_cuts: ascending(self.processed_cuts),
            cut: match self.cut {
                Some(cut) => Some(ascending(cut)),
                None => None,
            },
            closed_slots: stored_closed_slots(self.closed_slots),
            records: stored_records(self.records),
            started_records: ascending(self.started_records),
            processed_records: ascending(self.processed_records),
        }
    }

    pub open spec fn restored(stored: StoredEpoch<V>) -> CloseEpoch<V> {
        CloseEpoch {
            phase: stored.phase,
            close_hash: stored.close_hash,
            pending_reports: map_of(report_pairs(stored.pending_reports)),
            visibility: Visibility {
                visible: stored.visible_slots.to_set(),
                close_values: map_of(close_value_pairs(stored.close_values)),
            },
            started_cuts: stored.started_cuts.to_set(),
            processed_cuts: stored.processed_cuts.to_set(),
            cut: match stored.cut {
                Some(cut) => Some(cut.to_set()),
                None => None,
            },
            closed_slots: map_of(closed_pairs(stored.closed_slots)),
            records: map_of(record_pairs(stored.records)),
            started_records: stored.started_records.to_set(),
            processed_records: stored.processed_records.to_set(),
        }
    }
}

pub open spec fn stored_epochs<V>(epochs: Map<RaiEpoch, CloseEpoch<V>>) -> Seq<StoredEpoch<V>> {
    let pairs = pairs_of(epochs);
    Seq::new(pairs.len(), |i: int| pairs[i].1.stored(pairs[i].0))
}

pub open spec fn epoch_pairs<V>(stored: Seq<StoredEpoch<V>>) -> Seq<(RaiEpoch, CloseEpoch<V>)> {
    Seq::new(stored.len(), |i: int| (stored[i].epoch, CloseEpoch::restored(stored[i])))
}

impl<V> CloseState<V> {
    pub open spec fn stored(self) -> StoredState<V> {
        StoredState { current: self.current, epochs: stored_epochs(self.epochs) }
    }

    /// The state that stored epochs yield; the last of one number counts.
    pub open spec fn restored(stored: StoredState<V>) -> CloseState<V> {
        CloseState { current: stored.current, epochs: map_of(epoch_pairs(stored.epochs)) }.knowing(stored.current)
    }
}

proof fn lemma_reports_back(reports: Map<PublicKey, PendingReport>)
    requires
        reports.dom().finite(),
        forall|reporter: PublicKey| #[trigger]
            reports.contains_key(reporter) ==> reports[reporter].reporter == reporter,
    ensures
        map_of(report_pairs(stored_reports(reports))) == reports,
{
    let pairs = pairs_of(reports);
    lemma_ascending(reports.dom());
    assert forall|i: int| 0 <= i < pairs.len() implies report_pairs(stored_reports(reports))[i] == #[trigger] pairs[i] by {
        assert(reports.contains_key(ascending(reports.dom())[i]));
    }
    assert(report_pairs(stored_reports(reports)) =~= pairs);
    lemma_map_of_pairs(reports);
}

proof fn lemma_closed_back(closed: Map<RaiSlot, RaiClosedSlotState>)
    requires
        closed.dom().finite(),
    ensures
        map_of(closed_pairs(stored_closed_slots(closed))) == closed,
{
    assert(closed_pairs(stored_closed_slots(closed)) =~= pairs_of(closed));
    lemma_map_of_pairs(closed);
}

proof fn lemma_records_back<V>(records: Map<BlockHash, Package<V>>)
    requires
        records.dom().finite(),
        forall|hash: BlockHash| #[trigger] records.contains_key(hash) ==> records[hash].entries.dom().finite(),
    ensures
        map_of(record_pairs(stored_records(records))) == records,
{
    let pairs = pairs_of(records);
    lemma_ascending(records.dom());
    assert forall|i: int| 0 <= i < pairs.len() implies record_pairs(stored_records(records))[i] == #[trigger] pairs[i] by {
        assert(records.contains_key(ascending(records.dom())[i]));
        lemma_closed_back(pairs[i].1.entries);
    }
    assert(record_pairs(stored_records(records)) =~= pairs);
    lemma_map_of_pairs(records);
}

proof fn lemma_epoch_back<V>(e: CloseEpoch<V>, epoch: RaiEpoch)
    requires
        e.well_formed(),
    ensures
        CloseEpoch::restored(e.stored(epoch)) == e,
{
    lemma_reports_back(e.pending_reports);
    lemma_ascending(e.visibility.visible);
    stored_close_values_round_trip(e.visibility.close_values);
    lemma_ascending(e.started_cuts);
    lemma_ascending(e.processed_cuts);
    if e.cut is Some {
        lemma_ascending(e.cut->0);
    }
    lemma_closed_back(e.closed_slots);
    lemma_records_back(e.records);
    lemma_ascending(e.started_records);
    lemma_ascending(e.processed_records);
    assert(CloseEpoch::restored(e.stored(epoch)) =~= e);
}

/// A stored state is read back as it was.
pub proof fn stored_state_round_trip<V>(s: CloseState<V>)
    requires
        s.well_formed(),
    ensures
        CloseState::restored(s.stored()) == s,
{
    let pairs = pairs_of(s.epochs);
    lemma_ascending(s.epochs.dom());
    assert forall|i: int| 0 <= i < pairs.len() implies epoch_pairs(stored_epochs(s.epochs))[i] == #[trigger] pairs[i] by {
        assert(s.epochs.contains_key(ascending(s.epochs.dom())[i]));
        lemma_epoch_back(pairs[i].1, pairs[i].0);
    }
    assert(epoch_pairs(stored_epochs(s.epochs)) =~= pairs);
    lemma_map_of_pairs(s.epochs);
    assert(CloseState::restored(s.stored()) =~= s);
}

/// Closed slots in their order, as they are stored.
pub fn store_closed_slots(closed: &SortedMap<RaiSlot, RaiClosedSlotState>) -> (r: Vec<RaiClosedSlotSnapshot>)
    ensures
        r@ == stored_closed_slots(closed@),
{
    let mut r: Vec<RaiClosedSlotSnapshot> = Vec::new();
    let n: usize = closed.len();
    let ghost stored = stored_closed_slots(closed@);
    for i in 0..n
        invariant
            n == closed@.len(),
            n == stored.len(),
            stored == stored_closed_slots(closed@),
            r@ == stored.take(i as int),
    {
        r.push(RaiClosedSlotSnapshot { slot: closed.key_at(i), state: *closed.value_at(i) });
        proof {
            assert(r@ =~= stored.take(i + 1));
        }
    }
    proof {
        assert(stored.take(n as int) =~= stored);
    }
    r
}

/// Closed slots from how they are stored; the last state of a slot counts.
pub fn restore_closed_slots(stored: &Vec<RaiClosedSlotSnapshot>) -> (r: SortedMap<RaiSlot, RaiClosedSlotState>)
    ensures
        r@ == map_of(closed_pairs(stored@)),
{
    let mut r: SortedMap<RaiSlot, RaiClosedSlotState> = SortedMap::new();
    let ghost pairs = closed_pairs(stored@);
    for i in 0..stored.len()
        invariant
            pairs == closed_pairs(stored@),
            r@ == map_of(pairs.take(i as int)),
    {
        proof {
            assert(pairs.take(i + 1).drop_last() =~= pairs.take(i as int));
        }
        r.insert(stored[i].slot, stored[i].state);
    }
    proof {
        assert(pairs.take(pairs.len() as int) =~= pairs);
    }
    r
}

impl<R: EpochRecord> RaiCloseEpochState<R> {
    fn from_snapshot(snapshot: &RaiCloseEpochSnapshot<R>) -> (r: Self)
        ensures
            r.deep_view() == CloseEpoch::restored(snapshot.deep_view()),
            r.deep_view().well_formed(),
    {
        let mut pending_reports: SortedMap<PublicKey, RaiPendingReport> = SortedMap::new();
        let ghost reports = report_pairs(snapshot.pending_reports.deep_view());
        for i in 0..snapshot.pending_reports.len()
            invariant
                reports == report_pairs(snapshot.pending_reports.deep_view()),
                pending_reports@ == map_of(reports.take(i as int)),
                forall|reporter: PublicKey| #[trigger]
                    pending_reports@.contains_key(reporter) ==> pending_reports@[reporter].reporter == reporter,
        {
            proof {
                assert(reports.take(i + 1).drop_last() =~= reports.take(i as int));
                assert(reports[i as int].0 == snapshot.pending_reports@[i as int].reporter);
            }
            let report = snapshot.pending_reports[i].duplicate();
            pending_reports.insert(report.reporter, report);
        }
        let mut records: SortedMap<BlockHash, RaiCloseRecordValue<R>> = SortedMap::new();
        let ghost packages = record_pairs(snapshot.close_record_values.deep_view());
        for i in 0..snapshot.close_record_values.len()
            invariant
                packages == record_pairs(snapshot.close_record_values.deep_view()),
                records@ == map_of(packages.take(i as int)),
                forall|hash: BlockHash| #[trigger]
                    records@.contains_key(hash) ==> records@[hash].entries.dom().finite(),
        {
            proof {
                assert(packages.take(i + 1).drop_last() =~= packages.take(i as int));
                assert(packages[i as int].0 == snapshot.close_record_values@[i as int].hash);
            }
            let value = &snapshot.close_record_values[i];
            let entries = restore_closed_slots(&value.states);
            records.insert(value.hash, RaiCloseRecordValue { record: value.record.duplicate(), entries });
        }
        let cut_set = match &snapshot.cut_set {
            Some(slots) => Some(SortedSet::from_vec(slots)),
            None => None,
        };
        let r = RaiCloseEpochState {
            phase: snapshot.phase,
            close_hash: snapshot.close_hash,
            pending_reports,
            visibility: RaiVisibilityTracker::from_snapshot(&snapshot.visible_slots, &snapshot.close_values),
            started_close_attempts: SortedSet::from_vec(&snapshot.started_close_attempts),
            processed_close_attempts: SortedSet::from_vec(&snapshot.processed_close_attempts),
            cut_set,
            closed_slots: restore_closed_slots(&snapshot.closed_slots),
            close_record_values: records,
            started_close_record_attempts: SortedSet::from_vec(&snapshot.started_close_record_attempts),
            processed_close_record_attempts: SortedSet::from_vec(&snapshot.processed_close_record_attempts),
        };
        proof {
            assert(reports.take(reports.len() as int) =~= reports);
            assert(packages.take(packages.len() as int) =~= packages);
            r.visibility.lemma_well_formed();
            assert(r.deep_view() =~= CloseEpoch::restored(snapshot.deep_view()));
            assert(r.pending_reports@.dom().finite());
            assert(r.started_close_attempts@.finite());
            assert(r.processed_close_attempts@.finite());
            assert(r.closed_slots@.dom().finite());
            assert(r.close_record_values@.dom().finite());
            assert(r.started_close_record_attempts@.finite());
            assert(r.processed_close_record_attempts@.finite());
            if r.cut_set is Some {
                assert(r.cut_set->0@.finite());
            }
        }
        r
    }

    pub fn snapshot(&self, epoch: RaiEpoch) -> (r: RaiCloseEpochSnapshot<R>)
        ensures
            r.deep_view() == self.deep_view().stored(epoch),
    {
        let mut records: Vec<RaiCloseRecordValueSnapshot<R>> = Vec::new();
        let n: usize = self.close_record_values.len();
        let ghost stored = stored_records(self.close_record_values@);
        for i in 0..n
            invariant
                n == self.close_record_values@.len(),
                n == stored.len(),
                stored == stored_records(self.close_record_values@),
                records@.len() == i,
                forall|j: int| 0 <= j < i ==> (#[trigger] records@[j]).deep_view() == stored[j],
        {
            let value = self.close_record_values.value_at(i);
            records.push(
                RaiCloseRecordValueSnapshot {
                    hash: self.close_record_values.key_at(i),
                    record: value.record.duplicate(),
                    states: store_closed_slots(&value.entries),
                },
            );
        }
        let cut_set = match &self.cut_set {
            Some(cut) => Some(cut.to_vec()),
            None => None,
        };
        proof {
            assert(records.deep_view() =~= stored);
        }
        RaiCloseEpochSnapshot {
            epoch,
            phase: self.phase,
            close_hash: self.close_hash,
            pending_reports: store_reports(&self.pending_reports),
            visible_slots: self.visibility.visible_slots().to_vec(),
            close_values: self.visibility.close_value_snapshots(),
            started_close_attempts: self.started_close_attempts.to_vec(),
            processed_close_attempts: self.processed_close_attempts.to_vec(),
            cut_set,
            closed_slots: store_closed_slots(&self.closed_slots),
            close_record_values: records,
            started_close_record_attempts: self.started_close_record_attempts.to_vec(),
            processed_close_record_attempts: self.processed_close_record_attempts.to_vec(),
        }
    }
}

impl<R: EpochRecord> RaiCloseState<R> {
    pub fn from_snapshot(snapshot: &RaiCloseStateSnapshot<R>) -> (r: Self)
        ensures
            r@ == CloseState::restored(snapshot.deep_view()),
    {
        let mut epochs: SortedMap<RaiEpoch, RaiCloseEpochState<R>> = SortedMap::new();
        let ghost pairs = epoch_pairs(snapshot.epochs.deep_view());
        for i in 0..snapshot.epochs.len()
            invariant
                pairs == epoch_pairs(snapshot.epochs.deep_view()),
                epochs@ == map_of(pairs.take(i as int)),
                forall|epoch: RaiEpoch| #[trigger] epochs@.contains_key(epoch) ==> epochs@[epoch].well_formed(),
        {
            proof {
                assert(pairs.take(i + 1).drop_last() =~= pairs.take(i as int));
                assert(pairs[i as int].0 == snapshot.epochs@[i as int].epoch);
            }
            let state = RaiCloseEpochState::from_snapshot(&snapshot.epochs[i]);
            epochs.insert(snapshot.epochs[i].epoch, state);
        }
        proof {
            assert(pairs.take(pairs.len() as int) =~= pairs);
        }
        let current_epoch = snapshot.current_epoch;
        if !epochs.contains_key(&current_epoch) {
            epochs.insert(current_epoch, RaiCloseEpochState::open());
        }
        let r = RaiCloseState { current_epoch, epochs };
        proof {
            assert(r@ =~= CloseState::restored(snapshot.deep_view()));
        }
        r
    }

    pub fn snapshot(&self) -> (r: RaiCloseStateSnapshot<R>)
        ensures
            r.deep_view() == self@.stored(),
    {
        let mut epochs: Vec<RaiCloseEpochSnapshot<R>> = Vec::new();
        let n: usize = self.epochs.len();
        let ghost stored = stored_epochs(self.epochs@);
        for i in 0..n
            invariant
                n == self.epochs@.len(),
                n == stored.len(),
                stored == stored_epochs(self.epochs@),
                epochs@.len() == i,
                forall|j: int| 0 <= j < i ==> (#[trigger] epochs@[j]).deep_view() == stored[j],
        {
            epochs.push(self.epochs.value_at(i).snapshot(self.epochs.key_at(i)));
        }
        proof {
            assert(epochs.deep_view() =~= stored);
        }
        RaiCloseStateSnapshot { current_epoch: self.current_epoch, epochs }
    }
}

/// An open epoch votes on every slot, a closed one on none. While it closes, a slot is
/// put to the vote once the cut holds it, and votes on it are taken until a cut without
/// it is there.
pub proof fn closing_epoch_votes_on_its_cut<V>(e: CloseEpoch<V>, slot: RaiSlot)
    ensures
        e.phase == RaiEpochPhase::Open ==> e.enables(slot) && e.accepts(slot),
        e.phase == RaiEpochPhase::Closed ==> !e.enables(slot) && !e.accepts(slot),
        e.phase == RaiEpochPhase::Closing && e.cut is None ==> !e.enables(slot) && e.accepts(slot),
        e.phase == RaiEpochPhase::Closing ==> (e.cut matches Some(cut) ==> (e.enables(slot) <==> cut.contains(slot)) && (
        e.accepts(slot) <==> cut.contains(slot))),
{
}

/// An epoch releases a slot exactly if it is closed and either left the slot out of its
/// cut or closed it as released; a finalized or carried slot is never released.
pub proof fn closed_epoch_releases_what_it_left_out<V>(e: CloseEpoch<V>, slot: RaiSlot)
    ensures
        e.releases(slot) ==> e.phase == RaiEpochPhase::Closed && e.cut is Some,
        e.phase == RaiEpochPhase::Closed ==> (e.cut matches Some(cut) ==> {
            &&& !cut.contains(slot) ==> e.releases(slot)
            &&& cut.contains(slot) && !e.closed_slots.contains_key(slot) ==> !e.releases(slot)
            &&& cut.contains(slot) && e.closed_slots.contains_key(slot) ==> (e.releases(slot) <==> e.closed_slots[slot]
                == RaiClosedSlotState::Released)
        }),
{
}

/// An epoch can be ended exactly if it is the current one, closing, every slot of its
/// cut is closed, and its record is settled: by a certificate, or by being the only one.
/// The next epoch is then current and open, unless it was begun before.
pub proof fn drained_epoch_can_end<V>(s: CloseState<V>, epoch: RaiEpoch)
    requires
        s.epochs.contains_key(s.current),
        s.current < u64::MAX,
        s.epoch(s.current).records.dom().finite(),
    ensures
        s.advance_error(epoch) is None <==> {
            let e = s.epoch(epoch);
            &&& epoch == s.current
            &&& e.phase == RaiEpochPhase::Closing
            &&& e.cut is Some
            &&& forall|slot: RaiSlot| #[trigger] e.cut->0.contains(slot) ==> e.closed_slots.contains_key(slot)
            &&& e.close_hash is Some || e.records.len() == 1
        },
        s.advance_error(epoch) is None ==> {
            let after = s.advanced();
            let ended = after.epoch(s.current);
            let next = (s.current + 1) as u64;
            &&& after.current == s.current + 1
            &&& ended.phase == RaiEpochPhase::Closed
            &&& s.epoch(s.current).close_hash is Some ==> ended.close_hash == s.epoch(s.current).close_hash
            &&& s.epoch(s.current).close_hash is None ==> ended.close_hash is Some && s.epoch(s.current).records.contains_key(
                ended.close_hash->0,
            )
            &&& ended.cut == s.epoch(s.current).cut && ended.closed_slots == s.epoch(s.current).closed_slots
            &&& after.epochs.contains_key(next)
            &&& !s.epochs.contains_key(next) ==> after.epoch(next).phase == RaiEpochPhase::Open
            &&& s.epochs.contains_key(next) ==> after.epoch(next) == s.epochs[next]
        },
{
    let e = s.epoch(s.current);
    lemma_ascending(e.records.dom());
    if e.records.len() == 1 {
        assert(e.records.dom().contains(ascending(e.records.dom())[0]));
    }
}

/// A record holds the closed state of exactly the slots of the cut.
pub proof fn record_covers_the_cut<V>(e: CloseEpoch<V>, slot: RaiSlot)
    requires
        e.cut is Some,
        forall|s: RaiSlot| #[trigger] e.cut->0.contains(s) ==> e.closed_slots.contains_key(s),
    ensures
        e.entries().contains_key(slot) <==> e.cut->0.contains(slot),
        e.cut->0.contains(slot) ==> e.entries()[slot] == e.closed_slots[slot],
{
}

/// Each epoch's record names the close of the epoch before; the first one names none.
pub proof fn records_are_chained(s: CloseState<RaiCloseRecord>, epoch: RaiEpoch)
    requires
        epoch > 0,
    ensures
        s.previous_hash(0) == Some(BlockHash { hi: 0, lo: 0 }),
        s.epochs.contains_key((epoch - 1) as u64) ==> s.previous_hash(epoch) == s.epochs[(epoch - 1) as u64].close_hash,
        !s.epochs.contains_key((epoch - 1) as u64) ==> s.previous_hash(epoch) is None,
        s.previous_hash(epoch) is Some ==> s.current_record(epoch).previous_close_hash == s.previous_hash(epoch)->0,
{
}

/// The bytes of a record: its tag, the hash of the close before, and the roots of the
/// finalized and of the carried blocks.
pub proof fn record_bytes_layout(r: RaiCloseRecord)
    ensures
        ({
            let m = r.bytes();
            let t = text_bytes("rai close record ");
            let n = t.len() as int;
            &&& m.len() == n + 96
            &&& m.subrange(0, n) == t
            &&& m.subrange(n, n + 32) == r.previous_close_hash.bytes()
            &&& m.subrange(n + 32, n + 64) == r.finalized_root.bytes()
            &&& m.subrange(n + 64, n + 96) == r.carry_root.bytes()
        }),
{
    let m = r.bytes();
    let t = text_bytes("rai close record ");
    let n = t.len() as int;
    r.previous_close_hash.bytes_round_trip();
    r.finalized_root.bytes_round_trip();
    r.carry_root.bytes_round_trip();
    assert(m.subrange(0, n) =~= t);
    assert(m.subrange(n, n + 32) =~= r.previous_close_hash.bytes());
    assert(m.subrange(n + 32, n + 64) =~= r.finalized_root.bytes());
    assert(m.subrange(n + 64, n + 96) =~= r.carry_root.bytes());
}

/// At first the epoch zero is current and open, and nothing is known of it.
pub proof fn first_epoch_is_open<V>(slot: RaiSlot, hash: BlockHash)
    ensures
        ({
            let s = CloseState::<V>::initial();
            let e = s.epoch(0);
            &&& s.current == 0
            &&& s.epochs.contains_key(0)
            &&& e.phase == RaiEpochPhase::Open
            &&& e.cut is None && e.close_hash is None
            &&& !e.visibility.visible.contains(slot)
            &&& !e.records.contains_key(hash)
            &&& s.open_epoch() == 0
        }),
{
}

}
