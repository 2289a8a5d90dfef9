//! Elections that are under way, with the votes cast in them.
use vstd::prelude::*;

use crate::committee::{is_index_of, Membership, RaiCommittee, RaiCommitteeSet, RaiEpoch};
use crate::ordered::{
    ascending, lemma_ascending, lemma_take_distinct, lemma_take_set, Duplicate, Key, Pair, SortedMap, SortedSet,
};
use crate::types::{
    PublicKey, RaiElectionId, RaiElectionValue, RaiSlot, RaiVote, RaiVoteKind, RaiVoteScope, VoteError,
};

verus! {

#[derive(Clone, Copy, Debug, PartialEq, Eq, Structural)]
pub enum RaiElectionOutcome {
    Timeout,
    Notarized(RaiElectionValue),
    Fast(RaiElectionValue),
    Final(RaiElectionValue),
    SafetyFault,
}

impl DeepView for RaiElectionOutcome {
    type V = RaiElectionOutcome;

    open spec fn deep_view(&self) -> RaiElectionOutcome {
        *self
    }
}

impl Duplicate for RaiElectionOutcome {
    fn duplicate(&self) -> (r: Self) {
        *self
    }

    fn agrees(&self, other: &Self) -> (r: bool) {
        *self == *other
    }
}

#[derive(Clone, Copy, Debug, PartialEq, Eq, Structural)]
pub enum RaiElectionInsertError {
    Stopped,
    Duplicate,
}

impl DeepView for RaiElectionInsertError {
    type V = RaiElectionInsertError;

    open spec fn deep_view(&self) -> RaiElectionInsertError {
        *self
    }
}

impl Duplicate for RaiElectionInsertError {
    fn duplicate(&self) -> (r: Self) {
        *self
    }

    fn agrees(&self, other: &Self) -> (r: bool) {
        *self == *other
    }
}

#[derive(Clone, Copy, Debug, PartialEq, Eq, Structural)]
pub enum RaiElectionStatus {
    Active,
    Confirmed,
}

impl DeepView for RaiElectionStatus {
    type V = RaiElectionStatus;

    open spec fn deep_view(&self) -> RaiElectionStatus {
        *self
    }
}

impl Duplicate for RaiElectionStatus {
    fn duplicate(&self) -> (r: Self) {
        *self
    }

    fn agrees(&self, other: &Self) -> (r: bool) {
        *self == *other
    }
}

/// One voter's seat in one committee of an election.
#[derive(Clone, Copy, Debug, PartialEq, Eq, PartialOrd, Ord, Hash, Structural)]
pub struct RaiCommitteeVoteKey {
    pub voter: PublicKey,
    pub committee_index: usize,
}

impl DeepView for RaiCommitteeVoteKey {
    type V = RaiCommitteeVoteKey;

    open spec fn deep_view(&self) -> RaiCommitteeVoteKey {
        *self
    }
}

impl Duplicate for RaiCommitteeVoteKey {
    fn duplicate(&self) -> (r: Self) {
        *self
    }

    fn agrees(&self, other: &Self) -> (r: bool) {
        *self == *other
    }
}

impl Key for RaiCommitteeVoteKey {
    open spec fn rank(self) -> int {
        Pair(self.voter, self.committee_index).rank()
    }

    open spec fn span() -> int {
        Pair::<PublicKey, usize>::span()
    }

    proof fn rank_in_span(self) {
        Pair(self.voter, self.committee_index).rank_in_span();
    }

    proof fn rank_is_injective(a: Self, b: Self) {
        Pair::<PublicKey, usize>::rank_is_injective(Pair(a.voter, a.committee_index), Pair(b.voter, b.committee_index));
    }

    fn precedes(&self, other: &Self) -> (r: bool) {
        Pair(self.voter, self.committee_index).precedes(&Pair(other.voter, other.committee_index))
    }
}

/// The votes that one seat has cast.
#[derive(Debug, PartialEq, Eq)]
pub struct RaiVoteState {
    pub first: Option<RaiElectionValue>,
    pub notarized: SortedSet<RaiElectionValue>,
    pub final_vote: Option<RaiElectionValue>,
}

/// The model of the votes of one seat.
#[verifier::ext_equal]
pub struct CastVotes {
    pub first: Option<RaiElectionValue>,
    pub notarized: Set<RaiElectionValue>,
    pub final_vote: Option<RaiElectionValue>,
}

impl DeepView for RaiVoteState {
    type V = CastVotes;

    open spec fn deep_view(&self) -> CastVotes {
        CastVotes { first: self.first, notarized: self.notarized@, final_vote: self.final_vote }
    }
}

impl Duplicate for RaiVoteState {
    fn duplicate(&self) -> (r: Self) {
        RaiVoteState { first: self.first, notarized: self.notarized.duplicate(), final_vote: self.final_vote }
    }

    fn agrees(&self, other: &Self) -> (r: bool) {
        self.first.agrees(&other.first) && self.notarized.agrees(&other.notarized) && self.final_vote.agrees(
            &other.final_vote,
        )
    }
}

/// Which votes a tally counts.
pub enum TallyKind {
    First,
    Notarization,
    Final,
}

/// A seat that has cast nothing.
pub open spec fn nothing_cast() -> CastVotes {
    CastVotes { first: None, notarized: Set::empty(), final_vote: None }
}

impl CastVotes {
    /// The values that the seat counts for in a tally. A first vote for
    /// anything but a timeout also counts towards notarization.
    pub open spec fn backs(self, kind: TallyKind) -> Set<RaiElectionValue> {
        match kind {
            TallyKind::First => match self.first {
                Some(first) => set![first],
                None => Set::empty(),
            },
            TallyKind::Notarization => match self.first {
                Some(first) => if first == RaiElectionValue::Timeout {
                    self.notarized
                } else {
                    self.notarized.insert(first)
                },
                None => self.notarized,
            },
            TallyKind::Final => match self.final_vote {
                Some(value) => set![value],
                None => Set::empty(),
            },
        }
    }

    /// Whether the seat notarized something else than `value`.
    pub open spec fn notarized_other(self, value: RaiElectionValue) -> bool {
        exists|other: RaiElectionValue| #[trigger] self.notarized.contains(other) && other != value
    }

    /// Why the seat cannot cast the vote, if so. A final vote closes the seat.
    pub open spec fn refusal(self, kind: RaiVoteKind, value: RaiElectionValue) -> Option<VoteError> {
        match kind {
            RaiVoteKind::First => match self.first {
                Some(first) => if first == value {
                    Some(VoteError::Replay)
                } else {
                    Some(VoteError::Invalid)
                },
                None => if self.final_vote is Some || self.notarized_other(value) {
                    Some(VoteError::Invalid)
                } else {
                    None
                },
            },
            RaiVoteKind::Notarization => if self.notarized.contains(value) {
                Some(VoteError::Replay)
            } else if self.final_vote is Some {
                Some(VoteError::Invalid)
            } else {
                None
            },
            RaiVoteKind::Final => if self.final_vote is Some {
                Some(VoteError::Replay)
            } else if (self.first is Some && self.first != Some(value)) || self.notarized_other(value) {
                Some(VoteError::Invalid)
            } else {
                None
            },
        }
    }

    pub open spec fn cast(self, kind: RaiVoteKind, value: RaiElectionValue) -> CastVotes {
        match kind {
            RaiVoteKind::First => CastVotes { first: Some(value), ..self },
            RaiVoteKind::Notarization => CastVotes { notarized: self.notarized.insert(value), ..self },
            RaiVoteKind::Final => CastVotes { final_vote: Some(value), ..self },
        }
    }

    /// The seat has spoken, is not locked, and has not called for a timeout yet.
    pub open spec fn can_time_out(self) -> bool {
        self.first is Some && self.final_vote is None && !self.notarized.contains(RaiElectionValue::Timeout)
    }
}

impl RaiVoteState {
    fn new() -> (r: Self)
        ensures
            r.deep_view() == nothing_cast(),
    {
        RaiVoteState { first: None, notarized: SortedSet::new(), final_vote: None }
    }

    fn has_notarized_other(&self, value: &RaiElectionValue) -> (r: bool)
        ensures
            r == self.deep_view().notarized_other(*value),
    {
        let mut allowed: SortedSet<RaiElectionValue> = SortedSet::new();
        allowed.insert(*value);
        let r = !self.notarized.is_subset(&allowed);
        proof {
            let v = self.notarized@;
            if r {
                let other = choose|other: RaiElectionValue| v.contains(other) && !allowed@.contains(other);
                assert(self.deep_view().notarized.contains(other) && other != *value);
            } else {
                assert forall|other: RaiElectionValue| #[trigger] v.contains(other) implies other == *value by {
                    assert(allowed@.contains(other));
                }
            }
        }
        r
    }

    fn ensure_can_apply(&self, vote: &RaiVote) -> (r: Result<(), VoteError>)
        ensures
            match r {
                Ok(_) => self.deep_view().refusal(vote.kind, vote.value) is None,
                Err(error) => self.deep_view().refusal(vote.kind, vote.value) == Some(error),
            },
    {
        match vote.kind {
            RaiVoteKind::First => match &self.first {
                Some(first) => if *first == vote.value {
                    Err(VoteError::Replay)
                } else {
                    Err(VoteError::Invalid)
                },
                None => if self.final_vote.is_some() || self.has_notarized_other(&vote.value) {
                    Err(VoteError::Invalid)
                } else {
                    Ok(())
                },
            },
            RaiVoteKind::Notarization => if self.notarized.contains(&vote.value) {
                Err(VoteError::Replay)
            } else if self.final_vote.is_some() {
                Err(VoteError::Invalid)
            } else {
                Ok(())
            },
            RaiVoteKind::Final => {
                let other_first = match &self.first {
                    Some(first) => *first != vote.value,
                    None => false,
                };
                if self.final_vote.is_some() {
                    Err(VoteError::Replay)
                } else if other_first || self.has_notarized_other(&vote.value) {
                    Err(VoteError::Invalid)
                } else {
                    Ok(())
                }
            },
        }
    }

    fn apply_vote(&mut self, vote: &RaiVote)
        ensures
            final(self).deep_view() == old(self).deep_view().cast(vote.kind, vote.value),
    {
        match vote.kind {
            RaiVoteKind::First => {
                self.first = Some(vote.value);
            },
            RaiVoteKind::Notarization => {
                self.notarized.insert(vote.value);
            },
            RaiVoteKind::Final => {
                self.final_vote = Some(vote.value);
            },
        }
    }

    fn backed_values(&self, kind: &TallyKind) -> (r: SortedSet<RaiElectionValue>)
        ensures
            r@ == self.deep_view().backs(*kind),
    {
        match kind {
            TallyKind::First => {
                let mut values: SortedSet<RaiElectionValue> = SortedSet::new();
                if let Some(first) = self.first {
                    values.insert(first);
                }
                proof {
                    assert(values@ =~= self.deep_view().backs(*kind));
                }
                values
            },
            TallyKind::Notarization => {
                let mut values = self.notarized.duplicate();
                if let Some(first) = self.first {
                    if first != RaiElectionValue::Timeout {
                        values.insert(first);
                    }
                }
                values
            },
            TallyKind::Final => {
                let mut values: SortedSet<RaiElectionValue> = SortedSet::new();
                if let Some(value) = self.final_vote {
                    values.insert(value);
                }
                proof {
                    assert(values@ =~= self.deep_view().backs(*kind));
                }
                values
            },
        }
    }

    fn can_timeout_vote(&self) -> (r: bool)
        ensures
            r == self.deep_view().can_time_out(),
    {
        self.first.is_some() && self.final_vote.is_none() && !self.notarized.contains(&RaiElectionValue::Timeout)
    }
}

/// Votes for one value, counted by committee.
#[derive(Debug, PartialEq, Eq)]
pub struct RaiCommitteeVoteCounts {
    pub per_committee: Vec<usize>,
}

impl DeepView for RaiCommitteeVoteCounts {
    type V = Seq<usize>;

    open spec fn deep_view(&self) -> Seq<usize> {
        self.per_committee@
    }
}

/// The sum of some counts.
pub open spec fn count_sum(counts: Seq<usize>) -> nat
    decreases counts.len(),
{
    if counts.len() == 0 {
        0
    } else {
        count_sum(counts.drop_last()) + counts.last() as nat
    }
}

/// The count of one committee; none beyond the last.
pub open spec fn count_at(counts: Seq<usize>, committee: int) -> int {
    if 0 <= committee < counts.len() {
        counts[committee] as int
    } else {
        0
    }
}

fn copy_counts(counts: &Vec<usize>) -> (r: Vec<usize>)
    ensures
        r@ == counts@,
{
    let mut r: Vec<usize> = Vec::new();
    for i in 0..counts.len()
        invariant
            r@ == counts@.take(i as int),
    {
        r.push(counts[i]);
        proof {
            assert(r@ =~= counts@.take(i + 1));
        }
    }
    proof {
        assert(counts@.take(counts@.len() as int) =~= counts@);
    }
    r
}

proof fn lemma_sum_of_prefix(counts: Seq<usize>, n: int)
    requires
        0 <= n <= counts.len(),
    ensures
        count_sum(counts.take(n)) <= count_sum(counts),
    decreases counts.len(),
{
    if n == counts.len() {
        assert(counts.take(n) =~= counts);
    } else {
        assert(counts.drop_last().take(n) =~= counts.take(n));
        lemma_sum_of_prefix(counts.drop_last(), n);
    }
}

impl RaiCommitteeVoteCounts {
    pub fn new(committee_count: usize) -> (r: Self)
        ensures
            r.deep_view() == Seq::new(committee_count as nat, |i: int| 0usize),
    {
        let mut per_committee: Vec<usize> = Vec::new();
        for i in 0..committee_count
            invariant
                per_committee@ == Seq::new(i as nat, |j: int| 0usize),
        {
            per_committee.push(0);
            proof {
                assert(per_committee@ =~= Seq::new((i + 1) as nat, |j: int| 0usize));
            }
        }
        RaiCommitteeVoteCounts { per_committee }
    }

    pub fn from_snapshot(per_committee: Vec<usize>) -> (r: Self)
        ensures
            r.deep_view() == per_committee@,
    {
        RaiCommitteeVoteCounts { per_committee }
    }

    /// Counts one more vote in a committee; beyond the last nothing happens.
    pub fn add_vote(&mut self, committee_index: usize)
        requires
            count_at(old(self).deep_view(), committee_index as int) < usize::MAX,
        ensures
            final(self).deep_view() == if committee_index < old(self).deep_view().len() {
                old(self).deep_view().update(
                    committee_index as int,
                    (old(self).deep_view()[committee_index as int] + 1) as usize,
                )
            } else {
                old(self).deep_view()
            },
    {
        if committee_index < self.per_committee.len() {
            let count: usize = self.per_committee[committee_index];
            self.per_committee.set(committee_index, count + 1);
        }
    }

    pub fn total(&self) -> (r: usize)
        requires
            count_sum(self.deep_view()) <= usize::MAX,
        ensures
            r == count_sum(self.deep_view()),
    {
        let mut total: usize = 0;
        for i in 0..self.per_committee.len()
            invariant
                count_sum(self.per_committee@) <= usize::MAX,
                total == count_sum(self.per_committee@.take(i as int)),
        {
            proof {
                lemma_sum_of_prefix(self.per_committee@, i + 1);
                assert(self.per_committee@.take(i + 1).drop_last() =~= self.per_committee@.take(i as int));
            }
            total = total + self.per_committee[i];
        }
        proof {
            assert(self.per_committee@.take(self.per_committee@.len() as int) =~= self.per_committee@);
        }
        total
    }

    pub fn count_for(&self, committee_index: usize) -> (r: usize)
        ensures
            r == count_at(self.deep_view(), committee_index as int),
    {
        if committee_index < self.per_committee.len() {
            self.per_committee[committee_index]
        } else {
            0
        }
    }
}

impl Duplicate for RaiCommitteeVoteCounts {
    fn duplicate(&self) -> (r: Self) {
        RaiCommitteeVoteCounts { per_committee: copy_counts(&self.per_committee) }
    }

    fn agrees(&self, other: &Self) -> (r: bool) {
        proof {
            assert(self.per_committee.deep_view() =~= self.per_committee@);
            assert(other.per_committee.deep_view() =~= other.per_committee@);
        }
        self.per_committee.agrees(&other.per_committee)
    }
}

pub type Tallies = Map<RaiElectionValue, Seq<usize>>;

pub type Seats = Map<RaiCommitteeVoteKey, CastVotes>;

/// Everyone who has a seat.
pub open spec fn voters_of(seats: Seats) -> Set<PublicKey> {
    Set::new(
        |voter: PublicKey|
            exists|key: RaiCommitteeVoteKey| #[trigger] seats.contains_key(key) && key.voter == voter,
    )
}

/// The seats of a committee that count for a value.
pub open spec fn backers(seats: Seats, kind: TallyKind, value: RaiElectionValue, committee: int) -> Set<
    RaiCommitteeVoteKey,
> {
    seats.dom().filter(
        |key: RaiCommitteeVoteKey| key.committee_index == committee && seats[key].backs(kind).contains(value),
    )
}

/// The values that some seat of the first `n` committees counts for.
pub open spec fn voiced(seats: Seats, kind: TallyKind, n: int) -> Set<RaiElectionValue> {
    Set::new(
        |value: RaiElectionValue|
            exists|key: RaiCommitteeVoteKey| #[trigger]
                seats.contains_key(key) && key.committee_index < n && seats[key].backs(kind).contains(value),
    )
}

/// The votes of all seats of `n` committees, counted by value and committee.
pub open spec fn counted(seats: Seats, kind: TallyKind, n: int) -> Tallies {
    Map::new(
        |value: RaiElectionValue| voiced(seats, kind, n).contains(value),
        |value: RaiElectionValue| counts_for(seats, kind, value, n),
    )
}

pub open spec fn counts_for(seats: Seats, kind: TallyKind, value: RaiElectionValue, n: int) -> Seq<usize> {
    Seq::new(n as nat, |c: int| backers(seats, kind, value, c).len() as usize)
}

/// The value with the most votes; of equal ones the last in order.
pub open spec fn leader(tallies: Tallies, values: Seq<RaiElectionValue>) -> Option<RaiElectionValue>
    decreases values.len(),
{
    if values.len() == 0 {
        None
    } else {
        match leader(tallies, values.drop_last()) {
            None => Some(values.last()),
            Some(value) => if count_sum(tallies[values.last()]) >= count_sum(tallies[value]) {
                Some(values.last())
            } else {
                Some(value)
            },
        }
    }
}

/// The values other than a timeout that reach a threshold in a committee.
pub open spec fn certified(tallies: Tallies, committee: int, m: Membership, threshold: int) -> Set<RaiElectionValue> {
    tallies.dom().filter(
        |value: RaiElectionValue|
            value != RaiElectionValue::Timeout && m.reaches(count_at(tallies[value], committee), threshold),
    )
}

/// What two committees' outcomes amount to together. Different blocks end in a
/// timeout, unless both are final, which must never happen.
pub open spec fn merged_with(a: RaiElectionOutcome, b: RaiElectionOutcome) -> RaiElectionOutcome {
    if a is SafetyFault || b is SafetyFault {
        RaiElectionOutcome::SafetyFault
    } else if a is Timeout || b is Timeout {
        RaiElectionOutcome::Timeout
    } else if value_of(a) != value_of(b) {
        if a is Final && b is Final {
            RaiElectionOutcome::SafetyFault
        } else {
            RaiElectionOutcome::Timeout
        }
    } else if a is Notarized || b is Notarized {
        RaiElectionOutcome::Notarized(value_of(a)->0)
    } else if a is Fast && b is Fast {
        RaiElectionOutcome::Fast(value_of(a)->0)
    } else {
        RaiElectionOutcome::Final(value_of(a)->0)
    }
}

/// The value that an outcome names.
pub open spec fn value_of(outcome: RaiElectionOutcome) -> Option<RaiElectionValue> {
    match outcome {
        RaiElectionOutcome::Timeout => Some(RaiElectionValue::Timeout),
        RaiElectionOutcome::Notarized(value) => Some(value),
        RaiElectionOutcome::Fast(value) => Some(value),
        RaiElectionOutcome::Final(value) => Some(value),
        RaiElectionOutcome::SafetyFault => None,
    }
}

/// How two committees' outcomes merge: which comes first does not matter, and
/// agreement changes nothing. A safety fault absorbs everything, a timeout
/// everything but that. Different values are a safety fault where both are
/// final, else a timeout. The same value is notarized where one of the two only
/// notarizes it, fast where both are fast, else final.
pub proof fn outcomes_merge_alike(a: RaiElectionOutcome, b: RaiElectionOutcome)
    ensures
        merged_with(a, b) == merged_with(b, a),
        merged_with(a, a) == a,
        a is SafetyFault ==> merged_with(a, b) is SafetyFault,
        a is Timeout && !(b is SafetyFault) ==> merged_with(a, b) is Timeout,
        a is Final && b is Final && value_of(a) != value_of(b) ==> merged_with(a, b) is SafetyFault,
        names_a_value(a) && names_a_value(b) && value_of(a) != value_of(b) && !(a is Final && b is Final)
            ==> merged_with(a, b) is Timeout,
        names_a_value(a) && names_a_value(b) && value_of(a) == value_of(b) ==> merged_with(a, b) == (
        if a is Notarized || b is Notarized {
            RaiElectionOutcome::Notarized(value_of(a)->0)
        } else if a is Fast && b is Fast {
            RaiElectionOutcome::Fast(value_of(a)->0)
        } else {
            RaiElectionOutcome::Final(value_of(a)->0)
        }),
{
}

/// The outcome certifies a value.
pub open spec fn names_a_value(outcome: RaiElectionOutcome) -> bool {
    outcome is Notarized || outcome is Fast || outcome is Final
}

/// Merges the outcomes of two committees.
pub fn merge_outcomes(left: RaiElectionOutcome, right: RaiElectionOutcome) -> (r: RaiElectionOutcome)
    ensures
        r == merged_with(left, right),
{
    match (left, right) {
        (RaiElectionOutcome::SafetyFault, _) => RaiElectionOutcome::SafetyFault,
        (_, RaiElectionOutcome::SafetyFault) => RaiElectionOutcome::SafetyFault,
        (RaiElectionOutcome::Timeout, _) => RaiElectionOutcome::Timeout,
        (_, RaiElectionOutcome::Timeout) => RaiElectionOutcome::Timeout,
        (RaiElectionOutcome::Final(a), RaiElectionOutcome::Final(b)) => if a == b {
            RaiElectionOutcome::Final(a)
        } else {
            RaiElectionOutcome::SafetyFault
        },
        (RaiElectionOutcome::Notarized(a), RaiElectionOutcome::Notarized(b)) => agreed_or_timeout(
            a,
            b,
            RaiElectionOutcome::Notarized(a),
        ),
        (RaiElectionOutcome::Notarized(a), RaiElectionOutcome::Fast(b)) => agreed_or_timeout(
            a,
            b,
            RaiElectionOutcome::Notarized(a),
        ),
        (RaiElectionOutcome::Notarized(a), RaiElectionOutcome::Final(b)) => agreed_or_timeout(
            a,
            b,
            RaiElectionOutcome::Notarized(a),
        ),
        (RaiElectionOutcome::Fast(a), RaiElectionOutcome::Notarized(b)) => agreed_or_timeout(
            a,
            b,
            RaiElectionOutcome::Notarized(a),
        ),
        (RaiElectionOutcome::Final(a), RaiElectionOutcome::Notarized(b)) => agreed_or_timeout(
            a,
            b,
            RaiElectionOutcome::Notarized(a),
        ),
        (RaiElectionOutcome::Fast(a), RaiElectionOutcome::Fast(b)) => agreed_or_timeout(
            a,
            b,
            RaiElectionOutcome::Fast(a),
        ),
        (RaiElectionOutcome::Fast(a), RaiElectionOutcome::Final(b)) => agreed_or_timeout(
            a,
            b,
            RaiElectionOutcome::Final(a),
        ),
        (RaiElectionOutcome::Final(a), RaiElectionOutcome::Fast(b)) => agreed_or_timeout(
            a,
            b,
            RaiElectionOutcome::Final(a),
        ),
    }
}

fn agreed_or_timeout(a: RaiElectionValue, b: RaiElectionValue, agreed: RaiElectionOutcome) -> (r: RaiElectionOutcome)
    ensures
        r == if a == b {
            agreed
        } else {
            RaiElectionOutcome::Timeout
        },
{
    if a == b {
        agreed
    } else {
        RaiElectionOutcome::Timeout
    }
}

impl RaiElectionOutcome {
    fn value(&self) -> (r: Option<RaiElectionValue>)
        ensures
            r == value_of(*self),
    {
        match self {
            RaiElectionOutcome::Timeout => Some(RaiElectionValue::Timeout),
            RaiElectionOutcome::Notarized(value) => Some(*value),
            RaiElectionOutcome::Fast(value) => Some(*value),
            RaiElectionOutcome::Final(value) => Some(*value),
            RaiElectionOutcome::SafetyFault => None,
        }
    }
}

/// One election.
pub struct RaiElection {
    id: RaiElectionId,
    status: RaiElectionStatus,
    vote_states: SortedMap<RaiCommitteeVoteKey, RaiVoteState>,
    tallies: SortedMap<RaiElectionValue, RaiCommitteeVoteCounts>,
    notarization_tallies: SortedMap<RaiElectionValue, RaiCommitteeVoteCounts>,
    final_tallies: SortedMap<RaiElectionValue, RaiCommitteeVoteCounts>,
    winner: Option<RaiElectionValue>,
    confirmed_value: Option<RaiElectionValue>,
}

/// The model of one election.
#[verifier::ext_equal]
pub struct Election {
    pub id: RaiElectionId,
    pub status: RaiElectionStatus,
    pub seats: Seats,
    pub tallies: Tallies,
    pub notarization_tallies: Tallies,
    pub final_tallies: Tallies,
    pub winner: Option<RaiElectionValue>,
    pub confirmed_value: Option<RaiElectionValue>,
}

impl View for RaiElection {
    type V = Election;

    closed spec fn view(&self) -> Election {
        Election {
            id: self.id,
            status: self.status,
            seats: self.vote_states@,
            tallies: self.tallies@,
            notarization_tallies: self.notarization_tallies@,
            final_tallies: self.final_tallies@,
            winner: self.winner,
            confirmed_value: self.confirmed_value,
        }
    }
}

impl DeepView for RaiElection {
    type V = Election;

    open spec fn deep_view(&self) -> Election {
        self.view()
    }
}

/// Every sum of counts fits.
pub open spec fn sums_fit(tallies: Tallies) -> bool {
    forall|value: RaiElectionValue| #[trigger] tallies.contains_key(value) ==> count_sum(tallies[value]) <= usize::MAX
}

impl Election {
    pub open spec fn new(id: RaiElectionId) -> Election {
        Election {
            id,
            status: RaiElectionStatus::Active,
            seats: Map::empty(),
            tallies: Map::empty(),
            notarization_tallies: Map::empty(),
            final_tallies: Map::empty(),
            winner: None,
            confirmed_value: None,
        }
    }

    pub open spec fn well_formed(self) -> bool {
        &&& self.seats.dom().finite()
        &&& self.tallies.dom().finite()
        &&& self.notarization_tallies.dom().finite()
        &&& self.final_tallies.dom().finite()
        &&& sums_fit(self.tallies)
        &&& sums_fit(self.notarization_tallies)
        &&& sums_fit(self.final_tallies)
    }

    /// Whether the timeout reaches the notarization threshold of a committee.
    pub open spec fn timeout_certified(self, committee: int, m: Membership) -> bool {
        self.notarization_tallies.contains_key(RaiElectionValue::Timeout) && m.reaches(
            count_at(self.notarization_tallies[RaiElectionValue::Timeout], committee),
            m.thresholds.notarization as int,
        )
    }

    pub open spec fn finals(self, committee: int, m: Membership) -> Set<RaiElectionValue> {
        certified(self.final_tallies, committee, m, m.thresholds.finalization as int)
    }

    pub open spec fn fasts(self, committee: int, m: Membership) -> Set<RaiElectionValue> {
        certified(self.tallies, committee, m, m.thresholds.fast as int)
    }

    pub open spec fn notarizeds(self, committee: int, m: Membership) -> Set<RaiElectionValue> {
        certified(self.notarization_tallies, committee, m, m.thresholds.notarization as int)
    }

    /// Some value other than `value` is notarized.
    pub open spec fn notarized_other(self, committee: int, m: Membership, value: RaiElectionValue) -> bool {
        exists|other: RaiElectionValue| #[trigger]
            self.notarizeds(committee, m).contains(other) && other != value
    }

    /// What the votes amount to in one committee.
    pub open spec fn local_outcome(self, committee: int, m: Membership) -> Option<RaiElectionOutcome> {
        let finals = self.finals(committee, m);
        let fasts = self.fasts(committee, m);
        let notarizeds = self.notarizeds(committee, m);
        let timeout = self.timeout_certified(committee, m);
        if finals.len() > 1 {
            Some(RaiElectionOutcome::SafetyFault)
        } else if finals.len() == 1 {
            let value = finals.choose();
            if timeout || self.notarized_other(committee, m, value) {
                Some(RaiElectionOutcome::SafetyFault)
            } else {
                Some(RaiElectionOutcome::Final(value))
            }
        } else if timeout {
            if fasts.len() > 0 {
                Some(RaiElectionOutcome::SafetyFault)
            } else {
                Some(RaiElectionOutcome::Timeout)
            }
        } else if fasts.len() > 1 {
            Some(RaiElectionOutcome::Timeout)
        } else if fasts.len() == 1 {
            let value = fasts.choose();
            if self.notarized_other(committee, m, value) {
                Some(RaiElectionOutcome::SafetyFault)
            } else {
                Some(RaiElectionOutcome::Fast(value))
            }
        } else if notarizeds.len() == 0 {
            None
        } else if notarizeds.len() == 1 {
            Some(RaiElectionOutcome::Notarized(notarizeds.choose()))
        } else {
            Some(RaiElectionOutcome::Timeout)
        }
    }

    /// What the votes amount to in all committees; nothing while one is open.
    pub open spec fn merged_outcome(self, committees: Seq<Membership>) -> Option<RaiElectionOutcome>
        decreases committees.len(),
    {
        if committees.len() == 0 {
            None
        } else {
            let last = self.local_outcome(committees.len() - 1, committees.last());
            if committees.len() == 1 {
                last
            } else {
                match (self.merged_outcome(committees.drop_last()), last) {
                    (Some(earlier), Some(last)) => Some(merged_with(earlier, last)),
                    _ => None,
                }
            }
        }
    }

    /// Whether the vote is of a kind that this election takes.
    pub open spec fn accepts(self, kind: RaiVoteKind, value: RaiElectionValue) -> bool {
        match (self.id, value) {
            (RaiElectionId::Slot { .. }, RaiElectionValue::Block(_)) => true,
            (RaiElectionId::Slot { .. }, RaiElectionValue::Timeout) => kind != RaiVoteKind::Final,
            (RaiElectionId::CloseCut { .. }, RaiElectionValue::CloseCutHash(_)) => kind != RaiVoteKind::Final,
            (RaiElectionId::CloseCut { .. }, RaiElectionValue::Timeout) => kind != RaiVoteKind::Final,
            (RaiElectionId::CloseRecord { .. }, RaiElectionValue::CloseRecordHash(_)) => kind != RaiVoteKind::Final,
            (RaiElectionId::CloseRecord { .. }, RaiElectionValue::Timeout) => kind != RaiVoteKind::Final,
            _ => false,
        }
    }

    pub open spec fn seat(self, voter: PublicKey, committee: int) -> RaiCommitteeVoteKey {
        RaiCommitteeVoteKey { voter, committee_index: committee as usize }
    }

    /// The refusal of the first of `n` committees whose seat cannot cast the vote.
    pub open spec fn first_refusal(self, vote: RaiVote, committees: Seq<Membership>, n: int) -> Option<VoteError>
        decreases n,
    {
        if n <= 0 {
            None
        } else {
            match self.first_refusal(vote, committees, n - 1) {
                Some(error) => Some(error),
                None => {
                    let seat = self.seat(vote.voter, n - 1);
                    if is_index_of(committees, vote.voter, vote.scope, n - 1) && self.seats.contains_key(seat) {
                        self.seats[seat].refusal(vote.kind, vote.value)
                    } else {
                        None
                    }
                },
            }
        }
    }

    /// Why the vote is not counted, if so.
    pub open spec fn vote_error(self, vote: RaiVote, committees: Seq<Membership>) -> Option<VoteError> {
        if !self.accepts(vote.kind, vote.value) {
            Some(VoteError::Invalid)
        } else if forall|i: int| !#[trigger] is_index_of(committees, vote.voter, vote.scope, i) {
            Some(VoteError::Indeterminate)
        } else {
            self.first_refusal(vote, committees, committees.len() as int)
        }
    }

    /// The seats after the vote was cast in each committee below `n` that it
    /// is meant for.
    pub open spec fn seats_after(self, vote: RaiVote, committees: Seq<Membership>, n: int) -> Seats {
        let cast = |key: RaiCommitteeVoteKey|
            key.voter == vote.voter && key.committee_index < n && is_index_of(
                committees,
                vote.voter,
                vote.scope,
                key.committee_index as int,
            );
        Map::new(
            |key: RaiCommitteeVoteKey| self.seats.contains_key(key) || cast(key),
            |key: RaiCommitteeVoteKey|
                if cast(key) {
                    (if self.seats.contains_key(key) {
                        self.seats[key]
                    } else {
                        nothing_cast()
                    }).cast(vote.kind, vote.value)
                } else {
                    self.seats[key]
                },
        )
    }

    /// Whether the outcome ends the election.
    pub open spec fn is_terminal(self, outcome: RaiElectionOutcome) -> bool {
        !(outcome is SafetyFault) && (self.id is Slot || !(outcome is Final))
    }

    /// The value that a terminal outcome confirms. A close is confirmed by a
    /// fast certificate or a timeout only.
    pub open spec fn confirms(self, outcome: RaiElectionOutcome) -> Option<RaiElectionValue> {
        match outcome {
            RaiElectionOutcome::Timeout => Some(RaiElectionValue::Timeout),
            RaiElectionOutcome::Fast(value) => Some(value),
            RaiElectionOutcome::Notarized(value) => if self.id is Slot {
                Some(value)
            } else {
                None
            },
            RaiElectionOutcome::Final(value) => if self.id is Slot {
                Some(value)
            } else {
                None
            },
            RaiElectionOutcome::SafetyFault => None,
        }
    }

    /// The election with its tallies taken anew from its seats.
    pub open spec fn recounted(self, n: int) -> Election {
        Election {
            tallies: counted(self.seats, TallyKind::First, n),
            notarization_tallies: counted(self.seats, TallyKind::Notarization, n),
            final_tallies: counted(self.seats, TallyKind::Final, n),
            ..self
        }
    }

    /// The election with status and winner brought up to date.
    pub open spec fn concluded(self, committees: Seq<Membership>) -> Election {
        let outcome = self.merged_outcome(committees);
        let ended = outcome is Some && self.is_terminal(outcome->0);
        let confirmed_value = if ended && self.confirmed_value is None {
            self.confirms(outcome->0)
        } else {
            self.confirmed_value
        };
        let named = match outcome {
            Some(outcome) => value_of(outcome),
            None => None,
        };
        let first_leader = leader(self.tallies, ascending(self.tallies.dom()));
        Election {
            status: if ended {
                RaiElectionStatus::Confirmed
            } else {
                self.status
            },
            confirmed_value,
            winner: if confirmed_value is Some {
                confirmed_value
            } else if named is Some {
                named
            } else if first_leader is Some {
                first_leader
            } else {
                leader(self.notarization_tallies, ascending(self.notarization_tallies.dom()))
            },
            ..self
        }
    }

    /// The election after a vote was counted.
    pub open spec fn with_vote(self, vote: RaiVote, committees: Seq<Membership>) -> Election {
        let n = committees.len() as int;
        (Election { seats: self.seats_after(vote, committees, n), ..self }).recounted(n).concluded(committees)
    }

    /// The first votes of a committee are spread so widely that a timeout may
    /// be called: whichever block leads, enough votes are for something else.
    pub open spec fn timeout_ready(self, committee: int, m: Membership) -> bool {
        m.members.len() > 0 && forall|value: RaiElectionValue|
            value != RaiElectionValue::Timeout ==> self.first_voters(committee).len() - (#[trigger] backers(
                self.seats,
                TallyKind::First,
                value,
                committee,
            )).len() >= m.thresholds.max_faulty + m.thresholds.max_offline + 1
    }

    pub open spec fn first_voters(self, committee: int) -> Set<RaiCommitteeVoteKey> {
        self.seats.dom().filter(
            |key: RaiCommitteeVoteKey| key.committee_index == committee && self.seats[key].first is Some,
        )
    }
}

proof fn lemma_single(values: Set<RaiElectionValue>, value: RaiElectionValue)
    requires
        values.finite(),
        values.len() == 1,
        values.contains(value),
    ensures
        values.choose() == value,
        values == set![value],
{
    let other = values.choose();
    assert(values.contains(other));
    assert(values.remove(other).len() == 0);
    if other != value {
        assert(values.remove(other).contains(value));
    }
    assert(values =~= set![value]);
}

/// The seats of `n` committees that count for a value are not more than all seats.
proof fn lemma_counts_fit(seats: Seats, kind: TallyKind, value: RaiElectionValue, n: int)
    requires
        seats.dom().finite(),
        seats.len() <= usize::MAX,
        0 <= n,
    ensures
        count_sum(counts_for(seats, kind, value, n)) <= seats.len(),
        forall|c: int| 0 <= c < n ==> (#[trigger] backers(seats, kind, value, c)).len() <= seats.len(),
{
    assert forall|c: int| 0 <= c < n implies (#[trigger] backers(seats, kind, value, c)).len() <= seats.len() by {
        vstd::set_lib::lemma_len_subset(backers(seats, kind, value, c), seats.dom());
    }
    lemma_counts_sum(seats, kind, value, n);
    let all = seats.dom().filter(
        |key: RaiCommitteeVoteKey| key.committee_index < n && seats[key].backs(kind).contains(value),
    );
    vstd::set_lib::lemma_len_subset(all, seats.dom());
}

proof fn lemma_counts_sum(seats: Seats, kind: TallyKind, value: RaiElectionValue, n: int)
    requires
        seats.dom().finite(),
        seats.len() <= usize::MAX,
        0 <= n,
    ensures
        count_sum(counts_for(seats, kind, value, n)) == seats.dom().filter(
            |key: RaiCommitteeVoteKey| key.committee_index < n && seats[key].backs(kind).contains(value),
        ).len(),
    decreases n,
{
    let all = seats.dom().filter(
        |key: RaiCommitteeVoteKey| key.committee_index < n && seats[key].backs(kind).contains(value),
    );
    let counts = counts_for(seats, kind, value, n);
    if n == 0 {
        assert(all =~= Set::<RaiCommitteeVoteKey>::empty());
        assert(counts =~= Seq::<usize>::empty());
    } else {
        let fewer = seats.dom().filter(
            |key: RaiCommitteeVoteKey| key.committee_index < n - 1 && seats[key].backs(kind).contains(value),
        );
        let last = backers(seats, kind, value, n - 1);
        lemma_counts_sum(seats, kind, value, n - 1);
        vstd::set_lib::lemma_len_subset(last, seats.dom());
        vstd::set_lib::lemma_len_subset(fewer, seats.dom());
        assert(counts.drop_last() =~= counts_for(seats, kind, value, n - 1));
        assert(all =~= fewer + last);
        assert(fewer.disjoint(last));
        vstd::set_lib::lemma_set_disjoint_lens(fewer, last);
    }
}

impl RaiElection {
    #[verifier::type_invariant]
    spec fn is_well_formed(&self) -> bool {
        self.view().well_formed()
    }

    pub fn new(id: RaiElectionId) -> (r: Self)
        ensures
            r@ == Election::new(id),
    {
        let vote_states: SortedMap<RaiCommitteeVoteKey, RaiVoteState> = SortedMap::new();
        let tallies: SortedMap<RaiElectionValue, RaiCommitteeVoteCounts> = SortedMap::new();
        let notarization_tallies: SortedMap<RaiElectionValue, RaiCommitteeVoteCounts> = SortedMap::new();
        let final_tallies: SortedMap<RaiElectionValue, RaiCommitteeVoteCounts> = SortedMap::new();
        RaiElection {
            id,
            status: RaiElectionStatus::Active,
            vote_states,
            tallies,
            notarization_tallies,
            final_tallies,
            winner: None,
            confirmed_value: None,
        }
    }

    pub fn id(&self) -> (r: &RaiElectionId)
        ensures
            *r == self@.id,
    {
        &self.id
    }

    pub fn status(&self) -> (r: RaiElectionStatus)
        ensures
            r == self@.status,
    {
        self.status
    }

    /// Everyone with a seat that has voted, in order.
    pub fn voters(&self) -> (r: Vec<PublicKey>)
        ensures
            r@ == ascending(voters_of(self@.seats)),
            r@.to_set() == voters_of(self@.seats),
            r@.no_duplicates(),
    {
        let mut voters: SortedSet<PublicKey> = SortedSet::new();
        let keys = self.vote_states.keys_vec();
        proof {
            lemma_ascending(self.vote_states@.dom());
        }
        for i in 0..keys.len()
            invariant
                keys@ == ascending(self.vote_states@.dom()),
                forall|voter: PublicKey| #[trigger]
                    voters@.contains(voter) == exists|j: int| 0 <= j < i && (#[trigger] keys@[j]).voter == voter,
        {
            let ghost before = voters@;
            voters.insert(keys[i].voter);
            proof {
                assert forall|voter: PublicKey| #[trigger] voters@.contains(voter) == exists|j: int|
                    0 <= j < i + 1 && (#[trigger] keys@[j]).voter == voter by {
                    if before.contains(voter) {
                        let j = choose|j: int| 0 <= j < i && (#[trigger] keys@[j]).voter == voter;
                        assert(keys@[j].voter == voter);
                    }
                    if voter == keys@[i as int].voter {
                        assert(voters@.contains(voter));
                    }
                }
            }
        }
        proof {
            let all = voters_of(self@.seats);
            assert forall|voter: PublicKey| voters@.contains(voter) == all.contains(voter) by {
                if voters@.contains(voter) {
                    let j = choose|j: int| 0 <= j < keys@.len() && (#[trigger] keys@[j]).voter == voter;
                    assert(self@.seats.contains_key(keys@[j]));
                }
                if all.contains(voter) {
                    let key = choose|key: RaiCommitteeVoteKey| #[trigger]
                        self@.seats.contains_key(key) && key.voter == voter;
                    assert(keys@.contains(key));
                    let j = choose|j: int| 0 <= j < keys@.len() && keys@[j] == key;
                    assert(keys@[j].voter == voter);
                }
            }
            assert(voters@ =~= all);
        }
        let size: usize = voters.len();
        proof {
            lemma_ascending(voters@);
        }
        voters.to_vec()
    }

    pub fn tally(&self, value: &RaiElectionValue) -> (r: usize)
        ensures
            r == if self@.tallies.contains_key(*value) {
                count_sum(self@.tallies[*value])
            } else {
                0
            },
    {
        proof {
            use_type_invariant(self);
        }
        match self.tallies.get(value) {
            Some(counts) => counts.total(),
            None => 0,
        }
    }

    pub fn final_tally(&self, value: &RaiElectionValue) -> (r: usize)
        ensures
            r == if self@.final_tallies.contains_key(*value) {
                count_sum(self@.final_tallies[*value])
            } else {
                0
            },
    {
        proof {
            use_type_invariant(self);
        }
        match self.final_tallies.get(value) {
            Some(counts) => counts.total(),
            None => 0,
        }
    }

    pub fn winner(&self) -> (r: Option<&RaiElectionValue>)
        ensures
            match r {
                Some(value) => self@.winner == Some(*value),
                None => self@.winner is None,
            },
    {
        self.winner.as_ref()
    }

    pub fn confirmed_value(&self) -> (r: Option<&RaiElectionValue>)
        ensures
            match r {
                Some(value) => self@.confirmed_value == Some(*value),
                None => self@.confirmed_value is None,
            },
    {
        self.confirmed_value.as_ref()
    }

    pub fn fast_value(&self, committees: &RaiCommitteeSet) -> (r: Option<RaiElectionValue>)
        ensures
            r == match self@.merged_outcome(committees@) {
                Some(RaiElectionOutcome::Fast(value)) => Some(value),
                _ => None,
            },
    {
        match self.merged_outcome(committees) {
            Some(RaiElectionOutcome::Fast(value)) => Some(value),
            _ => None,
        }
    }

    /// The committees in which the voter may call for a timeout, in order.
    pub fn timeout_ready_committee_indexes(&self, voter: &PublicKey, committees: &RaiCommitteeSet) -> (r: Vec<usize>)
        ensures
            forall|x: int, y: int| 0 <= x < y < r@.len() ==> r@[x] < r@[y],
            forall|i: usize| #[trigger]
                r@.contains(i) == (i < committees@.len() && self@.can_time_out(*voter, i as int, committees@[i as int])),
    {
        let mut r: Vec<usize> = Vec::new();
        let n: usize = committees.len();
        for i in 0..n
            invariant
                n == committees@.len(),
                forall|x: int, y: int| 0 <= x < y < r@.len() ==> r@[x] < r@[y],
                forall|x: int|
                    0 <= x < r@.len() ==> (#[trigger] r@[x]) < i && r@[x] < committees@.len() && self@.can_time_out(
                        *voter,
                        r@[x] as int,
                        committees@[r@[x] as int],
                    ),
                forall|j: int|
                    0 <= j < i && #[trigger] self@.can_time_out(*voter, j, committees@[j]) ==> r@.contains(j as usize),
        {
            let committee = committees.at(i);
            if committee.contains(voter) && self.voter_can_timeout(*voter, i) && self.timeout_ready(i, committee) {
                let ghost before = r@;
                r.push(i);
                proof {
                    assert(r@[before.len() as int] == i);
                    assert forall|j: int| 0 <= j < i + 1 && #[trigger] self@.can_time_out(
                        *voter,
                        j,
                        committees@[j],
                    ) implies r@.contains(j as usize) by {
                        if j < i {
                            assert(before.contains(j as usize));
                            let x = choose|x: int| 0 <= x < before.len() && before[x] == j as usize;
                            assert(r@[x] == j as usize);
                        }
                    }
                }
            }
        }
        proof {
            assert forall|i: usize| #[trigger] r@.contains(i) == (i < committees@.len() && self@.can_time_out(
                *voter,
                i as int,
                committees@[i as int],
            )) by {
                if r@.contains(i) {
                    let x = choose|x: int| 0 <= x < r@.len() && r@[x] == i;
                    assert(self@.can_time_out(*voter, r@[x] as int, committees@[r@[x] as int]));
                }
            }
        }
        r
    }

    pub fn merged_outcome(&self, committees: &RaiCommitteeSet) -> (r: Option<RaiElectionOutcome>)
        ensures
            r == self@.merged_outcome(committees@),
    {
        let n: usize = committees.len();
        let ghost all = committees@;
        let mut merged: Option<RaiElectionOutcome> = None;
        for i in 0..n
            invariant
                n == committees@.len(),
                all == committees@,
                merged == self@.merged_outcome(all.take(i as int)),
                i > 0 ==> merged is Some,
        {
            let local = self.local_outcome(i, committees.at(i));
            proof {
                assert(all.take(i + 1).drop_last() =~= all.take(i as int));
                assert(all.take(i + 1).last() == all[i as int]);
                assert(self@.merged_outcome(all.take(i + 1)) == if i == 0 {
                    local
                } else {
                    match (merged, local) {
                        (Some(earlier), Some(last)) => Some(merged_with(earlier, last)),
                        _ => None,
                    }
                });
            }
            let local = match local {
                Some(local) => local,
                None => {
                    proof {
                        lemma_open_stays_open(self@, all, i + 1);
                    }
                    return None;
                },
            };
            merged = match merged {
                None => Some(local),
                Some(existing) => Some(merge_outcomes(existing, local)),
            };
        }
        proof {
            assert(all.take(n as int) =~= all);
        }
        merged
    }

    fn local_outcome(&self, committee_index: usize, committee: &RaiCommittee) -> (r: Option<RaiElectionOutcome>)
        ensures
            r == self@.local_outcome(committee_index as int, committee@),
    {
        let thresholds = committee.thresholds();
        let finals = certified_values(&self.final_tallies, committee_index, committee, thresholds.finalization);
        let fasts = certified_values(&self.tallies, committee_index, committee, thresholds.fast);
        let notarizeds = certified_values(
            &self.notarization_tallies,
            committee_index,
            committee,
            thresholds.notarization,
        );
        let timeout = match self.notarization_tallies.get(&RaiElectionValue::Timeout) {
            Some(counts) => committee.has_notarization_quorum(counts.count_for(committee_index)),
            None => false,
        };
        let final_count: usize = finals.len();
        let fast_count: usize = fasts.len();
        let notarized_count: usize = notarizeds.len();
        if final_count > 1 {
            return Some(RaiElectionOutcome::SafetyFault);
        }
        if final_count == 1 {
            let value = finals.at(0);
            proof {
                lemma_single(finals@, value);
            }
            if timeout || names_other(&notarizeds, &value) {
                return Some(RaiElectionOutcome::SafetyFault);
            }
            return Some(RaiElectionOutcome::Final(value));
        }
        if timeout {
            return if fast_count > 0 {
                Some(RaiElectionOutcome::SafetyFault)
            } else {
                Some(RaiElectionOutcome::Timeout)
            };
        }
        if fast_count > 1 {
            return Some(RaiElectionOutcome::Timeout);
        }
        if fast_count == 1 {
            let value = fasts.at(0);
            proof {
                lemma_single(fasts@, value);
            }
            if names_other(&notarizeds, &value) {
                return Some(RaiElectionOutcome::SafetyFault);
            }
            return Some(RaiElectionOutcome::Fast(value));
        }
        if notarized_count == 0 {
            None
        } else if notarized_count == 1 {
            let value = notarizeds.at(0);
            proof {
                lemma_single(notarizeds@, value);
            }
            Some(RaiElectionOutcome::Notarized(value))
        } else {
            Some(RaiElectionOutcome::Timeout)
        }
    }

    fn voter_can_timeout(&self, voter: PublicKey, committee_index: usize) -> (r: bool)
        ensures
            r == (self@.seats.contains_key(self@.seat(voter, committee_index as int)) && self@.seats[self@.seat(
                voter,
                committee_index as int,
            )].can_time_out()),
    {
        let key = RaiCommitteeVoteKey { voter, committee_index };
        match self.vote_states.get(&key) {
            Some(state) => state.can_timeout_vote(),
            None => false,
        }
    }

    fn timeout_ready(&self, committee_index: usize, committee: &RaiCommittee) -> (r: bool)
        ensures
            r == self@.timeout_ready(committee_index as int, committee@),
    {
        if committee.is_empty() {
            return false;
        }
        let ghost c = committee_index as int;
        let all_votes: usize = self.count_first_voters(committee_index);
        let values = self.voiced_values(&TallyKind::First, committee_index, true);
        let list = values.to_vec();
        let mut max_votes: usize = 0;
        let ghost mut top: Option<RaiElectionValue> = None;
        proof {
            lemma_ascending(values@);
        }
        for i in 0..list.len()
            invariant
                c == committee_index,
                match top {
                    Some(value) => value != RaiElectionValue::Timeout && max_votes == backers(
                        self@.seats,
                        TallyKind::First,
                        value,
                        c,
                    ).len(),
                    None => max_votes == 0,
                },
                forall|j: int|
                    0 <= j < i && (#[trigger] list@[j]) != RaiElectionValue::Timeout ==> backers(
                        self@.seats,
                        TallyKind::First,
                        list@[j],
                        c,
                    ).len() <= max_votes,
        {
            if list[i] != RaiElectionValue::Timeout {
                let votes: usize = self.count_backers(&TallyKind::First, &list[i], committee_index);
                if votes > max_votes {
                    max_votes = votes;
                    proof {
                        top = Some(list@[i as int]);
                    }
                }
            }
        }
        proof {
            let seats = self@.seats;
            let all = self@.first_voters(c);
            assert forall|value: RaiElectionValue| value != RaiElectionValue::Timeout implies (#[trigger] backers(
                seats,
                TallyKind::First,
                value,
                c,
            )).len() <= max_votes by {
                if values@.contains(value) {
                    assert(list@.contains(value));
                    let j = choose|j: int| 0 <= j < list@.len() && list@[j] == value;
                    assert(list@[j] != RaiElectionValue::Timeout);
                } else {
                    let b = backers(seats, TallyKind::First, value, c);
                    assert forall|key: RaiCommitteeVoteKey| !b.contains(key) by {
                        if b.contains(key) {
                            assert(seats.contains_key(key) && key.committee_index == c && seats[key].backs(
                                TallyKind::First,
                            ).contains(value));
                        }
                    }
                    assert(b =~= Set::<RaiCommitteeVoteKey>::empty());
                }
            }
            let witness = match top {
                Some(value) => value,
                None => RaiElectionValue::Block(crate::types::BlockHash { hi: 0, lo: 0 }),
            };
            assert(backers(seats, TallyKind::First, witness, c).len() == max_votes);
            vstd::set_lib::lemma_set_subset_finite(seats.dom(), all);
            assert(backers(seats, TallyKind::First, witness, c).subset_of(all));
            vstd::set_lib::lemma_len_subset(backers(seats, TallyKind::First, witness, c), all);
        }
        let thresholds = committee.thresholds();
        let threshold: u128 = thresholds.max_faulty as u128 + thresholds.max_offline as u128 + 1;
        (all_votes - max_votes) as u128 >= threshold
    }

    fn count_first_voters(&self, committee_index: usize) -> (r: usize)
        ensures
            r == self@.first_voters(committee_index as int).len(),
            self@.seats.dom().finite(),
    {
        let mut count: usize = 0;
        let n: usize = self.vote_states.len();
        let ghost keys = ascending(self.vote_states@.dom());
        let ghost all = self@.first_voters(committee_index as int);
        proof {
            lemma_ascending(self.vote_states@.dom());
            assert(keys.take(0).to_set().intersect(all) =~= Set::<RaiCommitteeVoteKey>::empty());
        }
        for i in 0..n
            invariant
                n == self.vote_states@.len(),
                n == keys.len(),
                keys == ascending(self.vote_states@.dom()),
                keys.no_duplicates(),
                all == self@.first_voters(committee_index as int),
                forall|j: int| 0 <= j < n ==> self.vote_states@.contains_key(#[trigger] keys[j]),
                count == keys.take(i as int).to_set().intersect(all).len(),
                count <= i,
        {
            let key = self.vote_states.key_at(i);
            let counts = key.committee_index == committee_index && self.vote_states.value_at(i).first.is_some();
            proof {
                lemma_count_one(keys, i as int, all);
                assert(self.vote_states@.contains_key(keys[i as int]));
                assert(counts == all.contains(key));
            }
            if counts {
                count = count + 1;
            }
        }
        proof {
            assert(keys.take(n as int) =~= keys);
            assert(keys.to_set().intersect(all) =~= all);
        }
        count
    }

    fn count_backers(&self, kind: &TallyKind, value: &RaiElectionValue, committee_index: usize) -> (r: usize)
        ensures
            r == backers(self@.seats, *kind, *value, committee_index as int).len(),
    {
        let mut count: usize = 0;
        let n: usize = self.vote_states.len();
        let ghost keys = ascending(self.vote_states@.dom());
        let ghost all = backers(self@.seats, *kind, *value, committee_index as int);
        proof {
            lemma_ascending(self.vote_states@.dom());
            assert(keys.take(0).to_set().intersect(all) =~= Set::<RaiCommitteeVoteKey>::empty());
        }
        for i in 0..n
            invariant
                n == self.vote_states@.len(),
                n == keys.len(),
                keys == ascending(self.vote_states@.dom()),
                keys.no_duplicates(),
                all == backers(self@.seats, *kind, *value, committee_index as int),
                forall|j: int| 0 <= j < n ==> self.vote_states@.contains_key(#[trigger] keys[j]),
                count == keys.take(i as int).to_set().intersect(all).len(),
                count <= i,
        {
            let key = self.vote_states.key_at(i);
            let counts = key.committee_index == committee_index && self.vote_states.value_at(i).backed_values(
                kind,
            ).contains(value);
            proof {
                lemma_count_one(keys, i as int, all);
                assert(self.vote_states@.contains_key(keys[i as int]));
                assert(counts == all.contains(key));
            }
            if counts {
                count = count + 1;
            }
        }
        proof {
            assert(keys.take(n as int) =~= keys);
            assert(keys.to_set().intersect(all) =~= all);
        }
        count
    }

    /// The values that seats below `limit`, or those at `limit` only, count for.
    fn voiced_values(&self, kind: &TallyKind, limit: usize, only: bool) -> (r: SortedSet<RaiElectionValue>)
        ensures
            forall|value: RaiElectionValue| #[trigger]
                r@.contains(value) == exists|key: RaiCommitteeVoteKey| #[trigger]
                    self@.seats.contains_key(key) && (if only {
                        key.committee_index == limit
                    } else {
                        key.committee_index < limit
                    }) && self@.seats[key].backs(*kind).contains(value),
            self@.seats.dom().finite(),
    {
        let mut values: SortedSet<RaiElectionValue> = SortedSet::new();
        let n: usize = self.vote_states.len();
        let ghost keys = ascending(self.vote_states@.dom());
        proof {
            lemma_ascending(self.vote_states@.dom());
        }
        for i in 0..n
            invariant
                n == self.vote_states@.len(),
                n == keys.len(),
                keys == ascending(self.vote_states@.dom()),
                forall|value: RaiElectionValue| #[trigger]
                    values@.contains(value) == exists|j: int|
                        0 <= j < i && (if only {
                            (#[trigger] keys[j]).committee_index == limit
                        } else {
                            keys[j].committee_index < limit
                        }) && self@.seats[keys[j]].backs(*kind).contains(value),
        {
            let key = self.vote_states.key_at(i);
            let ghost before = values@;
            let meant = if only {
                key.committee_index == limit
            } else {
                key.committee_index < limit
            };
            if meant {
                values.extend(&self.vote_states.value_at(i).backed_values(kind));
            }
            proof {
                assert(key == keys[i as int]);
                assert forall|value: RaiElectionValue| #[trigger] values@.contains(value) == exists|j: int|
                    0 <= j < i + 1 && (if only {
                        (#[trigger] keys[j]).committee_index == limit
                    } else {
                        keys[j].committee_index < limit
                    }) && self@.seats[keys[j]].backs(*kind).contains(value) by {
                    if before.contains(value) {
                        let j = choose|j: int|
                            0 <= j < i && (if only {
                                (#[trigger] keys[j]).committee_index == limit
                            } else {
                                keys[j].committee_index < limit
                            }) && self@.seats[keys[j]].backs(*kind).contains(value);
                        assert(self@.seats[keys[j]].backs(*kind).contains(value));
                    }
                }
            }
        }
        proof {
            assert forall|value: RaiElectionValue| #[trigger] values@.contains(value) == exists|
                key: RaiCommitteeVoteKey,
            | #[trigger]
                self@.seats.contains_key(key) && (if only {
                    key.committee_index == limit
                } else {
                    key.committee_index < limit
                }) && self@.seats[key].backs(*kind).contains(value) by {
                if values@.contains(value) {
                    let j = choose|j: int|
                        0 <= j < n && (if only {
                            (#[trigger] keys[j]).committee_index == limit
                        } else {
                            keys[j].committee_index < limit
                        }) && self@.seats[keys[j]].backs(*kind).contains(value);
                    assert(self@.seats.contains_key(keys[j]));
                }
                if exists|key: RaiCommitteeVoteKey| #[trigger]
                    self@.seats.contains_key(key) && (if only {
                        key.committee_index == limit
                    } else {
                        key.committee_index < limit
                    }) && self@.seats[key].backs(*kind).contains(value) {
                    let key = choose|key: RaiCommitteeVoteKey| #[trigger]
                        self@.seats.contains_key(key) && (if only {
                            key.committee_index == limit
                        } else {
                            key.committee_index < limit
                        }) && self@.seats[key].backs(*kind).contains(value);
                    assert(keys.contains(key));
                    let j = choose|j: int| 0 <= j < keys.len() && keys[j] == key;
                    assert(self@.seats[keys[j]].backs(*kind).contains(value));
                }
            }
        }
        values
    }

    /// The tally of a kind, taken from the seats of `n` committees.
    fn counted_tallies(&self, kind: &TallyKind, n: usize) -> (r: SortedMap<RaiElectionValue, RaiCommitteeVoteCounts>)
        ensures
            r@ == counted(self@.seats, *kind, n as int),
            sums_fit(r@),
            r@.dom().finite(),
    {
        let mut tallies: SortedMap<RaiElectionValue, RaiCommitteeVoteCounts> = SortedMap::new();
        let values = self.voiced_values(kind, n, false);
        let list = values.to_vec();
        let ghost all = counted(self@.seats, *kind, n as int);
        let seat_count: usize = self.vote_states.len();
        proof {
            lemma_ascending(values@);
            assert(values@ =~= voiced(self@.seats, *kind, n as int));
        }
        for i in 0..list.len()
            invariant
                all == counted(self@.seats, *kind, n as int),
                list@ == ascending(values@),
                self@.seats.dom().finite(),
                self@.seats.len() <= usize::MAX,
                forall|j: int| 0 <= j < list@.len() ==> all.contains_key(#[trigger] list@[j]),
                tallies@ == all.restrict(list@.take(i as int).to_set()),
        {
            let value = list[i];
            let mut counts: Vec<usize> = Vec::new();
            for c in 0..n
                invariant
                    counts@ == counts_for(self@.seats, *kind, value, c as int),
                    self@.seats.dom().finite(),
                    self@.seats.len() <= usize::MAX,
            {
                counts.push(self.count_backers(kind, &value, c));
                proof {
                    assert(counts@ =~= counts_for(self@.seats, *kind, value, c + 1));
                }
            }
            tallies.insert(value, RaiCommitteeVoteCounts { per_committee: counts });
            proof {
                lemma_take_set(list@, i as int);
                assert(all.contains_key(list@[i as int]));
                assert(tallies@ =~= all.restrict(list@.take(i + 1).to_set()));
            }
        }
        let size: usize = tallies.len();
        proof {
            assert(list@.take(list@.len() as int) =~= list@);
            assert(tallies@ =~= all);
            assert forall|value: RaiElectionValue| #[trigger] all.contains_key(value) implies count_sum(all[value])
                <= usize::MAX by {
                lemma_counts_fit(self@.seats, *kind, value, n as int);
            }
        }
        tallies
    }
}

proof fn lemma_count_one(keys: Seq<RaiCommitteeVoteKey>, i: int, all: Set<RaiCommitteeVoteKey>)
    requires
        keys.no_duplicates(),
        0 <= i < keys.len(),
    ensures
        keys.take(i + 1).to_set().intersect(all).len() == keys.take(i).to_set().intersect(all).len() + (
        if all.contains(keys[i]) {
            1int
        } else {
            0
        }),
{
    lemma_take_distinct(keys, i);
    let before = keys.take(i).to_set().intersect(all);
    let after = keys.take(i + 1).to_set().intersect(all);
    vstd::seq_lib::seq_to_set_is_finite(keys.take(i));
    if all.contains(keys[i]) {
        assert(after =~= before.insert(keys[i]));
    } else {
        assert(after =~= before);
    }
}

proof fn lemma_open_stays_open(e: Election, committees: Seq<Membership>, n: int)
    requires
        0 < n <= committees.len(),
        e.merged_outcome(committees.take(n)) is None,
    ensures
        e.merged_outcome(committees) is None,
    decreases committees.len(),
{
    if n == committees.len() {
        assert(committees.take(n) =~= committees);
    } else {
        assert(committees.drop_last().take(n) =~= committees.take(n));
        lemma_open_stays_open(e, committees.drop_last(), n);
    }
}

fn names_other(values: &SortedSet<RaiElectionValue>, value: &RaiElectionValue) -> (r: bool)
    ensures
        r == exists|other: RaiElectionValue| #[trigger] values@.contains(other) && other != *value,
{
    let mut allowed: SortedSet<RaiElectionValue> = SortedSet::new();
    allowed.insert(*value);
    let r = !values.is_subset(&allowed);
    proof {
        let v = values@;
        if r {
            let other = choose|other: RaiElectionValue| v.contains(other) && !allowed@.contains(other);
            assert(v.contains(other) && other != *value);
        } else {
            assert forall|other: RaiElectionValue| #[trigger] v.contains(other) implies other == *value by {
                assert(allowed@.contains(other));
            }
        }
    }
    r
}

fn certified_values(
    tallies: &SortedMap<RaiElectionValue, RaiCommitteeVoteCounts>,
    committee_index: usize,
    committee: &RaiCommittee,
    threshold: usize,
) -> (r: SortedSet<RaiElectionValue>)
    ensures
        r@ == certified(tallies@, committee_index as int, committee@, threshold as int),
{
    let mut values: SortedSet<RaiElectionValue> = SortedSet::new();
    let n: usize = tallies.len();
    let ghost keys = ascending(tallies@.dom());
    let ghost all = certified(tallies@, committee_index as int, committee@, threshold as int);
    let empty = committee.is_empty();
    proof {
        lemma_ascending(tallies@.dom());
    }
    for i in 0..n
        invariant
            n == tallies@.len(),
            n == keys.len(),
            keys == ascending(tallies@.dom()),
            empty == (committee@.members.len() == 0),
            all == certified(tallies@, committee_index as int, committee@, threshold as int),
            forall|j: int| 0 <= j < n ==> tallies@.contains_key(#[trigger] keys[j]),
            values@ == keys.take(i as int).to_set().intersect(all),
    {
        let value = tallies.key_at(i);
        proof {
            lemma_take_set(keys, i as int);
            assert(tallies@.contains_key(keys[i as int]));
        }
        if value != RaiElectionValue::Timeout && !empty && tallies.value_at(i).count_for(committee_index) >= threshold {
            values.insert(value);
        }
        proof {
            assert(values@ =~= keys.take(i + 1).to_set().intersect(all));
        }
    }
    proof {
        assert(keys.take(n as int) =~= keys);
        assert(values@ =~= all);
    }
    values
}

fn leading_value(tallies: &SortedMap<RaiElectionValue, RaiCommitteeVoteCounts>) -> (r: Option<RaiElectionValue>)
    requires
        sums_fit(tallies@),
    ensures
        r == leader(tallies@, ascending(tallies@.dom())),
{
    let n: usize = tallies.len();
    let ghost keys = ascending(tallies@.dom());
    let mut best: Option<RaiElectionValue> = None;
    let mut best_total: usize = 0;
    for i in 0..n
        invariant
            sums_fit(tallies@),
            n == tallies@.len(),
            n == keys.len(),
            keys == ascending(tallies@.dom()),
            best == leader(tallies@, keys.take(i as int)),
            best matches Some(value) ==> best_total == count_sum(tallies@[value]),
    {
        let value = tallies.key_at(i);
        let total: usize = tallies.value_at(i).total();
        proof {
            assert(keys.take(i + 1).drop_last() =~= keys.take(i as int));
        }
        if best.is_none() || total >= best_total {
            best = Some(value);
            best_total = total;
        }
    }
    proof {
        assert(keys.take(n as int) =~= keys);
    }
    best
}

impl Election {
    /// Whether the voter may call for a timeout in a committee.
    pub open spec fn can_time_out(self, voter: PublicKey, committee: int, m: Membership) -> bool {
        &&& m.contains(voter)
        &&& self.seats.contains_key(self.seat(voter, committee))
        &&& self.seats[self.seat(voter, committee)].can_time_out()
        &&& self.timeout_ready(committee, m)
    }
}

/// Whether a vote is meant for a committee.
fn is_meant(vote: &RaiVote, committees: &RaiCommitteeSet, i: usize) -> (r: bool)
    requires
        i < committees@.len(),
    ensures
        r == is_index_of(committees@, vote.voter, vote.scope, i as int),
{
    let scoped = match vote.scope {
        crate::types::RaiVoteScope::All => true,
        crate::types::RaiVoteScope::Committee(index) => i == index as usize,
    };
    scoped && committees.at(i).contains(&vote.voter)
}

proof fn lemma_refusal_stands(e: Election, vote: RaiVote, committees: Seq<Membership>, i: int, n: int)
    requires
        0 <= i <= n,
        e.first_refusal(vote, committees, i) is Some,
    ensures
        e.first_refusal(vote, committees, n) == e.first_refusal(vote, committees, i),
    decreases n,
{
    if i < n {
        lemma_refusal_stands(e, vote, committees, i, n - 1);
    }
}

impl RaiElection {
    /// Counts a vote in every committee that it is meant for.
    pub fn apply_vote(&mut self, vote: &RaiVote, committees: &RaiCommitteeSet) -> (r: Result<(), VoteError>)
        ensures
            match r {
                Ok(_) => {
                    &&& old(self)@.vote_error(*vote, committees@) is None
                    &&& final(self)@ == old(self)@.with_vote(*vote, committees@)
                },
                Err(error) => {
                    &&& old(self)@.vote_error(*vote, committees@) == Some(error)
                    &&& final(self)@ == old(self)@
                },
            },
    {
        if !self.accepts_vote(vote) {
            return Err(VoteError::Invalid);
        }
        let n: usize = committees.len();
        let ghost e = self@;
        let mut meant = false;
        for i in 0..n
            invariant
                n == committees@.len(),
                e == self@,
                meant == exists|j: int| 0 <= j < i && #[trigger] is_index_of(committees@, vote.voter, vote.scope, j),
        {
            if is_meant(vote, committees, i) {
                meant = true;
            }
        }
        if !meant {
            return Err(VoteError::Indeterminate);
        }
        for i in 0..n
            invariant
                n == committees@.len(),
                e == self@,
                e.accepts(vote.kind, vote.value),
                exists|j: int| #[trigger] is_index_of(committees@, vote.voter, vote.scope, j),
                e.first_refusal(*vote, committees@, i as int) is None,
        {
            if is_meant(vote, committees, i) {
                let key = RaiCommitteeVoteKey { voter: vote.voter, committee_index: i };
                if let Some(previous) = self.vote_states.get(&key) {
                    if let Err(error) = previous.ensure_can_apply(vote) {
                        proof {
                            assert(e.first_refusal(*vote, committees@, i + 1) == Some(error));
                            lemma_refusal_stands(e, *vote, committees@, i + 1, n as int);
                        }
                        return Err(error);
                    }
                }
            }
        }
        self.cast(vote, committees);
        self.update_tallies(committees);
        Ok(())
    }

    fn cast(&mut self, vote: &RaiVote, committees: &RaiCommitteeSet)
        ensures
            final(self)@ == (Election {
                seats: old(self)@.seats_after(*vote, committees@, committees@.len() as int),
                ..old(self)@
            }),
    {
        proof {
            use_type_invariant(&*self);
        }
        let n: usize = committees.len();
        let ghost e = self@;
        let mut states: SortedMap<RaiCommitteeVoteKey, RaiVoteState> = SortedMap::new();
        core::mem::swap(&mut states, &mut self.vote_states);
        proof {
            assert(e.seats_after(*vote, committees@, 0) =~= e.seats);
        }
        for i in 0..n
            invariant
                n == committees@.len(),
                states@ == e.seats_after(*vote, committees@, i as int),
        {
            if is_meant(vote, committees, i) {
                let key = RaiCommitteeVoteKey { voter: vote.voter, committee_index: i };
                match states.get_mut(&key) {
                    Some(state) => {
                        state.apply_vote(vote);
                    },
                    None => {
                        let mut state = RaiVoteState::new();
                        state.apply_vote(vote);
                        states.insert(key, state);
                    },
                }
            }
            proof {
                assert(states@ =~= e.seats_after(*vote, committees@, i + 1));
            }
        }
        let size: usize = states.len();
        self.vote_states = states;
    }

    fn accepts_vote(&self, vote: &RaiVote) -> (r: bool)
        ensures
            r == self@.accepts(vote.kind, vote.value),
    {
        match (&self.id, &vote.value) {
            (RaiElectionId::Slot { .. }, RaiElectionValue::Block(_)) => true,
            (RaiElectionId::Slot { .. }, RaiElectionValue::Timeout) => vote.kind != RaiVoteKind::Final,
            (RaiElectionId::CloseCut { .. }, RaiElectionValue::CloseCutHash(_)) => vote.kind != RaiVoteKind::Final,
            (RaiElectionId::CloseCut { .. }, RaiElectionValue::Timeout) => vote.kind != RaiVoteKind::Final,
            (RaiElectionId::CloseRecord { .. }, RaiElectionValue::CloseRecordHash(_)) => vote.kind
                != RaiVoteKind::Final,
            (RaiElectionId::CloseRecord { .. }, RaiElectionValue::Timeout) => vote.kind != RaiVoteKind::Final,
            _ => false,
        }
    }

    fn update_tallies(&mut self, committees: &RaiCommitteeSet)
        ensures
            final(self)@ == old(self)@.recounted(committees@.len() as int).concluded(committees@),
    {
        self.recalculate_tallies(committees);
        proof {
            use_type_invariant(&*self);
        }
        let outcome = self.merged_outcome(committees);
        let mut named: Option<RaiElectionValue> = None;
        if let Some(outcome) = outcome {
            named = outcome.value();
            if self.is_terminal_outcome(&outcome) {
                self.status = RaiElectionStatus::Confirmed;
                if self.confirmed_value.is_none() {
                    self.confirmed_value = self.terminal_confirmed_value(&outcome);
                }
            }
        }
        let first_leader = leading_value(&self.tallies);
        let winner = if self.confirmed_value.is_some() {
            self.confirmed_value
        } else if named.is_some() {
            named
        } else if first_leader.is_some() {
            first_leader
        } else {
            leading_value(&self.notarization_tallies)
        };
        self.winner = winner;
    }

    fn is_terminal_outcome(&self, outcome: &RaiElectionOutcome) -> (r: bool)
        ensures
            r == self@.is_terminal(*outcome),
    {
        match (&self.id, outcome) {
            (_, RaiElectionOutcome::SafetyFault) => false,
            (RaiElectionId::Slot { .. }, _) => true,
            (_, RaiElectionOutcome::Final(_)) => false,
            _ => true,
        }
    }

    fn terminal_confirmed_value(&self, outcome: &RaiElectionOutcome) -> (r: Option<RaiElectionValue>)
        ensures
            r == self@.confirms(*outcome),
    {
        match (&self.id, outcome) {
            (_, RaiElectionOutcome::Timeout) => Some(RaiElectionValue::Timeout),
            (_, RaiElectionOutcome::Fast(value)) => Some(*value),
            (RaiElectionId::Slot { .. }, RaiElectionOutcome::Notarized(value)) => Some(*value),
            (RaiElectionId::Slot { .. }, RaiElectionOutcome::Final(value)) => Some(*value),
            _ => None,
        }
    }

    fn recalculate_tallies(&mut self, committees: &RaiCommitteeSet)
        ensures
            final(self)@ == old(self)@.recounted(committees@.len() as int),
    {
        proof {
            use_type_invariant(&*self);
        }
        let n: usize = committees.len();
        let tallies = self.counted_tallies(&TallyKind::First, n);
        let notarization_tallies = self.counted_tallies(&TallyKind::Notarization, n);
        let final_tallies = self.counted_tallies(&TallyKind::Final, n);
        self.tallies = tallies;
        self.notarization_tallies = notarization_tallies;
        self.final_tallies = final_tallies;
    }
}

impl Duplicate for RaiElection {
    fn duplicate(&self) -> (r: Self) {
        proof {
            use_type_invariant(self);
        }
        RaiElection {
            id: self.id,
            status: self.status,
            vote_states: self.vote_states.duplicate(),
            tallies: self.tallies.duplicate(),
            notarization_tallies: self.notarization_tallies.duplicate(),
            final_tallies: self.final_tallies.duplicate(),
            winner: self.winner,
            confirmed_value: self.confirmed_value,
        }
    }

    fn agrees(&self, other: &Self) -> (r: bool) {
        self.id == other.id && self.status == other.status && self.vote_states.agrees(&other.vote_states)
            && self.tallies.agrees(&other.tallies) && self.notarization_tallies.agrees(&other.notarization_tallies)
            && self.final_tallies.agrees(&other.final_tallies) && self.winner.agrees(&other.winner)
            && self.confirmed_value.agrees(&other.confirmed_value)
    }
}

/// A seat as it is stored.
#[derive(Debug, PartialEq, Eq)]
pub struct RaiVoteStateSnapshot {
    pub voter: PublicKey,
    pub committee_index: usize,
    pub first: Option<RaiElectionValue>,
    pub notarized: Vec<RaiElectionValue>,
    pub final_vote: Option<RaiElectionValue>,
}

/// The model of a stored seat.
#[verifier::ext_equal]
pub struct StoredSeat {
    pub voter: PublicKey,
    pub committee_index: usize,
    pub first: Option<RaiElectionValue>,
    pub notarized: Seq<RaiElectionValue>,
    pub final_vote: Option<RaiElectionValue>,
}

impl DeepView for RaiVoteStateSnapshot {
    type V = StoredSeat;

    open spec fn deep_view(&self) -> StoredSeat {
        StoredSeat {
            voter: self.voter,
            committee_index: self.committee_index,
            first: self.first,
            notarized: self.notarized@,
            final_vote: self.final_vote,
        }
    }
}

/// A tally line as it is stored.
#[derive(Debug, PartialEq, Eq)]
pub struct RaiTallySnapshot {
    pub value: RaiElectionValue,
    pub per_committee: Vec<usize>,
}

/// The model of a stored tally line.
#[verifier::ext_equal]
pub struct StoredTally {
    pub value: RaiElectionValue,
    pub per_committee: Seq<usize>,
}

impl DeepView for RaiTallySnapshot {
    type V = StoredTally;

    open spec fn deep_view(&self) -> StoredTally {
        StoredTally { value: self.value, per_committee: self.per_committee@ }
    }
}

/// An election as it is stored.
#[derive(Debug, PartialEq, Eq)]
pub struct RaiElectionSnapshot {
    pub id: RaiElectionId,
    pub status: RaiElectionStatus,
    pub vote_states: Vec<RaiVoteStateSnapshot>,
    pub tallies: Vec<RaiTallySnapshot>,
    pub notarization_tallies: Vec<RaiTallySnapshot>,
    pub final_tallies: Vec<RaiTallySnapshot>,
    pub winner: Option<RaiElectionValue>,
    pub confirmed_value: Option<RaiElectionValue>,
}

/// The model of a stored election.
#[verifier::ext_equal]
pub struct StoredElection {
    pub id: RaiElectionId,
    pub status: RaiElectionStatus,
    pub vote_states: Seq<StoredSeat>,
    pub tallies: Seq<StoredTally>,
    pub notarization_tallies: Seq<StoredTally>,
    pub final_tallies: Seq<StoredTally>,
    pub winner: Option<RaiElectionValue>,
    pub confirmed_value: Option<RaiElectionValue>,
}

impl DeepView for RaiElectionSnapshot {
    type V = StoredElection;

    open spec fn deep_view(&self) -> StoredElection {
        StoredElection {
            id: self.id,
            status: self.status,
            vote_states: self.vote_states.deep_view(),
            tallies: self.tallies.deep_view(),
            notarization_tallies: self.notarization_tallies.deep_view(),
            final_tallies: self.final_tallies.deep_view(),
            winner: self.winner,
            confirmed_value: self.confirmed_value,
        }
    }
}

/// All elections as they are stored.
#[derive(Debug, PartialEq, Eq)]
pub struct RaiActiveElectionsSnapshot {
    pub elections: Vec<RaiElectionSnapshot>,
}

impl DeepView for RaiActiveElectionsSnapshot {
    type V = Seq<StoredElection>;

    open spec fn deep_view(&self) -> Seq<StoredElection> {
        self.elections.deep_view()
    }
}

pub open spec fn stored_seat(key: RaiCommitteeVoteKey, cast: CastVotes) -> StoredSeat {
    StoredSeat {
        voter: key.voter,
        committee_index: key.committee_index,
        first: cast.first,
        notarized: ascending(cast.notarized),
        final_vote: cast.final_vote,
    }
}

pub open spec fn stored_seats(seats: Seats) -> Seq<StoredSeat> {
    ascending(seats.dom()).map_values(|key: RaiCommitteeVoteKey| stored_seat(key, seats[key]))
}

pub open spec fn stored_tallies(tallies: Tallies) -> Seq<StoredTally> {
    ascending(tallies.dom()).map_values(
        |value: RaiElectionValue| StoredTally { value, per_committee: tallies[value] },
    )
}

/// The seats that stored ones yield; the last of one key counts.
pub open spec fn seats_from(stored: Seq<StoredSeat>) -> Seats
    decreases stored.len(),
{
    if stored.len() == 0 {
        Map::empty()
    } else {
        let last = stored.last();
        seats_from(stored.drop_last()).insert(
            RaiCommitteeVoteKey { voter: last.voter, committee_index: last.committee_index },
            CastVotes { first: last.first, notarized: last.notarized.to_set(), final_vote: last.final_vote },
        )
    }
}

pub open spec fn tallies_from(stored: Seq<StoredTally>) -> Tallies
    decreases stored.len(),
{
    if stored.len() == 0 {
        Map::empty()
    } else {
        tallies_from(stored.drop_last()).insert(stored.last().value, stored.last().per_committee)
    }
}

/// Every stored sum fits.
pub open spec fn stored_sums_fit(stored: Seq<StoredTally>) -> bool {
    forall|i: int| 0 <= i < stored.len() ==> count_sum((#[trigger] stored[i]).per_committee) <= usize::MAX
}

impl Election {
    pub open spec fn stored(self) -> StoredElection {
        StoredElection {
            id: self.id,
            status: self.status,
            vote_states: stored_seats(self.seats),
            tallies: stored_tallies(self.tallies),
            notarization_tallies: stored_tallies(self.notarization_tallies),
            final_tallies: stored_tallies(self.final_tallies),
            winner: self.winner,
            confirmed_value: self.confirmed_value,
        }
    }

    pub open spec fn restored(stored: StoredElection) -> Election {
        Election {
            id: stored.id,
            status: stored.status,
            seats: seats_from(stored.vote_states),
            tallies: tallies_from(stored.tallies),
            notarization_tallies: tallies_from(stored.notarization_tallies),
            final_tallies: tallies_from(stored.final_tallies),
            winner: stored.winner,
            confirmed_value: stored.confirmed_value,
        }
    }
}

impl StoredElection {
    pub open spec fn sums_fit(self) -> bool {
        stored_sums_fit(self.tallies) && stored_sums_fit(self.notarization_tallies) && stored_sums_fit(
            self.final_tallies,
        )
    }
}

proof fn lemma_seats_back(seats: Seats, keys: Seq<RaiCommitteeVoteKey>)
    requires
        keys.no_duplicates(),
        forall|i: int| 0 <= i < keys.len() ==> seats.contains_key(#[trigger] keys[i]),
        forall|key: RaiCommitteeVoteKey| #[trigger] seats.contains_key(key) ==> seats[key].notarized.finite(),
    ensures
        seats_from(keys.map_values(|key: RaiCommitteeVoteKey| stored_seat(key, seats[key]))) == seats.restrict(
            keys.to_set(),
        ),
    decreases keys.len(),
{
    let f = |key: RaiCommitteeVoteKey| stored_seat(key, seats[key]);
    let q = keys.map_values(f);
    if keys.len() == 0 {
        assert(seats.restrict(keys.to_set()) =~= Map::<RaiCommitteeVoteKey, CastVotes>::empty());
    } else {
        let n = keys.len() - 1;
        let front = keys.drop_last();
        lemma_seats_back(seats, front);
        assert(q.drop_last() =~= front.map_values(f));
        let key = keys.last();
        assert(seats.contains_key(keys[n]));
        lemma_ascending(seats[key].notarized);
        lemma_take_distinct(keys, n);
        assert(keys.take(n) =~= front);
        assert(keys.take(n + 1) =~= keys);
        assert(q.last() == stored_seat(key, seats[key]));
        assert(seats[key] =~= (CastVotes {
            first: q.last().first,
            notarized: q.last().notarized.to_set(),
            final_vote: q.last().final_vote,
        }));
        assert(seats_from(q) =~= seats.restrict(keys.to_set()));
    }
}

proof fn lemma_tallies_back(tallies: Tallies, keys: Seq<RaiElectionValue>)
    requires
        keys.no_duplicates(),
        forall|i: int| 0 <= i < keys.len() ==> tallies.contains_key(#[trigger] keys[i]),
    ensures
        tallies_from(
            keys.map_values(|value: RaiElectionValue| StoredTally { value, per_committee: tallies[value] }),
        ) == tallies.restrict(keys.to_set()),
    decreases keys.len(),
{
    let f = |value: RaiElectionValue| StoredTally { value, per_committee: tallies[value] };
    let q = keys.map_values(f);
    if keys.len() == 0 {
        assert(tallies.restrict(keys.to_set()) =~= Map::<RaiElectionValue, Seq<usize>>::empty());
    } else {
        let n = keys.len() - 1;
        let front = keys.drop_last();
        lemma_tallies_back(tallies, front);
        assert(q.drop_last() =~= front.map_values(f));
        assert(tallies.contains_key(keys[n]));
        lemma_take_distinct(keys, n);
        assert(keys.take(n) =~= front);
        assert(keys.take(n + 1) =~= keys);
        assert(q.last() == f(keys.last()));
        assert(tallies_from(q) =~= tallies.restrict(keys.to_set()));
    }
}

/// A stored election is read back as it was.
pub proof fn stored_election_round_trip(e: Election)
    requires
        e.well_formed(),
        forall|key: RaiCommitteeVoteKey| #[trigger] e.seats.contains_key(key) ==> e.seats[key].notarized.finite(),
    ensures
        Election::restored(e.stored()) == e,
        e.stored().sums_fit(),
{
    let keys = ascending(e.seats.dom());
    lemma_ascending(e.seats.dom());
    lemma_seats_back(e.seats, keys);
    assert(e.seats.restrict(keys.to_set()) =~= e.seats);
    lemma_stored_tallies(e.tallies);
    lemma_stored_tallies(e.notarization_tallies);
    lemma_stored_tallies(e.final_tallies);
}

proof fn lemma_stored_tallies(tallies: Tallies)
    requires
        tallies.dom().finite(),
        sums_fit(tallies),
    ensures
        tallies_from(stored_tallies(tallies)) == tallies,
        stored_sums_fit(stored_tallies(tallies)),
{
    let keys = ascending(tallies.dom());
    lemma_ascending(tallies.dom());
    lemma_tallies_back(tallies, keys);
    assert(tallies.restrict(keys.to_set()) =~= tallies);
    let q = stored_tallies(tallies);
    assert forall|i: int| 0 <= i < q.len() implies count_sum((#[trigger] q[i]).per_committee) <= usize::MAX by {
        assert(tallies.contains_key(keys[i]));
    }
}

fn store_tallies(tallies: &SortedMap<RaiElectionValue, RaiCommitteeVoteCounts>) -> (r: Vec<RaiTallySnapshot>)
    ensures
        r.deep_view() == stored_tallies(tallies@),
{
    let mut r: Vec<RaiTallySnapshot> = Vec::new();
    let n: usize = tallies.len();
    for i in 0..n
        invariant
            n == tallies@.len(),
            n == ascending(tallies@.dom()).len(),
            r@.len() == i,
            forall|j: int|
                0 <= j < i ==> (#[trigger] r@[j]).deep_view() == (StoredTally {
                    value: ascending(tallies@.dom())[j],
                    per_committee: tallies@[ascending(tallies@.dom())[j]],
                }),
    {
        r.push(
            RaiTallySnapshot {
                value: tallies.key_at(i),
                per_committee: copy_counts(&tallies.value_at(i).per_committee),
            },
        );
    }
    proof {
        assert(r.deep_view() =~= stored_tallies(tallies@));
    }
    r
}

fn restore_tallies(stored: &Vec<RaiTallySnapshot>) -> (r: SortedMap<RaiElectionValue, RaiCommitteeVoteCounts>)
    requires
        stored_sums_fit(stored.deep_view()),
    ensures
        r@ == tallies_from(stored.deep_view()),
        sums_fit(r@),
        r@.dom().finite(),
{
    let mut r: SortedMap<RaiElectionValue, RaiCommitteeVoteCounts> = SortedMap::new();
    let ghost all = stored.deep_view();
    for i in 0..stored.len()
        invariant
            all == stored.deep_view(),
            stored_sums_fit(all),
            r@ == tallies_from(all.take(i as int)),
            sums_fit(r@),
    {
        proof {
            assert(all.take(i + 1).drop_last() =~= all.take(i as int));
            assert(all[i as int] == stored@[i as int].deep_view());
        }
        r.insert(stored[i].value, RaiCommitteeVoteCounts { per_committee: copy_counts(&stored[i].per_committee) });
    }
    let size: usize = r.len();
    proof {
        assert(all.take(all.len() as int) =~= all);
    }
    r
}

impl RaiElection {
    pub fn snapshot(&self) -> (r: RaiElectionSnapshot)
        ensures
            r.deep_view() == self@.stored(),
    {
        RaiElectionSnapshot {
            id: self.id,
            status: self.status,
            vote_states: self.vote_state_snapshots(),
            tallies: store_tallies(&self.tallies),
            notarization_tallies: store_tallies(&self.notarization_tallies),
            final_tallies: store_tallies(&self.final_tallies),
            winner: self.winner,
            confirmed_value: self.confirmed_value,
        }
    }

    /// The seats in voter and committee order.
    pub fn vote_state_snapshots(&self) -> (r: Vec<RaiVoteStateSnapshot>)
        ensures
            r.deep_view() == stored_seats(self@.seats),
    {
        let mut r: Vec<RaiVoteStateSnapshot> = Vec::new();
        let n: usize = self.vote_states.len();
        let ghost keys = ascending(self.vote_states@.dom());
        for i in 0..n
            invariant
                n == self.vote_states@.len(),
                n == keys.len(),
                keys == ascending(self.vote_states@.dom()),
                r@.len() == i,
                forall|j: int|
                    0 <= j < i ==> (#[trigger] r@[j]).deep_view() == stored_seat(keys[j], self.vote_states@[keys[j]]),
        {
            let key = self.vote_states.key_at(i);
            let state = self.vote_states.value_at(i);
            r.push(
                RaiVoteStateSnapshot {
                    voter: key.voter,
                    committee_index: key.committee_index,
                    first: state.first,
                    notarized: state.notarized.to_vec(),
                    final_vote: state.final_vote,
                },
            );
        }
        proof {
            assert(r.deep_view() =~= stored_seats(self@.seats));
        }
        r
    }

    /// An election as it was stored.
    pub fn from_snapshot(snapshot: &RaiElectionSnapshot) -> (r: Self)
        requires
            snapshot.deep_view().sums_fit(),
        ensures
            r@ == Election::restored(snapshot.deep_view()),
    {
        let mut vote_states: SortedMap<RaiCommitteeVoteKey, RaiVoteState> = SortedMap::new();
        let ghost all = snapshot.vote_states.deep_view();
        for i in 0..snapshot.vote_states.len()
            invariant
                all == snapshot.vote_states.deep_view(),
                vote_states@ == seats_from(all.take(i as int)),
        {
            proof {
                assert(all.take(i + 1).drop_last() =~= all.take(i as int));
                assert(all[i as int] == snapshot.vote_states@[i as int].deep_view());
            }
            let stored = &snapshot.vote_states[i];
            vote_states.insert(
                RaiCommitteeVoteKey { voter: stored.voter, committee_index: stored.committee_index },
                RaiVoteState {
                    first: stored.first,
                    notarized: SortedSet::from_vec(&stored.notarized),
                    final_vote: stored.final_vote,
                },
            );
        }
        let size: usize = vote_states.len();
        proof {
            assert(all.take(all.len() as int) =~= all);
        }
        RaiElection {
            id: snapshot.id,
            status: snapshot.status,
            vote_states,
            tallies: restore_tallies(&snapshot.tallies),
            notarization_tallies: restore_tallies(&snapshot.notarization_tallies),
            final_tallies: restore_tallies(&snapshot.final_tallies),
            winner: snapshot.winner,
            confirmed_value: snapshot.confirmed_value,
        }
    }
}

/// The elections that are under way.
pub struct RaiActiveElections {
    stopped: bool,
    elections: SortedMap<RaiElectionId, RaiElection>,
}

/// The model of the elections that are under way.
#[verifier::ext_equal]
pub struct ActiveElections {
    pub stopped: bool,
    pub elections: Map<RaiElectionId, Election>,
}

impl View for RaiActiveElections {
    type V = ActiveElections;

    closed spec fn view(&self) -> ActiveElections {
        ActiveElections { stopped: self.stopped, elections: self.elections@ }
    }
}

/// The elections that stored ones yield; the last of one identity counts.
pub open spec fn elections_from(stored: Seq<StoredElection>) -> Map<RaiElectionId, Election>
    decreases stored.len(),
{
    if stored.len() == 0 {
        Map::empty()
    } else {
        elections_from(stored.drop_last()).insert(stored.last().id, Election::restored(stored.last()))
    }
}

impl ActiveElections {
    pub open spec fn stored(self) -> Seq<StoredElection> {
        ascending(self.elections.dom()).map_values(|id: RaiElectionId| self.elections[id].stored())
    }

    /// The active slot elections of an epoch.
    pub open spec fn unfinished(self, epoch: RaiEpoch) -> Set<RaiSlot> {
        Set::new(
            |slot: RaiSlot|
                {
                    let id = RaiElectionId::Slot { slot, epoch };
                    self.elections.contains_key(id) && self.elections[id].status == RaiElectionStatus::Active
                },
        )
    }

    /// Whether an election stays when the epoch's cut is applied.
    pub open spec fn survives(id: RaiElectionId, epoch: RaiEpoch, cut: Set<RaiSlot>) -> bool {
        match id {
            RaiElectionId::Slot { slot, epoch: slot_epoch } => slot_epoch != epoch || cut.contains(slot),
            _ => true,
        }
    }

    /// Every election stands under its own identity.
    pub open spec fn well_formed(self) -> bool {
        forall|id: RaiElectionId| #[trigger] self.elections.contains_key(id) ==> self.elections[id].id == id
    }

    /// The elections after the epoch's slots outside the cut are dropped.
    pub open spec fn cut_applied(self, epoch: RaiEpoch, cut: Set<RaiSlot>) -> ActiveElections {
        ActiveElections {
            elections: self.elections.restrict(
                self.elections.dom().filter(|id: RaiElectionId| Self::survives(id, epoch, cut)),
            ),
            ..self
        }
    }

    pub open spec fn vote_error(self, vote: RaiVote, committees: Seq<Membership>) -> Option<VoteError> {
        if self.elections.contains_key(vote.election_id) {
            self.elections[vote.election_id].vote_error(vote, committees)
        } else {
            Some(VoteError::Indeterminate)
        }
    }

    pub open spec fn with_vote(self, vote: RaiVote, committees: Seq<Membership>) -> ActiveElections {
        ActiveElections {
            elections: self.elections.insert(
                vote.election_id,
                self.elections[vote.election_id].with_vote(vote, committees),
            ),
            ..self
        }
    }
}

impl RaiActiveElections {
    #[verifier::type_invariant]
    spec fn is_well_formed(&self) -> bool {
        self.view().well_formed()
    }

    pub fn new() -> (r: Self)
        ensures
            r@ == (ActiveElections { stopped: false, elections: Map::empty() }),
    {
        let elections: SortedMap<RaiElectionId, RaiElection> = SortedMap::new();
        RaiActiveElections { stopped: false, elections }
    }

    pub fn from_snapshot(snapshot: &RaiActiveElectionsSnapshot) -> (r: Self)
        requires
            forall|i: int|
                0 <= i < snapshot.deep_view().len() ==> (#[trigger] snapshot.deep_view()[i]).sums_fit(),
        ensures
            r@ == (ActiveElections { stopped: false, elections: elections_from(snapshot.deep_view()) }),
    {
        let mut elections: SortedMap<RaiElectionId, RaiElection> = SortedMap::new();
        let ghost all = snapshot.deep_view();
        for i in 0..snapshot.elections.len()
            invariant
                all == snapshot.elections.deep_view(),
                forall|j: int| 0 <= j < all.len() ==> (#[trigger] all[j]).sums_fit(),
                elections@ == elections_from(all.take(i as int)),
                forall|id: RaiElectionId| #[trigger] elections@.contains_key(id) ==> elections@[id].id == id,
        {
            proof {
                assert(all.take(i + 1).drop_last() =~= all.take(i as int));
                assert(all[i as int] == snapshot.elections@[i as int].deep_view());
            }
            let election = &snapshot.elections[i];
            elections.insert(election.id, RaiElection::from_snapshot(election));
        }
        proof {
            assert(all.take(all.len() as int) =~= all);
        }
        RaiActiveElections { stopped: false, elections }
    }

    /// All elections, in the order of their identities.
    pub fn snapshot(&self) -> (r: RaiActiveElectionsSnapshot)
        ensures
            r.deep_view() == self@.stored(),
    {
        let mut elections: Vec<RaiElectionSnapshot> = Vec::new();
        let n: usize = self.elections.len();
        let ghost ids = ascending(self.elections@.dom());
        for i in 0..n
            invariant
                n == self.elections@.len(),
                n == ids.len(),
                ids == ascending(self.elections@.dom()),
                elections@.len() == i,
                forall|j: int|
                    0 <= j < i ==> (#[trigger] elections@[j]).deep_view() == self.elections@[ids[j]].stored(),
        {
            elections.push(self.elections.value_at(i).snapshot());
        }
        proof {
            assert(elections.deep_view() =~= self@.stored());
        }
        RaiActiveElectionsSnapshot { elections }
    }

    /// The identities of all elections, in order.
    pub fn ids(&self) -> (r: Vec<RaiElectionId>)
        ensures
            r@ == ascending(self@.elections.dom()),
            self@.elections.dom().finite(),
            self@.well_formed(),
    {
        proof {
            use_type_invariant(self);
        }
        self.elections.keys_vec()
    }

    pub fn insert(&mut self, election_id: RaiElectionId) -> (r: Result<(), RaiElectionInsertError>)
        ensures
            match r {
                Ok(_) => {
                    &&& !old(self)@.stopped
                    &&& !old(self)@.elections.contains_key(election_id)
                    &&& final(self)@ == (ActiveElections {
                        elections: old(self)@.elections.insert(election_id, Election::new(election_id)),
                        ..old(self)@
                    })
                },
                Err(error) => {
                    &&& final(self)@ == old(self)@
                    &&& error == if old(self)@.stopped {
                        RaiElectionInsertError::Stopped
                    } else {
                        RaiElectionInsertError::Duplicate
                    }
                    &&& old(self)@.stopped || old(self)@.elections.contains_key(election_id)
                },
            },
    {
        proof {
            use_type_invariant(&*self);
        }
        if self.stopped {
            return Err(RaiElectionInsertError::Stopped);
        }
        if self.elections.contains_key(&election_id) {
            return Err(RaiElectionInsertError::Duplicate);
        }
        let mut elections: SortedMap<RaiElectionId, RaiElection> = SortedMap::new();
        core::mem::swap(&mut elections, &mut self.elections);
        elections.insert(election_id, RaiElection::new(election_id));
        self.elections = elections;
        Ok(())
    }

    pub fn len(&self) -> (r: usize)
        ensures
            r == self@.elections.len(),
    {
        self.elections.len()
    }

    pub fn is_empty(&self) -> (r: bool)
        ensures
            r == (self@.elections.len() == 0),
    {
        self.elections.len() == 0
    }

    pub fn contains(&self, election_id: &RaiElectionId) -> (r: bool)
        ensures
            r == self@.elections.contains_key(*election_id),
    {
        self.elections.contains_key(election_id)
    }

    pub fn is_active(&self, election_id: &RaiElectionId) -> (r: bool)
        ensures
            r == (self@.elections.contains_key(*election_id) && self@.elections[*election_id].status
                == RaiElectionStatus::Active),
    {
        match self.elections.get(election_id) {
            Some(election) => election.status() == RaiElectionStatus::Active,
            None => false,
        }
    }

    pub fn election(&self, election_id: &RaiElectionId) -> (r: Option<&RaiElection>)
        ensures
            match r {
                Some(election) => self@.elections.contains_key(*election_id) && election@
                    == self@.elections[*election_id],
                None => !self@.elections.contains_key(*election_id),
            },
    {
        self.elections.get(election_id)
    }

    /// The slots of an epoch whose election is active, in order.
    pub fn unfinished_slots(&self, epoch: RaiEpoch) -> (r: Vec<RaiSlot>)
        ensures
            r@ == ascending(self@.unfinished(epoch)),
    {
        proof {
            use_type_invariant(self);
        }
        let mut slots: SortedSet<RaiSlot> = SortedSet::new();
        let n: usize = self.elections.len();
        let ghost ids = ascending(self.elections@.dom());
        proof {
            lemma_ascending(self.elections@.dom());
        }
        for i in 0..n
            invariant
                n == self.elections@.len(),
                n == ids.len(),
                ids == ascending(self.elections@.dom()),
                forall|j: int| 0 <= j < n ==> self.elections@.contains_key(#[trigger] ids[j]),
                forall|slot: RaiSlot| #[trigger]
                    slots@.contains(slot) == (self@.unfinished(epoch).contains(slot) && ids.take(i as int).to_set().contains(
                        (RaiElectionId::Slot { slot, epoch }),
                    )),
        {
            proof {
                lemma_take_set(ids, i as int);
                assert(self.elections@.contains_key(ids[i as int]));
            }
            if let RaiElectionId::Slot { slot, epoch: slot_epoch } = self.elections.key_at(i) {
                if slot_epoch == epoch && self.elections.value_at(i).status() == RaiElectionStatus::Active {
                    slots.insert(slot);
                }
            }
        }
        proof {
            assert(ids.take(n as int) =~= ids);
            assert forall|slot: RaiSlot| slots@.contains(slot) == self@.unfinished(epoch).contains(slot) by {
                if self@.unfinished(epoch).contains(slot) {
                    assert(ids.to_set().contains((RaiElectionId::Slot { slot, epoch })));
                }
            }
            assert(slots@ =~= self@.unfinished(epoch));
        }
        slots.to_vec()
    }

    /// Drops the epoch's slot elections outside the cut; reports whether there
    /// were any.
    pub fn discard_slots_outside_cut(&mut self, epoch: RaiEpoch, cut: &SortedSet<RaiSlot>) -> (r: bool)
        ensures
            final(self)@ == old(self)@.cut_applied(epoch, cut@),
            r == (final(self)@ != old(self)@),
    {
        proof {
            use_type_invariant(&*self);
        }
        let ghost m = self@;
        let ids = self.elections.keys_vec();
        let mut taken: RaiActiveElections = RaiActiveElections::new();
        core::mem::swap(&mut taken, self);
        let RaiActiveElections { stopped, mut elections } = taken;
        let mut changed = false;
        proof {
            lemma_ascending(m.elections.dom());
        }
        for i in 0..ids.len()
            invariant
                ids@ == ascending(m.elections.dom()),
                ids@.no_duplicates(),
                forall|j: int| 0 <= j < ids@.len() ==> m.elections.contains_key(#[trigger] ids@[j]),
                elections@ == m.elections.restrict(
                    m.elections.dom().filter(
                        |id: RaiElectionId|
                            ActiveElections::survives(id, epoch, cut@) || !ids@.take(i as int).to_set().contains(id),
                    ),
                ),
                changed == exists|j: int| 0 <= j < i && !#[trigger] ActiveElections::survives(ids@[j], epoch, cut@),
        {
            let survives = match &ids[i] {
                RaiElectionId::Slot { slot, epoch: slot_epoch } => *slot_epoch != epoch || cut.contains(slot),
                _ => true,
            };
            proof {
                lemma_take_distinct(ids@, i as int);
                assert(survives == ActiveElections::survives(ids@[i as int], epoch, cut@));
            }
            if !survives {
                elections.remove(&ids[i]);
                changed = true;
            }
            proof {
                assert(elections@ =~= m.elections.restrict(
                    m.elections.dom().filter(
                        |id: RaiElectionId|
                            ActiveElections::survives(id, epoch, cut@) || !ids@.take(i + 1).to_set().contains(id),
                    ),
                ));
            }
        }
        proof {
            assert(ids@.take(ids@.len() as int) =~= ids@);
            assert(elections@ =~= m.cut_applied(epoch, cut@).elections);
            if changed {
                let j = choose|j: int|
                    0 <= j < ids@.len() && !#[trigger] ActiveElections::survives(ids@[j], epoch, cut@);
                assert(m.elections.contains_key(ids@[j]));
                assert(!elections@.contains_key(ids@[j]));
            } else {
                assert forall|id: RaiElectionId| m.elections.contains_key(id) implies elections@.contains_key(id) by {
                    assert(ids@.contains(id));
                    let j = choose|j: int| 0 <= j < ids@.len() && ids@[j] == id;
                    assert(ActiveElections::survives(ids@[j], epoch, cut@));
                }
                assert(elections@ =~= m.elections);
            }
        }
        *self = RaiActiveElections { stopped, elections };
        changed
    }

    pub fn apply_vote(&mut self, vote: &RaiVote, committees: &RaiCommitteeSet) -> (r: Result<(), VoteError>)
        ensures
            match r {
                Ok(_) => {
                    &&& old(self)@.vote_error(*vote, committees@) is None
                    &&& final(self)@ == old(self)@.with_vote(*vote, committees@)
                },
                Err(error) => {
                    &&& old(self)@.vote_error(*vote, committees@) == Some(error)
                    &&& final(self)@ == old(self)@
                },
            },
    {
        proof {
            use_type_invariant(&*self);
        }
        let mut election = match self.elections.get(&vote.election_id) {
            Some(election) => election.duplicate(),
            None => return Err(VoteError::Indeterminate),
        };
        if let Err(error) = election.apply_vote(vote, committees) {
            return Err(error);
        }
        let mut elections: SortedMap<RaiElectionId, RaiElection> = SortedMap::new();
        core::mem::swap(&mut elections, &mut self.elections);
        elections.insert(vote.election_id, election);
        self.elections = elections;
        Ok(())
    }

    /// Whether new elections are refused.
    pub fn is_stopped(&self) -> (r: bool)
        ensures
            r == self@.stopped,
    {
        self.stopped
    }

    /// Refuses new elections from now on.
    pub fn stop(&mut self)
        ensures
            final(self)@ == (ActiveElections { stopped: true, ..old(self)@ }),
    {
        proof {
            use_type_invariant(&*self);
        }
        self.stopped = true;
    }
}

impl Default for RaiActiveElections {
    fn default() -> (r: Self)
        ensures
            r@ == (ActiveElections { stopped: false, elections: Map::empty() }),
    {
        RaiActiveElections::new()
    }
}

/// A confirmed value never changes: whatever votes follow, it stays.
pub proof fn confirmation_is_final(e: Election, vote: RaiVote, committees: Seq<Membership>)
    requires
        e.confirmed_value is Some,
    ensures
        e.with_vote(vote, committees).confirmed_value == e.confirmed_value,
        e.with_vote(vote, committees).winner == e.confirmed_value,
        e.status == RaiElectionStatus::Confirmed ==> e.with_vote(vote, committees).status
            == RaiElectionStatus::Confirmed,
{
}

/// A seat with a final vote accepts nothing more.
pub proof fn final_vote_closes_the_seat(c: CastVotes, value: RaiElectionValue)
    requires
        c.final_vote is Some,
    ensures
        c.refusal(RaiVoteKind::First, value) is Some,
        c.refusal(RaiVoteKind::Notarization, value) is Some,
        c.refusal(RaiVoteKind::Final, value) == Some(VoteError::Replay),
{
}

/// The same vote is never counted twice by a seat.
pub proof fn repeated_vote_is_refused(c: CastVotes, kind: RaiVoteKind, value: RaiElectionValue)
    requires
        c.refusal(kind, value) is None,
    ensures
        c.cast(kind, value).refusal(kind, value) == Some(VoteError::Replay),
{
}

/// A seat takes a first vote exactly if it has cast none, no final vote, and has
/// notarized nothing else; a notarization exactly if it is new and no final vote is
/// cast; a final vote exactly if none is cast and it has voted for nothing else.
/// What it refuses is a replay where it has cast that vote already, or any final
/// one, and invalid otherwise.
pub proof fn seat_takes_consistent_votes(c: CastVotes, value: RaiElectionValue)
    ensures
        ({
            let only = forall|other: RaiElectionValue| #[trigger] c.notarized.contains(other) ==> other == value;
            &&& c.refusal(RaiVoteKind::First, value) is None <==> c.first is None && c.final_vote is None && only
            &&& c.refusal(RaiVoteKind::First, value) == Some(VoteError::Replay) <==> c.first == Some(value)
            &&& c.refusal(RaiVoteKind::Notarization, value) is None <==> !c.notarized.contains(value) && c.final_vote is None
            &&& c.refusal(RaiVoteKind::Notarization, value) == Some(VoteError::Replay) <==> c.notarized.contains(value)
            &&& c.refusal(RaiVoteKind::Final, value) is None <==> c.final_vote is None && (c.first is None || c.first
                == Some(value)) && only
            &&& c.refusal(RaiVoteKind::Final, value) == Some(VoteError::Replay) <==> c.final_vote is Some
        }),
        forall|kind: RaiVoteKind|
            c.refusal(kind, value) is None || #[trigger] c.refusal(kind, value) == Some(VoteError::Replay) || c.refusal(
                kind,
                value,
            ) == Some(VoteError::Invalid),
{
}

/// A cast vote is added to what the seat holds and replaces nothing.
pub proof fn cast_vote_is_added(c: CastVotes, kind: RaiVoteKind, value: RaiElectionValue)
    requires
        c.refusal(kind, value) is None,
    ensures
        ({
            let after = c.cast(kind, value);
            &&& kind == RaiVoteKind::First ==> after.first == Some(value)
            &&& kind == RaiVoteKind::Final ==> after.final_vote == Some(value)
            &&& kind == RaiVoteKind::Notarization ==> after.notarized.contains(value)
            &&& c.first is Some ==> after.first == c.first
            &&& c.first is None && kind != RaiVoteKind::First ==> after.first is None
            &&& c.final_vote is Some ==> after.final_vote == c.final_vote
            &&& c.final_vote is None && kind != RaiVoteKind::Final ==> after.final_vote is None
            &&& forall|v: RaiElectionValue| #[trigger]
                after.notarized.contains(v) <==> c.notarized.contains(v) || (kind == RaiVoteKind::Notarization && v == value)
        }),
{
}

/// The seats of one committee for which `p` holds.
pub open spec fn seats_where(seats: Seats, committee: int, p: spec_fn(CastVotes) -> bool) -> Set<RaiCommitteeVoteKey> {
    Set::new(|key: RaiCommitteeVoteKey| seats.contains_key(key) && key.committee_index == committee && p(seats[key]))
}

/// After a vote each committee's tallies of a value count its seats: the first
/// tally those that voted first for it, the notarization tally those that
/// notarized it or voted first for it unless it is a timeout, and the final tally
/// those with a final vote for it.
pub proof fn tallies_count_seats(
    e: Election,
    vote: RaiVote,
    committees: Seq<Membership>,
    value: RaiElectionValue,
    committee: int,
)
    requires
        0 <= committee < committees.len(),
        e.with_vote(vote, committees).seats.dom().finite(),
        e.with_vote(vote, committees).seats.len() <= usize::MAX,
    ensures
        ({
            let after = e.with_vote(vote, committees);
            &&& count_or_zero(after.tallies, value, committee) == seats_where(
                after.seats,
                committee,
                |cast: CastVotes| cast.first == Some(value),
            ).len()
            &&& count_or_zero(after.notarization_tallies, value, committee) == seats_where(
                after.seats,
                committee,
                |cast: CastVotes|
                    cast.notarized.contains(value) || (cast.first == Some(value) && value != RaiElectionValue::Timeout),
            ).len()
            &&& count_or_zero(after.final_tallies, value, committee) == seats_where(
                after.seats,
                committee,
                |cast: CastVotes| cast.final_vote == Some(value),
            ).len()
        }),
{
    let after = e.with_vote(vote, committees);
    let n = committees.len() as int;
    let a = seats_where(after.seats, committee, |cast: CastVotes| cast.first == Some(value));
    let b = seats_where(
        after.seats,
        committee,
        |cast: CastVotes|
            cast.notarized.contains(value) || (cast.first == Some(value) && value != RaiElectionValue::Timeout),
    );
    let c = seats_where(after.seats, committee, |cast: CastVotes| cast.final_vote == Some(value));
    assert(backers(after.seats, TallyKind::First, value, committee) =~= a);
    assert(backers(after.seats, TallyKind::Notarization, value, committee) =~= b);
    assert(backers(after.seats, TallyKind::Final, value, committee) =~= c);
    lemma_counted(after.seats, TallyKind::First, value, committee, n);
    lemma_counted(after.seats, TallyKind::Notarization, value, committee, n);
    lemma_counted(after.seats, TallyKind::Final, value, committee, n);
}

/// What a tally says of a value in a committee; nothing said is zero.
pub open spec fn count_or_zero(tallies: Tallies, value: RaiElectionValue, committee: int) -> nat {
    if tallies.contains_key(value) && 0 <= committee < tallies[value].len() {
        tallies[value][committee] as nat
    } else {
        0
    }
}

proof fn lemma_counted(seats: Seats, kind: TallyKind, value: RaiElectionValue, committee: int, n: int)
    requires
        0 <= committee < n,
        seats.dom().finite(),
        seats.len() <= usize::MAX,
    ensures
        count_or_zero(counted(seats, kind, n), value, committee) == backers(seats, kind, value, committee).len(),
{
    let found = backers(seats, kind, value, committee);
    assert(found.subset_of(seats.dom()));
    vstd::set_lib::lemma_len_subset(found, seats.dom());
    if !voiced(seats, kind, n).contains(value) {
        assert forall|key: RaiCommitteeVoteKey| !found.contains(key) by {
            if found.contains(key) {
                assert(seats.contains_key(key) && key.committee_index < n && seats[key].backs(kind).contains(value));
            }
        }
        assert(found =~= Set::empty());
    }
}

/// A vote is cast in exactly those seats of its voter that its scope names: in
/// every committee the voter is a member of, or in the one committee it names.
pub proof fn vote_reaches_the_seats_in_scope(
    e: Election,
    vote: RaiVote,
    committees: Seq<Membership>,
    key: RaiCommitteeVoteKey,
)
    ensures
        ({
            let after = e.with_vote(vote, committees).seats;
            let meant = {
                &&& key.voter == vote.voter
                &&& key.committee_index < committees.len()
                &&& exists|i: int|
                    0 <= i < committees[key.committee_index as int].members.len() && (
                    #[trigger] committees[key.committee_index as int].members[i]).account == vote.voter
                &&& vote.scope matches RaiVoteScope::Committee(index) ==> key.committee_index == index
            };
            let held = if e.seats.contains_key(key) {
                e.seats[key]
            } else {
                CastVotes { first: None, notarized: Set::empty(), final_vote: None }
            };
            &&& after.contains_key(key) <==> meant || e.seats.contains_key(key)
            &&& meant ==> after[key] == held.cast(vote.kind, vote.value)
            &&& !meant && e.seats.contains_key(key) ==> after[key] == e.seats[key]
        }),
{
}

proof fn lemma_first_refusal(e: Election, vote: RaiVote, committees: Seq<Membership>, n: int)
    requires
        0 <= n <= committees.len() <= usize::MAX,
    ensures
        match e.first_refusal(vote, committees, n) {
            None => forall|i: int|
                0 <= i < n && #[trigger] is_index_of(committees, vote.voter, vote.scope, i) && e.seats.contains_key(
                    e.seat(vote.voter, i),
                ) ==> e.seats[e.seat(vote.voter, i)].refusal(vote.kind, vote.value) is None,
            Some(error) => exists|i: int|
                0 <= i < n && #[trigger] is_index_of(committees, vote.voter, vote.scope, i) && e.seats.contains_key(
                    e.seat(vote.voter, i),
                ) && e.seats[e.seat(vote.voter, i)].refusal(vote.kind, vote.value) == Some(error),
        },
    decreases n,
{
    if n > 0 {
        lemma_first_refusal(e, vote, committees, n - 1);
        if e.first_refusal(vote, committees, n - 1) is Some {
            let error = e.first_refusal(vote, committees, n - 1)->0;
            let i = choose|i: int|
                0 <= i < n - 1 && #[trigger] is_index_of(committees, vote.voter, vote.scope, i) && e.seats.contains_key(
                    e.seat(vote.voter, i),
                ) && e.seats[e.seat(vote.voter, i)].refusal(vote.kind, vote.value) == Some(error);
            assert(is_index_of(committees, vote.voter, vote.scope, i));
        } else {
            assert(is_index_of(committees, vote.voter, vote.scope, n - 1) == is_index_of(
                committees,
                vote.voter,
                vote.scope,
                n - 1,
            ));
        }
    }
}

/// A vote is taken exactly if its value belongs in the election, its voter sits in
/// a committee that it is for, and every such seat that has voted takes it. A voter
/// without such a seat leaves it open.
pub proof fn vote_is_taken_by_all_its_seats(e: Election, vote: RaiVote, committees: Seq<Membership>)
    requires
        committees.len() <= usize::MAX,
    ensures
        ({
            let error = e.vote_error(vote, committees);
            let seated = exists|i: int| #[trigger] is_index_of(committees, vote.voter, vote.scope, i);
            &&& error is None <==> {
                &&& e.accepts(vote.kind, vote.value)
                &&& seated
                &&& forall|i: int| #[trigger]
                    is_index_of(committees, vote.voter, vote.scope, i) && e.seats.contains_key(
                        RaiCommitteeVoteKey { voter: vote.voter, committee_index: i as usize },
                    ) ==> e.seats[RaiCommitteeVoteKey { voter: vote.voter, committee_index: i as usize }].refusal(
                        vote.kind,
                        vote.value,
                    ) is None
            }
            &&& !e.accepts(vote.kind, vote.value) ==> error == Some(VoteError::Invalid)
            &&& e.accepts(vote.kind, vote.value) && !seated ==> error == Some(VoteError::Indeterminate)
        }),
{
    lemma_first_refusal(e, vote, committees, committees.len() as int);
    if e.accepts(vote.kind, vote.value) && exists|i: int| #[trigger]
        is_index_of(committees, vote.voter, vote.scope, i) {
        if e.vote_error(vote, committees) is Some {
            let error = e.vote_error(vote, committees)->0;
            let i = choose|i: int|
                0 <= i < committees.len() && #[trigger] is_index_of(committees, vote.voter, vote.scope, i)
                    && e.seats.contains_key(e.seat(vote.voter, i)) && e.seats[e.seat(vote.voter, i)].refusal(
                    vote.kind,
                    vote.value,
                ) == Some(error);
            assert(is_index_of(committees, vote.voter, vote.scope, i));
        }
    }
}

/// Blocks are voted on in slots, cuts and records in the elections about them, and
/// a timeout everywhere; a final vote is for a block.
pub proof fn values_belong_to_their_election(e: Election, kind: RaiVoteKind, value: RaiElectionValue)
    ensures
        e.accepts(kind, value) <==> {
            &&& e.id is Slot ==> value is Block || value is Timeout
            &&& e.id is CloseCut ==> value is CloseCutHash || value is Timeout
            &&& e.id is CloseRecord ==> value is CloseRecordHash || value is Timeout
            &&& kind == RaiVoteKind::Final ==> value is Block
        },
{
}

/// Enough seats of the committee stand behind a value that is no timeout.
pub open spec fn reached(tallies: Tallies, value: RaiElectionValue, committee: int, threshold: int) -> bool {
    &&& value != RaiElectionValue::Timeout
    &&& tallies.contains_key(value)
    &&& 0 <= committee < tallies[value].len()
    &&& tallies[value][committee] >= threshold
}

/// Some value other than this one has enough seats behind it.
pub open spec fn another_reached(tallies: Tallies, value: RaiElectionValue, committee: int, threshold: int) -> bool {
    exists|other: RaiElectionValue| other != value && #[trigger] reached(tallies, other, committee, threshold)
}

/// Some value has enough seats behind it.
pub open spec fn any_reached(tallies: Tallies, committee: int, threshold: int) -> bool {
    exists|value: RaiElectionValue| #[trigger] reached(tallies, value, committee, threshold)
}

/// Two values have enough seats behind them.
pub open spec fn two_reached(tallies: Tallies, committee: int, threshold: int) -> bool {
    exists|value: RaiElectionValue| #[trigger]
        reached(tallies, value, committee, threshold) && another_reached(tallies, value, committee, threshold)
}

proof fn lemma_certified(tallies: Tallies, committee: int, m: Membership, threshold: int)
    requires
        tallies.dom().finite(),
        m.members.len() > 0,
        threshold > 0,
    ensures
        ({
            let s = certified(tallies, committee, m, threshold);
            &&& s.finite()
            &&& forall|value: RaiElectionValue| #[trigger] s.contains(value) <==> reached(tallies, value, committee, threshold)
            &&& s.len() > 0 <==> any_reached(tallies, committee, threshold)
            &&& s.len() > 1 <==> two_reached(tallies, committee, threshold)
            &&& s.len() == 1 ==> s.contains(s.choose()) && forall|value: RaiElectionValue| #[trigger]
                s.contains(value) ==> value == s.choose()
        }),
{
    let s = certified(tallies, committee, m, threshold);
    assert forall|value: RaiElectionValue| #[trigger] s.contains(value) <==> reached(tallies, value, committee, threshold) by {
    }
    if s.len() > 0 {
        let a = s.choose();
        assert(s.contains(a));
        assert(reached(tallies, a, committee, threshold));
        let rest = s.remove(a);
        if s.len() > 1 {
            let b = rest.choose();
            assert(rest.len() > 0);
            assert(rest.contains(b));
            assert(s.contains(b));
            assert(reached(tallies, b, committee, threshold));
            assert(another_reached(tallies, a, committee, threshold));
        } else {
            assert forall|value: RaiElectionValue| #[trigger] s.contains(value) implies value == a by {
                if value != a {
                    assert(rest.contains(value));
                    assert(rest.len() == 0);
                }
            }
        }
    }
    if any_reached(tallies, committee, threshold) {
        let a = choose|value: RaiElectionValue| #[trigger] reached(tallies, value, committee, threshold);
        assert(s.contains(a));
        if s.len() == 0 {
            assert(s =~= Set::empty());
        }
    }
    if two_reached(tallies, committee, threshold) {
        let a = choose|value: RaiElectionValue| #[trigger]
            reached(tallies, value, committee, threshold) && another_reached(tallies, value, committee, threshold);
        let b = choose|other: RaiElectionValue| other != a && #[trigger] reached(tallies, other, committee, threshold);
        assert(s.contains(a) && s.contains(b));
        assert(s.remove(a).contains(b));
        assert(s.remove(a).len() > 0) by {
            if s.remove(a).len() == 0 {
                assert(s.remove(a) =~= Set::empty());
            }
        }
    }
}

/// A committee has an outcome exactly if some value has a certificate. A value is
/// final if it alone has a final certificate and nothing else is notarized; fast
/// if no value is final, it alone has a fast certificate and nothing else is
/// notarized; notarized if nothing is final or fast and it alone is notarized.
/// Certificates that exclude each other are a safety fault, and several fast or
/// notarized values without one are a timeout.
pub proof fn certificates_decide_the_outcome(e: Election, committee: int, m: Membership, value: RaiElectionValue)
    requires
        e.tallies.dom().finite(),
        e.notarization_tallies.dom().finite(),
        e.final_tallies.dom().finite(),
        m.members.len() > 0,
        m.thresholds.notarization > 0,
        m.thresholds.fast > 0,
        m.thresholds.finalization > 0,
    ensures
        ({
            let out = e.local_outcome(committee, m);
            let n = m.thresholds.notarization as int;
            let f = m.thresholds.finalization as int;
            let t = m.thresholds.fast as int;
            let finals = e.final_tallies;
            let fasts = e.tallies;
            let notars = e.notarization_tallies;
            let timeout = count_or_zero(notars, RaiElectionValue::Timeout, committee) >= n;
            &&& out is None <==> !timeout && !any_reached(finals, committee, f) && !any_reached(fasts, committee, t)
                && !any_reached(notars, committee, n)
            &&& out == Some(RaiElectionOutcome::Final(value)) <==> reached(finals, value, committee, f) && !another_reached(
                finals,
                value,
                committee,
                f,
            ) && !timeout && !another_reached(notars, value, committee, n)
            &&& out == Some(RaiElectionOutcome::Fast(value)) <==> !any_reached(finals, committee, f) && !timeout && reached(
                fasts,
                value,
                committee,
                t,
            ) && !another_reached(fasts, value, committee, t) && !another_reached(notars, value, committee, n)
            &&& out == Some(RaiElectionOutcome::Notarized(value)) <==> !any_reached(finals, committee, f) && !timeout
                && !any_reached(fasts, committee, t) && reached(notars, value, committee, n) && !another_reached(
                notars,
                value,
                committee,
                n,
            )
            &&& two_reached(finals, committee, f) ==> out == Some(RaiElectionOutcome::SafetyFault)
            &&& reached(finals, value, committee, f) && (timeout || another_reached(notars, value, committee, n)) ==> out
                == Some(RaiElectionOutcome::SafetyFault)
            &&& !any_reached(finals, committee, f) && timeout ==> out == Some(
                if any_reached(fasts, committee, t) {
                    RaiElectionOutcome::SafetyFault
                } else {
                    RaiElectionOutcome::Timeout
                },
            )
            &&& !any_reached(finals, committee, f) && !timeout && two_reached(fasts, committee, t) ==> out == Some(
                RaiElectionOutcome::Timeout,
            )
            &&& !any_reached(finals, committee, f) && !timeout && reached(fasts, value, committee, t) && !another_reached(
                fasts,
                value,
                committee,
                t,
            ) && another_reached(notars, value, committee, n) ==> out == Some(RaiElectionOutcome::SafetyFault)
            &&& !any_reached(finals, committee, f) && !timeout && !any_reached(fasts, committee, t) && two_reached(
                notars,
                committee,
                n,
            ) ==> out == Some(RaiElectionOutcome::Timeout)
        }),
{
    let n = m.thresholds.notarization as int;
    let f = m.thresholds.finalization as int;
    let t = m.thresholds.fast as int;
    lemma_certified(e.final_tallies, committee, m, f);
    lemma_certified(e.tallies, committee, m, t);
    lemma_certified(e.notarization_tallies, committee, m, n);
    let finals = e.finals(committee, m);
    let fasts = e.fasts(committee, m);
    let notars = e.notarizeds(committee, m);
    let timeout = count_or_zero(e.notarization_tallies, RaiElectionValue::Timeout, committee) >= n;
    assert(timeout == e.timeout_certified(committee, m));
    assert forall|v: RaiElectionValue| #[trigger]
        e.notarized_other(committee, m, v) == another_reached(e.notarization_tallies, v, committee, n) by {
        if e.notarized_other(committee, m, v) {
            let other = choose|other: RaiElectionValue| #[trigger] notars.contains(other) && other != v;
            assert(reached(e.notarization_tallies, other, committee, n));
        }
        if another_reached(e.notarization_tallies, v, committee, n) {
            let other = choose|other: RaiElectionValue|
                other != v && #[trigger] reached(e.notarization_tallies, other, committee, n);
            assert(notars.contains(other));
        }
    }
    assert(e.notarized_other(committee, m, value) == another_reached(e.notarization_tallies, value, committee, n));
    assert(finals.contains(value) == reached(e.final_tallies, value, committee, f));
    assert(fasts.contains(value) == reached(e.tallies, value, committee, t));
    assert(notars.contains(value) == reached(e.notarization_tallies, value, committee, n));
}

proof fn lemma_leader(tallies: Tallies, q: Seq<RaiElectionValue>)
    ensures
        leader(tallies, q) is None <==> q.len() == 0,
        leader(tallies, q) matches Some(best) ==> exists|k: int|
            0 <= k < q.len() && #[trigger] q[k] == best && (forall|i: int|
                0 <= i < q.len() ==> count_sum(tallies[#[trigger] q[i]]) <= count_sum(tallies[best])) && forall|i: int|
                k < i < q.len() ==> count_sum(tallies[#[trigger] q[i]]) < count_sum(tallies[best]),
    decreases q.len(),
{
    if q.len() > 0 {
        let front = q.drop_last();
        lemma_leader(tallies, front);
        if front.len() == 0 {
            assert(q[0] == q.last());
        } else {
            let best = leader(tallies, front)->0;
            let k = choose|k: int|
                0 <= k < front.len() && #[trigger] front[k] == best && (forall|i: int|
                    0 <= i < front.len() ==> count_sum(tallies[#[trigger] front[i]]) <= count_sum(tallies[best])) && forall|
                    i: int,
                |
                    k < i < front.len() ==> count_sum(tallies[#[trigger] front[i]]) < count_sum(tallies[best]);
            assert forall|i: int| 0 <= i < front.len() implies count_sum(tallies[#[trigger] q[i]]) <= count_sum(
                tallies[best],
            ) by {
                assert(front[i] == q[i]);
            }
            assert forall|i: int| k < i < front.len() implies count_sum(tallies[#[trigger] q[i]]) < count_sum(
                tallies[best],
            ) by {
                assert(front[i] == q[i]);
            }
            if count_sum(tallies[q.last()]) >= count_sum(tallies[best]) {
                assert(q[q.len() - 1] == q.last());
            } else {
                assert(q[k] == best);
            }
        }
    }
}

/// Until something is certified, a value leads that no other value has more votes
/// than, counted over all committees; of several the greatest.
pub proof fn leader_has_the_most_votes(tallies: Tallies)
    requires
        tallies.dom().finite(),
    ensures
        match leader(tallies, ascending(tallies.dom())) {
            None => tallies.dom() == Set::<RaiElectionValue>::empty(),
            Some(best) => tallies.contains_key(best) && forall|value: RaiElectionValue| #[trigger]
                tallies.contains_key(value) ==> {
                    ||| count_sum(tallies[value]) < count_sum(tallies[best])
                    ||| count_sum(tallies[value]) == count_sum(tallies[best]) && value.rank() <= best.rank()
                },
        },
{
    let q = ascending(tallies.dom());
    lemma_ascending(tallies.dom());
    lemma_leader(tallies, q);
    match leader(tallies, q) {
        None => {
            assert forall|v: RaiElectionValue| !tallies.dom().contains(v) by {
                if tallies.dom().contains(v) {
                    assert(q.contains(v));
                }
            }
            assert(tallies.dom() =~= Set::empty());
        },
        Some(best) => {
            let k = choose|k: int|
                0 <= k < q.len() && #[trigger] q[k] == best && (forall|i: int|
                    0 <= i < q.len() ==> count_sum(tallies[#[trigger] q[i]]) <= count_sum(tallies[best])) && forall|i: int|
                    k < i < q.len() ==> count_sum(tallies[#[trigger] q[i]]) < count_sum(tallies[best]);
            assert forall|value: RaiElectionValue| #[trigger] tallies.contains_key(value) implies count_sum(tallies[value])
                < count_sum(tallies[best]) || (count_sum(tallies[value]) == count_sum(tallies[best]) && value.rank()
                <= best.rank()) by {
                assert(q.contains(value));
                let i = choose|i: int| 0 <= i < q.len() && q[i] == value;
                assert(i < k ==> q[i].rank() < q[k].rank());
            }
        },
    }
}

/// An election is confirmed when the outcome of its committees ends it, and not
/// before: in a slot any outcome but a safety fault, elsewhere none that is final
/// either. It confirms the value of that outcome, elsewhere only a fast one or a
/// timeout. What was confirmed once stays.
pub proof fn outcome_confirms_the_election(e: Election, committees: Seq<Membership>, outcome: RaiElectionOutcome)
    requires
        e.merged_outcome(committees) == Some(outcome),
        e.confirmed_value is None,
    ensures
        ({
            let after = e.concluded(committees);
            let slot = e.id is Slot;
            &&& outcome is SafetyFault ==> after.status == e.status && after.confirmed_value is None
            &&& outcome is Timeout ==> after.status == RaiElectionStatus::Confirmed && after.confirmed_value == Some(
                RaiElectionValue::Timeout,
            )
            &&& outcome matches RaiElectionOutcome::Fast(value) ==> after.status == RaiElectionStatus::Confirmed
                && after.confirmed_value == Some(value)
            &&& outcome matches RaiElectionOutcome::Notarized(value) ==> after.status == RaiElectionStatus::Confirmed
                && after.confirmed_value == if slot {
                Some(value)
            } else {
                None
            } && after.winner == Some(value)
            &&& outcome matches RaiElectionOutcome::Final(value) ==> after.winner == Some(value) && if slot {
                after.status == RaiElectionStatus::Confirmed && after.confirmed_value == Some(value)
            } else {
                after.status == e.status && after.confirmed_value is None
            }
            &&& after.confirmed_value is Some ==> after.winner == after.confirmed_value
        }),
{
}

/// Without an outcome in every committee nothing is confirmed, and the winner so
/// far is the leader of the first votes, or of the notarizations where there are no
/// first votes.
pub proof fn open_election_stays_open(e: Election, committees: Seq<Membership>)
    requires
        e.merged_outcome(committees) is None,
        e.confirmed_value is None,
        e.tallies.dom().finite(),
    ensures
        ({
            let after = e.concluded(committees);
            &&& after.status == e.status
            &&& after.confirmed_value is None
            &&& after.winner == if e.tallies.dom() == Set::<RaiElectionValue>::empty() {
                leader(e.notarization_tallies, ascending(e.notarization_tallies.dom()))
            } else {
                leader(e.tallies, ascending(e.tallies.dom()))
            }
        }),
{
    lemma_ascending(e.tallies.dom());
    leader_has_the_most_votes(e.tallies);
}

/// The outcome of one committee is its own; that of two is there exactly if both
/// have one, and is the two merged.
pub proof fn outcome_needs_every_committee(e: Election, a: Membership, b: Membership)
    ensures
        e.merged_outcome(Seq::empty()) is None,
        e.merged_outcome(seq![a]) == e.local_outcome(0, a),
        e.merged_outcome(seq![a, b]) == match (e.local_outcome(0, a), e.local_outcome(1, b)) {
            (Some(x), Some(y)) => Some(merged_with(x, y)),
            _ => None,
        },
{
    reveal_with_fuel(Election::merged_outcome, 3);
    assert(seq![a, b].drop_last() =~= seq![a]);
    assert(seq![a, b].last() == b);
}

/// A committee is ready for a timeout exactly if, whichever value leads, at least
/// one more member than may be faulty or offline voted first for something else; a
/// first vote for a timeout speaks against every value.
pub proof fn timeout_needs_members_against_every_value(e: Election, committee: int, m: Membership)
    requires
        e.seats.dom().finite(),
        m.members.len() > 0,
    ensures
        e.timeout_ready(committee, m) <==> forall|value: RaiElectionValue|
            value != RaiElectionValue::Timeout ==> (#[trigger] members_against(e.seats, committee, value)).len()
                >= m.thresholds.max_faulty + m.thresholds.max_offline + 1,
{
    assert forall|value: RaiElectionValue|
        #![trigger members_against(e.seats, committee, value)]
        #![trigger backers(e.seats, TallyKind::First, value, committee)]
        e.first_voters(committee).len() - backers(e.seats, TallyKind::First, value, committee).len() == members_against(
            e.seats,
            committee,
            value,
        ).len() by {
        let a = backers(e.seats, TallyKind::First, value, committee);
        let b = members_against(e.seats, committee, value);
        assert(b.subset_of(e.seats.dom()));
        vstd::set_lib::lemma_set_disjoint_lens(a, b);
        assert(a + b =~= e.first_voters(committee));
    }
    if e.timeout_ready(committee, m) {
        assert forall|value: RaiElectionValue| value != RaiElectionValue::Timeout implies (#[trigger] members_against(
            e.seats,
            committee,
            value,
        )).len() >= m.thresholds.max_faulty + m.thresholds.max_offline + 1 by {
            let a = backers(e.seats, TallyKind::First, value, committee);
        }
    }
}

/// The seats of a committee whose first vote is for something else.
pub open spec fn members_against(seats: Seats, committee: int, value: RaiElectionValue) -> Set<RaiCommitteeVoteKey> {
    Set::new(
        |key: RaiCommitteeVoteKey|
            seats.contains_key(key) && key.committee_index == committee && seats[key].first is Some && seats[key].first
                != Some(value),
    )
}

/// A member may vote for a timeout exactly if it has voted first, cast no final
/// vote and not voted for a timeout yet, and its committee is ready for one.
pub proof fn members_time_out_once(e: Election, voter: PublicKey, committee: usize, m: Membership)
    ensures
        ({
            let key = RaiCommitteeVoteKey { voter, committee_index: committee };
            e.can_time_out(voter, committee as int, m) <==> {
                &&& exists|i: int| 0 <= i < m.members.len() && (#[trigger] m.members[i]).account == voter
                &&& e.seats.contains_key(key)
                &&& e.seats[key].first is Some
                &&& e.seats[key].final_vote is None
                &&& !e.seats[key].notarized.contains(RaiElectionValue::Timeout)
                &&& e.timeout_ready(committee as int, m)
            }
        }),
{
}

/// The close of an epoch drops exactly the elections of its slots outside the cut;
/// all others stay as they are.
pub proof fn cut_drops_the_other_slots(a: ActiveElections, epoch: RaiEpoch, cut: Set<RaiSlot>, id: RaiElectionId)
    ensures
        ({
            let after = a.cut_applied(epoch, cut);
            &&& after.elections.contains_key(id) ==> a.elections.contains_key(id) && after.elections[id] == a.elections[id]
            &&& a.elections.contains_key(id) && !after.elections.contains_key(id) <==> a.elections.contains_key(id) && (id matches
                RaiElectionId::Slot { slot, epoch: of } && of == epoch && !cut.contains(slot))
        }),
{
}

/// The unfinished slots of an epoch are those with an election that is still active.
pub proof fn unfinished_slots_are_active(a: ActiveElections, epoch: RaiEpoch, slot: RaiSlot)
    ensures
        a.unfinished(epoch).contains(slot) <==> {
            &&& a.elections.contains_key(RaiElectionId::Slot { slot, epoch })
            &&& a.elections[RaiElectionId::Slot { slot, epoch }].status == RaiElectionStatus::Active
        },
{
}

/// Of several stored elections with one id the last is restored; every id that is stored is there.
pub proof fn last_stored_election_is_restored(stored: Seq<StoredElection>, id: RaiElectionId)
    ensures
        elections_from(stored).contains_key(id) ==> exists|i: int|
            0 <= i < stored.len() && (#[trigger] stored[i]).id == id && elections_from(stored)[id] == Election::restored(stored[i])
                && forall|j: int| i < j < stored.len() ==> (#[trigger] stored[j]).id != id,
        !elections_from(stored).contains_key(id) ==> forall|i: int| 0 <= i < stored.len() ==> (#[trigger] stored[i]).id != id,
    decreases stored.len(),
{
    if stored.len() > 0 {
        let front = stored.drop_last();
        let n = stored.len() - 1;
        last_stored_election_is_restored(front, id);
        if stored[n].id == id {
            assert(elections_from(stored)[id] == Election::restored(stored[n]));
        } else if elections_from(front).contains_key(id) {
            let i = choose|i: int|
                0 <= i < front.len() && (#[trigger] front[i]).id == id && elections_from(front)[id] == Election::restored(
                    front[i],
                ) && forall|j: int| i < j < front.len() ==> (#[trigger] front[j]).id != id;
            assert forall|j: int| i < j < stored.len() implies (#[trigger] stored[j]).id != id by {
                if j < n {
                    assert(front[j] == stored[j]);
                }
            }
            assert(stored[i] == front[i]);
            assert(elections_from(stored)[id] == elections_from(front)[id]);
        } else {
            assert forall|i: int| 0 <= i < stored.len() implies (#[trigger] stored[i]).id != id by {
                if i < n {
                    assert(front[i] == stored[i]);
                }
            }
        }
    }
}

}
