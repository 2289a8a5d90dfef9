//! Taking in votes, and closing epochs as votes allow.
use vstd::prelude::*;

use crate::active_elections::{
    voters_of, ActiveElections, Election, RaiActiveElections, RaiCommitteeVoteKey, RaiElection, RaiElectionOutcome,
    RaiElectionStatus,
};
use crate::admissibility::{
    verdict, RaiAdmissibility, RaiAdmissibilityValidator, RaiDefaultAdmissibilityValidator,
};
use crate::close_state::{
    CloseEpoch, CloseState, EpochRecord, Package, RaiCloseAttempt, RaiCloseRecord, RaiCloseState, RaiEpochPhase,
};
use crate::close_values::{visible_hash, RaiClosedSlotState};
use crate::committee::{
    balances_of, committees_of, derived_committee, Committees, Fixing, Membership, RaiCommittee, RaiCommitteeProvider, RaiCommitteeSet, RaiEpoch,
    RaiRepWeightSnapshot, RepWeightRaiCommitteeProvider,
};
use crate::ordered::{
    ascending, lemma_ascending, lemma_map_of_pairs, pairs_of, sorted_map_is_finite, sorted_set_is_finite, Duplicate,
    SortedSet,
};
use crate::pending_report_processor::seated;
use crate::types::{BlockHash, PublicKey, RaiElectionId, RaiElectionValue, RaiSlot, RaiVote, VoteError};
use crate::vote_safety::{after_vote, is_safe, History, RaiVoteSafety};

verus! {

broadcast use {sorted_set_is_finite, sorted_map_is_finite};

/// What came of a vote.
#[derive(Clone, Copy, Debug, PartialEq, Eq)]
pub struct RaiVoteReport {
    pub result: Result<(), VoteError>,
    /// The election was active, so the voter has been seen voting.
    pub observed: bool,
    /// The block that the vote has confirmed.
    pub confirmed: Option<BlockHash>,
}

/// A hash that a close election has decided for.
#[derive(Clone, Copy, Debug, PartialEq, Eq, Structural)]
pub struct Decision {
    pub attempt: RaiCloseAttempt,
    pub hash: BlockHash,
}

/// All that votes change.
#[verifier::ext_equal]
pub struct Chamber {
    pub active: ActiveElections,
    pub close: CloseState<RaiCloseRecord>,
    pub safety: History,
    pub committees: Committees,
}

/// The identity of a try at deciding about the cut or the record of an epoch.
pub open spec fn close_election(records: bool, epoch: RaiEpoch, attempt: RaiCloseAttempt) -> RaiElectionId {
    if records {
        RaiElectionId::CloseRecord { epoch, attempt }
    } else {
        RaiElectionId::CloseCut { epoch, attempt }
    }
}

/// The hash that an outcome decides for, if it is a fast one of the kind.
pub open spec fn fast_hash(records: bool, outcome: Option<RaiElectionOutcome>) -> Option<BlockHash> {
    match outcome {
        Some(RaiElectionOutcome::Fast(RaiElectionValue::CloseCutHash(hash))) => if records {
            None
        } else {
            Some(hash)
        },
        Some(RaiElectionOutcome::Fast(RaiElectionValue::CloseRecordHash(hash))) => if records {
            Some(hash)
        } else {
            None
        },
        _ => None,
    }
}

/// How a slot is closed by the outcome of its election.
pub open spec fn closed_state(outcome: Option<RaiElectionOutcome>) -> Option<RaiClosedSlotState> {
    match outcome {
        Some(RaiElectionOutcome::Fast(RaiElectionValue::Block(block))) => Some(RaiClosedSlotState::Finalized(block)),
        Some(RaiElectionOutcome::Final(RaiElectionValue::Block(block))) => Some(RaiClosedSlotState::Finalized(block)),
        Some(RaiElectionOutcome::Notarized(RaiElectionValue::Block(block))) => Some(RaiClosedSlotState::Carry(block)),
        Some(RaiElectionOutcome::Timeout) => Some(RaiClosedSlotState::Released),
        _ => None,
    }
}

/// How a slot is closed by the outcome of its election.
pub fn closed_slot_state_from_outcome(outcome: RaiElectionOutcome) -> (r: Option<RaiClosedSlotState>)
    ensures
        r == closed_state(Some(outcome)),
{
    match outcome {
        RaiElectionOutcome::Fast(RaiElectionValue::Block(block)) => Some(RaiClosedSlotState::Finalized(block)),
        RaiElectionOutcome::Final(RaiElectionValue::Block(block)) => Some(RaiClosedSlotState::Finalized(block)),
        RaiElectionOutcome::Notarized(RaiElectionValue::Block(block)) => Some(RaiClosedSlotState::Carry(block)),
        RaiElectionOutcome::Timeout => Some(RaiClosedSlotState::Released),
        _ => None,
    }
}

/// The voters of an election who are members of a committee.
pub open spec fn voters_in(election: Election, m: Membership) -> Set<PublicKey> {
    voters_of(election.seats).filter(|voter: PublicKey| m.contains(voter))
}

/// Every committee has so many voters that one is not faulty.
pub open spec fn vote_visible(election: Election, committees: Seq<Membership>) -> bool {
    forall|i: int|
        0 <= i < committees.len() ==> (#[trigger] committees[i]).reaches(
            voters_in(election, committees[i]).len() as int,
            committees[i].thresholds.max_faulty + 1,
        )
}

/// No record election of the last epoch number is known.
pub open spec fn leaves_room(active: ActiveElections) -> bool {
    forall|attempt: RaiCloseAttempt|
        !#[trigger] active.elections.contains_key(close_election(true, u64::MAX, attempt))
}

impl Chamber {
    /// Every epoch that ends has a successor.
    pub open spec fn has_room(self) -> bool {
        leaves_room(self.active)
    }

    pub open spec fn current(self) -> CloseEpoch<RaiCloseRecord> {
        self.close.epoch(self.close.current)
    }

    pub open spec fn with_current(self, epoch: CloseEpoch<RaiCloseRecord>) -> Chamber {
        Chamber { close: self.close.with_epoch(self.close.current, epoch), ..self }
    }

    /// The merged outcome of an election.
    pub open spec fn outcome(self, id: RaiElectionId) -> Option<RaiElectionOutcome> {
        match self.committees.for_election(id) {
            Some(committees) => if self.active.elections.contains_key(id) {
                self.active.elections[id].merged_outcome(committees)
            } else {
                None
            },
            None => None,
        }
    }

    /// The hash that a try has decided for.
    pub open spec fn hash_at(self, records: bool, epoch: RaiEpoch, attempt: RaiCloseAttempt) -> Option<BlockHash> {
        fast_hash(records, self.outcome(close_election(records, epoch, attempt)))
    }

    /// The try is the first that has decided.
    pub open spec fn is_first(self, records: bool, epoch: RaiEpoch, attempt: RaiCloseAttempt) -> bool {
        &&& self.hash_at(records, epoch, attempt) is Some
        &&& forall|other: RaiCloseAttempt| other < attempt ==> #[trigger] self.hash_at(records, epoch, other) is None
    }

    /// What the first try that has decided has decided for.
    pub open spec fn decision(self, records: bool, epoch: RaiEpoch) -> Option<Decision> {
        if exists|attempt: RaiCloseAttempt| self.is_first(records, epoch, attempt) {
            let attempt = choose|attempt: RaiCloseAttempt| self.is_first(records, epoch, attempt);
            Some(Decision { attempt, hash: self.hash_at(records, epoch, attempt)->0 })
        } else {
            None
        }
    }

    /// The cut of the closing epoch is fixed once it is decided and known.
    pub open spec fn with_decided_cut(self) -> Chamber {
        let e = self.current();
        match self.decision(false, self.close.current) {
            Some(decision) => if e.cut is None && e.visibility.close_values.contains_key(decision.hash) && e.phase
                == RaiEpochPhase::Closing {
                let cut = e.visibility.close_values[decision.hash];
                let fixed = self.with_current(
                    CloseEpoch {
                        processed_cuts: e.processed_cuts.insert(decision.attempt),
                        cut: Some(cut),
                        ..e
                    },
                );
                Chamber { active: self.active.cut_applied(self.close.current, cut), ..fixed }
            } else {
                self
            },
            None => self,
        }
    }

    /// How the current epoch's election of a slot closes it.
    pub open spec fn closed_by_votes(self, slot: RaiSlot) -> Option<RaiClosedSlotState> {
        closed_state(self.outcome(RaiElectionId::Slot { slot, epoch: self.close.current }))
    }

    /// Every slot of a cut is closed by votes.
    pub open spec fn all_closed_by_votes(self, cut: Set<RaiSlot>) -> bool {
        forall|slot: RaiSlot| #[trigger] cut.contains(slot) ==> self.closed_by_votes(slot) is Some
    }

    /// The cut is drained once votes close each of its slots.
    pub open spec fn with_drained_cut(self) -> Chamber {
        let e = self.current();
        if !e.drained() && e.cut is Some && self.all_closed_by_votes(e.cut->0) {
            let closed = Map::new(|slot: RaiSlot| e.cut->0.contains(slot), |slot: RaiSlot| self.closed_by_votes(slot)->0);
            self.with_current(CloseEpoch { closed_slots: e.closed_slots.union_prefer_right(closed), ..e })
        } else {
            self
        }
    }

    /// The close record of a drained cut is kept, unless there is one.
    pub open spec fn with_own_record(self) -> Chamber {
        let e = self.current();
        let epoch = self.close.current;
        if e.phase == RaiEpochPhase::Closing && e.drained() && e.records == Map::<
            BlockHash,
            Package<RaiCloseRecord>,
        >::empty() && self.close.previous_hash(epoch) is Some {
            let record = self.close.current_record(epoch);
            self.with_current(
                e.with_record(RaiCloseRecord::digest(record), Package { record, entries: e.entries() }),
            )
        } else {
            self
        }
    }

    /// A decided record is known.
    pub open spec fn has_decided_record(self) -> bool {
        match self.decision(true, self.close.current) {
            Some(decision) => self.current().records.contains_key(decision.hash),
            None => false,
        }
    }

    /// The epochs with the decided record certified.
    pub open spec fn certified(self) -> CloseState<RaiCloseRecord> {
        let decision = self.decision(true, self.close.current)->0;
        let e = self.current();
        self.close.with_epoch(
            self.close.current,
            CloseEpoch {
                processed_records: e.processed_records.insert(decision.attempt),
                close_hash: Some(decision.hash),
                ..e
            },
        )
    }

    /// The decided record ends the current epoch.
    pub open spec fn ends_epoch(self) -> bool {
        self.has_decided_record() && self.certified().advance_error(self.close.current) is None
    }

    /// A decided record is certified, and ends the epoch if nothing is missing.
    pub open spec fn with_decided_record(self, fixing: Option<Fixing>) -> Chamber {
        if self.ends_epoch() {
            Chamber {
                close: self.certified().advanced(),
                committees: self.committees.with_close(self.close.current, fixing),
                ..self
            }
        } else if self.has_decided_record() {
            Chamber { close: self.certified(), ..self }
        } else {
            self
        }
    }

    /// The current epoch with its cut decided, drained and recorded.
    pub open spec fn before_record(self) -> Chamber {
        self.with_decided_cut().with_drained_cut().with_own_record()
    }

    /// Everything that votes have settled is installed, epoch by epoch.
    pub open spec fn installed(self, fixing: Option<Fixing>) -> Chamber
        decreases u64::MAX - self.close.current,
    {
        let ready = self.before_record();
        let next = ready.with_decided_record(fixing);
        if ready.ends_epoch() && next.close.current > self.close.current {
            next.installed(fixing)
        } else {
            next
        }
    }

    /// A member of the committees votes.
    pub open spec fn is_seated(self, vote: RaiVote) -> bool {
        match self.committees.for_election(vote.election_id) {
            Some(committees) => seated(committees, vote.voter),
            None => false,
        }
    }

    /// A vote about the cut of the current epoch moves the epoch on.
    pub open spec fn prepared_for_cut(self, vote: RaiVote) -> Chamber {
        match vote.election_id {
            RaiElectionId::CloseCut { epoch, attempt } => if !self.is_seated(vote) || epoch != self.close.current {
                self
            } else {
                let e = self.current();
                match vote.value {
                    RaiElectionValue::Timeout => if e.phase == RaiEpochPhase::Closing {
                        self.with_current(CloseEpoch { started_cuts: e.started_cuts.insert(attempt), ..e })
                    } else {
                        self
                    },
                    RaiElectionValue::CloseCutHash(hash) => {
                        let phase = if e.phase == RaiEpochPhase::Open {
                            RaiEpochPhase::Closing
                        } else {
                            e.phase
                        };
                        let visibility = if !e.visibility.close_values.contains_key(hash) && visible_hash(
                            e.visibility.visible,
                        ) == hash {
                            e.visibility.recorded()
                        } else {
                            e.visibility
                        };
                        let started_cuts = if visibility.close_values.contains_key(hash) && phase
                            == RaiEpochPhase::Closing {
                            e.started_cuts.insert(attempt)
                        } else {
                            e.started_cuts
                        };
                        self.with_current(CloseEpoch { phase, visibility, started_cuts, ..e })
                    },
                    _ => self,
                }
            },
            _ => self,
        }
    }

    /// A vote about the record of the current epoch moves the epoch on.
    pub open spec fn prepared_for_record(self, vote: RaiVote, fixing: Option<Fixing>) -> Chamber {
        match vote.election_id {
            RaiElectionId::CloseRecord { epoch, attempt } => if !self.is_seated(vote) {
                self
            } else {
                let s = self.installed(fixing);
                let e = s.current();
                let started = CloseEpoch { started_records: e.started_records.insert(attempt), ..e };
                if epoch != s.close.current || e.phase != RaiEpochPhase::Closing {
                    s
                } else {
                    match vote.value {
                        RaiElectionValue::Timeout => if e.drained() {
                            s.with_current(started)
                        } else {
                            s
                        },
                        RaiElectionValue::CloseRecordHash(hash) => if e.records.contains_key(hash) {
                            s.with_current(started)
                        } else if s.close.current_record_error(epoch) is None && RaiCloseRecord::digest(
                            s.close.current_record(epoch),
                        ) == hash {
                            s.with_current(
                                started.with_record(
                                    hash,
                                    Package { record: s.close.current_record(epoch), entries: e.entries() },
                                ),
                            )
                        } else {
                            s
                        },
                        _ => s,
                    }
                }
            },
            _ => self,
        }
    }

    /// What a vote brings about before it is judged.
    pub open spec fn prepared(self, vote: RaiVote, fixing: Option<Fixing>) -> Chamber {
        self.prepared_for_cut(vote).prepared_for_record(vote, fixing)
    }

    /// A vote of this kind may start its election.
    pub open spec fn is_raisable(self, vote: RaiVote) -> bool {
        match (vote.election_id, vote.value) {
            (RaiElectionId::Slot { .. }, RaiElectionValue::Block(_)) => true,
            (RaiElectionId::CloseCut { .. }, RaiElectionValue::CloseCutHash(_)) => true,
            (RaiElectionId::CloseRecord { .. }, RaiElectionValue::CloseRecordHash(_)) => true,
            (RaiElectionId::CloseCut { epoch, attempt }, RaiElectionValue::Timeout) => self.close.epoch(
                epoch,
            ).started_cuts.contains(attempt),
            (RaiElectionId::CloseRecord { epoch, attempt }, RaiElectionValue::Timeout) => self.close.epoch(
                epoch,
            ).started_records.contains(attempt),
            _ => false,
        }
    }

    /// The vote starts an election.
    pub open spec fn raises(self, vote: RaiVote) -> bool {
        self.is_raisable(vote) && !self.active.elections.contains_key(vote.election_id)
    }

    /// Why a vote does not reach its election.
    pub open spec fn refusal<A: RaiAdmissibilityValidator<RaiCloseRecord>>(self, vote: RaiVote, validator: &A) -> Option<
        VoteError,
    > {
        if vote.election_id matches RaiElectionId::Slot { slot, epoch } && !self.close.epoch(epoch).accepts(slot) {
            Some(VoteError::Ignored)
        } else if verdict::<RaiCloseRecord, A>(self.close, validator, vote.election_id, vote.value) is Err {
            Some(VoteError::Invalid)
        } else if !is_safe(self.safety, self.close, vote) {
            Some(VoteError::Invalid)
        } else if !self.is_seated(vote) {
            Some(VoteError::Indeterminate)
        } else if self.raises(vote) && self.active.stopped {
            Some(VoteError::Ignored)
        } else {
            None
        }
    }

    /// The election of a vote is under way, if the vote may start it.
    pub open spec fn raised(self, vote: RaiVote) -> Chamber {
        if self.raises(vote) {
            Chamber {
                active: ActiveElections {
                    elections: self.active.elections.insert(vote.election_id, Election::new(vote.election_id)),
                    ..self.active
                },
                ..self
            }
        } else {
            self
        }
    }

    /// The election of a vote has the status.
    pub open spec fn stands(self, id: RaiElectionId, status: RaiElectionStatus) -> bool {
        self.active.elections.contains_key(id) && self.active.elections[id].status == status
    }

    /// A slot with enough voters is visible.
    pub open spec fn with_visible_vote(self, vote: RaiVote, committees: Seq<Membership>) -> Chamber {
        match vote.election_id {
            RaiElectionId::Slot { slot, epoch } => if self.active.elections.contains_key(vote.election_id)
                && vote_visible(self.active.elections[vote.election_id], committees) {
                let e = self.close.epoch(epoch);
                Chamber {
                    close: self.close.with_epoch(
                        epoch,
                        CloseEpoch { visibility: e.visibility.marked(set![slot]), ..e },
                    ),
                    ..self
                }
            } else {
                self
            },
            _ => self,
        }
    }

    /// A vote was counted, and all that follows was installed.
    pub open spec fn counted(self, vote: RaiVote, committees: Seq<Membership>, fixing: Option<Fixing>) -> Chamber {
        let voted = Chamber { active: self.active.with_vote(vote, committees), ..self };
        let done = voted.with_visible_vote(vote, committees).installed(fixing);
        Chamber { safety: after_vote(done.safety, vote), ..done }
    }

    /// The block that an election has confirmed.
    pub open spec fn confirmed_block(self, id: RaiElectionId) -> Option<BlockHash> {
        if self.stands(id, RaiElectionStatus::Confirmed) {
            match self.active.elections[id].confirmed_value {
                Some(RaiElectionValue::Block(block)) => Some(block),
                _ => None,
            }
        } else {
            None
        }
    }

    /// What comes of a vote that reaches its election.
    pub open spec fn report(self, vote: RaiVote, committees: Seq<Membership>, after: Chamber) -> RaiVoteReport {
        let error = self.active.vote_error(vote, committees);
        RaiVoteReport {
            result: match error {
                Some(error) => Err(error),
                None => Ok(()),
            },
            observed: self.stands(vote.election_id, RaiElectionStatus::Active),
            confirmed: if error is None && !self.stands(vote.election_id, RaiElectionStatus::Confirmed) {
                after.confirmed_block(vote.election_id)
            } else {
                None
            },
        }
    }

    /// All that an authentic vote brings about.
    #[verifier::opaque]
    pub open spec fn processed<A: RaiAdmissibilityValidator<RaiCloseRecord>>(
        self,
        vote: RaiVote,
        fixing: Option<Fixing>,
        validator: &A,
    ) -> Chamber {
        let prepared = self.prepared(vote, fixing);
        let raised = prepared.raised(vote);
        let committees = raised.committees.for_election(vote.election_id)->0;
        if prepared.refusal(vote, validator) is Some {
            prepared
        } else if raised.active.vote_error(vote, committees) is Some {
            raised
        } else {
            raised.counted(vote, committees, fixing)
        }
    }

    /// What comes of an authentic vote.
    #[verifier::opaque]
    pub open spec fn answer<A: RaiAdmissibilityValidator<RaiCloseRecord>>(
        self,
        vote: RaiVote,
        fixing: Option<Fixing>,
        validator: &A,
    ) -> RaiVoteReport {
        let prepared = self.prepared(vote, fixing);
        let raised = prepared.raised(vote);
        let committees = raised.committees.for_election(vote.election_id)->0;
        match prepared.refusal(vote, validator) {
            Some(error) => RaiVoteReport { result: Err(error), observed: false, confirmed: None },
            None => raised.report(vote, committees, self.processed(vote, fixing, validator)),
        }
    }
}

/// Takes in votes, and closes epochs as votes allow.
pub struct RaiVoteProcessor<A: RaiAdmissibilityValidator<RaiCloseRecord>, P: RaiCommitteeProvider> {
    pub active_elections: RaiActiveElections,
    pub close_state: RaiCloseState<RaiCloseRecord>,
    pub vote_safety: RaiVoteSafety,
    pub committee_provider: P,
    pub admissibility: A,
}

impl<A: RaiAdmissibilityValidator<RaiCloseRecord>, P: RaiCommitteeProvider> View for RaiVoteProcessor<A, P> {
    type V = Chamber;

    open spec fn view(&self) -> Chamber {
        Chamber {
            active: self.active_elections@,
            close: self.close_state@,
            safety: self.vote_safety@,
            committees: committees_of(&self.committee_provider),
        }
    }
}

impl RaiVoteProcessor<RaiDefaultAdmissibilityValidator, RepWeightRaiCommitteeProvider> {
    /// A processor that accepts every block, whose committees come from the
    /// weights at the start.
    pub fn new(
        active_elections: RaiActiveElections,
        close_state: RaiCloseState<RaiCloseRecord>,
        weights: RaiRepWeightSnapshot,
    ) -> (r: Self)
        ensures
            r@ == (Chamber {
                active: active_elections@,
                close: close_state@,
                safety: Map::empty(),
                committees: Committees {
                    genesis: derived_committee(balances_of(weights@)),
                    closed: Map::empty(),
                    weights: Map::empty(),
                },
            }),
    {
        let r = Self::with_committee_provider(
            active_elections,
            close_state,
            RepWeightRaiCommitteeProvider::new(weights),
        );
        proof {
            assert(r@.committees.closed =~= Map::empty());
            assert(r@.committees.weights =~= Map::empty());
        }
        r
    }
}

impl<P: RaiCommitteeProvider> RaiVoteProcessor<RaiDefaultAdmissibilityValidator, P> {

    /// A processor that accepts every block.
    pub fn with_committee_provider(
        active_elections: RaiActiveElections,
        close_state: RaiCloseState<RaiCloseRecord>,
        committee_provider: P,
    ) -> (r: Self)
        ensures
            r@ == (Chamber {
                active: active_elections@,
                close: close_state@,
                safety: Map::empty(),
                committees: committees_of(&committee_provider),
            }),
    {
        Self::with_committee_provider_admissibility_and_vote_safety(
            active_elections,
            close_state,
            committee_provider,
            RaiDefaultAdmissibilityValidator {  },
            RaiVoteSafety::new(),
        )
    }
}

fn count_voters(voters: &Vec<PublicKey>, committee: &RaiCommittee) -> (r: usize)
    ensures
        r == voters@.to_set().filter(|voter: PublicKey| committee@.contains(voter)).len(),
{
    let mut found: SortedSet<PublicKey> = SortedSet::new();
    for i in 0..voters.len()
        invariant
            forall|voter: PublicKey| #[trigger]
                found@.contains(voter) == (committee@.contains(voter) && exists|j: int|
                    0 <= j < i && #[trigger] voters@[j] == voter),
    {
        if committee.contains(&voters[i]) {
            found.insert(voters[i]);
        }
    }
    proof {
        assert(found@ =~= voters@.to_set().filter(|voter: PublicKey| committee@.contains(voter)));
    }
    found.len()
}

fn election_visible(election: &RaiElection, committees: &RaiCommitteeSet) -> (r: bool)
    ensures
        r == vote_visible(election@, committees@),
{
    let voters = election.voters();
    let n: usize = committees.len();
    for i in 0..n
        invariant
            n == committees@.len(),
            voters@.to_set() == voters_of(election@.seats),
            forall|j: int|
                0 <= j < i ==> (#[trigger] committees@[j]).reaches(
                    voters_in(election@, committees@[j]).len() as int,
                    committees@[j].thresholds.max_faulty + 1,
                ),
    {
        let committee = committees.at(i);
        let count = count_voters(&voters, committee);
        proof {
            assert(voters@.to_set().filter(|voter: PublicKey| committee@.contains(voter)) =~= voters_in(
                election@,
                committee@,
            ));
        }
        if !committee.has_visibility_quorum(count) {
            proof {
                assert(!committees@[i as int].reaches(
                    voters_in(election@, committees@[i as int]).len() as int,
                    committees@[i as int].thresholds.max_faulty + 1,
                ));
            }
            return false;
        }
    }
    true
}

impl<A: RaiAdmissibilityValidator<RaiCloseRecord>, P: RaiCommitteeProvider> RaiVoteProcessor<A, P> {
    pub fn with_committee_provider_admissibility_and_vote_safety(
        active_elections: RaiActiveElections,
        close_state: RaiCloseState<RaiCloseRecord>,
        committee_provider: P,
        admissibility: A,
        vote_safety: RaiVoteSafety,
    ) -> (r: Self)
        ensures
            r@ == (Chamber {
                active: active_elections@,
                close: close_state@,
                safety: vote_safety@,
                committees: committees_of(&committee_provider),
            }),
            r.admissibility == admissibility,
    {
        RaiVoteProcessor { active_elections, close_state, vote_safety, committee_provider, admissibility }
    }

    fn committees_for(&self, id: &RaiElectionId) -> (r: Option<RaiCommitteeSet>)
        ensures
            match r {
                Some(committees) => self@.committees.for_election(*id) == Some(committees@),
                None => self@.committees.for_election(*id) is None,
            },
    {
        self.committee_provider.try_committees_for(id)
    }

    fn outcome(&self, id: &RaiElectionId) -> (r: Option<RaiElectionOutcome>)
        ensures
            r == self@.outcome(*id),
    {
        match self.committees_for(id) {
            Some(committees) => match self.active_elections.election(id) {
                Some(election) => election.merged_outcome(&committees),
                None => None,
            },
            None => None,
        }
    }

    /// What the first try that has decided has decided for.
    fn decision(&self, records: bool, epoch: RaiEpoch) -> (r: Option<Decision>)
        ensures
            r == self@.decision(records, epoch),
    {
        let ids = self.active_elections.ids();
        let ghost s = self@;
        let mut best: Option<Decision> = None;
        proof {
            lemma_ascending(s.active.elections.dom());
        }
        for i in 0..ids.len()
            invariant
                s == self@,
                ids@ == ascending(s.active.elections.dom()),
                match best {
                    Some(decision) => {
                        &&& s.hash_at(records, epoch, decision.attempt) == Some(decision.hash)
                        &&& forall|j: int, attempt: RaiCloseAttempt|
                            0 <= j < i && #[trigger] ids@[j] == close_election(records, epoch, attempt)
                                && #[trigger] s.hash_at(records, epoch, attempt) is Some ==> decision.attempt
                                <= attempt
                    },
                    None => forall|j: int, attempt: RaiCloseAttempt|
                        0 <= j < i && #[trigger] ids@[j] == close_election(records, epoch, attempt)
                            ==> #[trigger] s.hash_at(records, epoch, attempt) is None,
                },
        {
            let named = match ids[i] {
                RaiElectionId::CloseCut { epoch: of, attempt } => if !records && of == epoch {
                    Some(attempt)
                } else {
                    None
                },
                RaiElectionId::CloseRecord { epoch: of, attempt } => if records && of == epoch {
                    Some(attempt)
                } else {
                    None
                },
                _ => None,
            };
            if let Some(attempt) = named {
                let hash = match self.outcome(&ids[i]) {
                    Some(RaiElectionOutcome::Fast(RaiElectionValue::CloseCutHash(hash))) => if records {
                        None
                    } else {
                        Some(hash)
                    },
                    Some(RaiElectionOutcome::Fast(RaiElectionValue::CloseRecordHash(hash))) => if records {
                        Some(hash)
                    } else {
                        None
                    },
                    _ => None,
                };
                proof {
                    assert(ids@[i as int] == close_election(records, epoch, attempt));
                    assert(hash == s.hash_at(records, epoch, attempt));
                }
                if let Some(hash) = hash {
                    let better = match best {
                        Some(decision) => attempt < decision.attempt,
                        None => true,
                    };
                    if better {
                        best = Some(Decision { attempt, hash });
                    }
                }
            }
        }
        proof {
            assert forall|attempt: RaiCloseAttempt| #[trigger] s.hash_at(records, epoch, attempt) is Some implies exists|
                j: int,
            |
                0 <= j < ids@.len() && #[trigger] ids@[j] == close_election(records, epoch, attempt) by {
                assert(s.active.elections.contains_key(close_election(records, epoch, attempt)));
                assert(ids@.contains(close_election(records, epoch, attempt)));
            }
            match best {
                Some(decision) => {
                    assert forall|other: RaiCloseAttempt| other < decision.attempt implies #[trigger] s.hash_at(
                        records,
                        epoch,
                        other,
                    ) is None by {
                        if s.hash_at(records, epoch, other) is Some {
                            let j = choose|j: int|
                                0 <= j < ids@.len() && #[trigger] ids@[j] == close_election(records, epoch, other);
                            assert(ids@[j] == close_election(records, epoch, other));
                        }
                    }
                    assert(s.is_first(records, epoch, decision.attempt));
                    lemma_first_is_unique(s, records, epoch, decision.attempt);
                },
                None => {
                    assert forall|attempt: RaiCloseAttempt| !s.is_first(records, epoch, attempt) by {
                        if s.hash_at(records, epoch, attempt) is Some {
                            let j = choose|j: int|
                                0 <= j < ids@.len() && #[trigger] ids@[j] == close_election(records, epoch, attempt);
                            assert(ids@[j] == close_election(records, epoch, attempt));
                        }
                    }
                },
            }
        }
        best
    }

    fn install_decided_cut(&mut self)
        ensures
            final(self)@ == old(self)@.with_decided_cut(),
            final(self).admissibility == old(self).admissibility,
    {
        let ghost s = self@;
        let epoch = self.close_state.current_epoch();
        if self.close_state.cut_set(epoch).is_some() {
            return ;
        }
        let decision = match self.decision(false, epoch) {
            Some(decision) => decision,
            None => return ,
        };
        let cut = match self.close_state.close_value(epoch, &decision.hash) {
            Some(cut) => cut.duplicate(),
            None => return ,
        };
        if self.close_state.current_epoch_phase() != RaiEpochPhase::Closing {
            return ;
        }
        let kept = cut.duplicate();
        self.close_state.record_close_attempt_processed(epoch, decision.attempt);
        let installed = self.close_state.install_cut(epoch, cut);
        self.active_elections.discard_slots_outside_cut(epoch, &kept);
        proof {
            assert(self@.close.epochs =~= s.with_decided_cut().close.epochs);
            assert(self@ =~= s.with_decided_cut());
        }
    }

    fn drain_cut(&mut self)
        ensures
            final(self)@ == old(self)@.with_drained_cut(),
            final(self).admissibility == old(self).admissibility,
    {
        let ghost s = self@;
        let ghost e = s.current();
        let epoch = self.close_state.current_epoch();
        if self.close_state.cut_drained(epoch) {
            return ;
        }
        let cut = match self.close_state.cut_set(epoch) {
            Some(cut) => cut.duplicate(),
            None => return ,
        };
        let n: usize = cut.len();
        let ghost slots = ascending(cut@);
        let ghost closed = Map::new(|slot: RaiSlot| cut@.contains(slot), |slot: RaiSlot| s.closed_by_votes(slot)->0);
        let mut states: Vec<(RaiSlot, RaiClosedSlotState)> = Vec::new();
        proof {
            lemma_ascending(cut@);
        }
        for i in 0..n
            invariant
                s == self@,
                epoch == s.close.current,
                n == cut@.len(),
                n == slots.len(),
                slots == ascending(cut@),
                s.current().cut == Some(cut@),
                states@.len() == i,
                forall|j: int| 0 <= j < i ==> s.closed_by_votes(#[trigger] slots[j]) is Some,
                forall|j: int|
                    0 <= j < i ==> (#[trigger] states@[j]) == (slots[j], s.closed_by_votes(slots[j])->0),
        {
            let slot = cut.at(i);
            let outcome = self.outcome(&RaiElectionId::Slot { slot, epoch });
            let state = match outcome {
                Some(outcome) => closed_slot_state_from_outcome(outcome),
                None => None,
            };
            proof {
                assert(state == s.closed_by_votes(slot));
                assert(cut@.contains(slot));
            }
            match state {
                Some(state) => {
                    states.push((slot, state));
                },
                None => {
                    proof {
                        assert(!s.all_closed_by_votes(cut@));
                    }
                    return ;
                },
            }
        }
        proof {
            assert(closed.dom() =~= cut@);
            assert(states@ =~= pairs_of(closed));
            lemma_map_of_pairs(closed);
            assert forall|slot: RaiSlot| #[trigger] cut@.contains(slot) implies s.closed_by_votes(slot) is Some by {
                assert(slots.contains(slot));
                let j = choose|j: int| 0 <= j < slots.len() && slots[j] == slot;
                assert(s.closed_by_votes(slots[j]) is Some);
            }
            assert(s.all_closed_by_votes(cut@));
        }
        let recorded = self.close_state.record_cut_drain(epoch, &states);
        proof {
            assert(closed =~= Map::new(
                |slot: RaiSlot| e.cut->0.contains(slot),
                |slot: RaiSlot| s.closed_by_votes(slot)->0,
            ));
            assert(self@ =~= s.with_drained_cut());
        }
    }

    fn record_own_close_record(&mut self)
        ensures
            final(self)@ == old(self)@.with_own_record(),
            final(self).admissibility == old(self).admissibility,
    {
        let ghost s = self@;
        let epoch = self.close_state.current_epoch();
        if self.close_state.current_epoch_phase() != RaiEpochPhase::Closing || !self.close_state.cut_drained(epoch)
            || self.close_state.has_close_record_values(epoch) {
            return ;
        }
        if self.close_state.previous_close_hash(epoch).is_err() {
            return ;
        }
        let recorded = self.close_state.record_current_close_record_value(epoch);
        proof {
            assert(self@ =~= s.with_own_record());
        }
    }

    /// Installs a decided record; reports whether it ended the epoch.
    fn install_decided_record(&mut self, live: &RaiRepWeightSnapshot) -> (r: bool)
        requires
            old(self)@.has_room(),
        ensures
            r == old(self)@.ends_epoch(),
            final(self)@ == old(self)@.with_decided_record(P::fixing(live@)),
            final(self).admissibility == old(self).admissibility,
            r ==> old(self)@.close.current < u64::MAX,
    {
        let ghost s = self@;
        let epoch = self.close_state.current_epoch();
        let decision = match self.decision(true, epoch) {
            Some(decision) => decision,
            None => return false,
        };
        proof {
            let attempt = choose|attempt: RaiCloseAttempt| s.is_first(true, epoch, attempt);
            assert(s.active.elections.contains_key(close_election(true, epoch, attempt)));
            assert(epoch < u64::MAX);
        }
        if !self.close_state.has_close_record_value(epoch, &decision.hash) {
            return false;
        }
        self.close_state.record_close_record_attempt_processed(epoch, decision.attempt);
        let certified = self.close_state.certify_close_record(epoch, &decision.hash);
        proof {
            assert(self@.close.epochs =~= s.certified().epochs);
            assert(self@.close =~= s.certified());
        }
        if self.close_state.advance_epoch(epoch).is_err() {
            return false;
        }
        let weights = live.duplicate();
        let ghost before = committees_of(&self.committee_provider);
        self.committee_provider.snapshot_closed_epoch_committee(epoch, weights);
        proof {
            let after = before.with_close(epoch, P::fixing(live@));
            assert(committees_of(&self.committee_provider).closed =~= after.closed);
            assert(committees_of(&self.committee_provider).weights =~= after.weights);
        }
        true
    }

    fn install_settled(&mut self, live: &RaiRepWeightSnapshot)
        requires
            old(self)@.has_room(),
        ensures
            final(self)@ == old(self)@.installed(P::fixing(live@)),
            final(self)@.has_room(),
            final(self).admissibility == old(self).admissibility,
        decreases u64::MAX - old(self)@.close.current,
    {
        let ghost s = self@;
        self.install_decided_cut();
        self.drain_cut();
        self.record_own_close_record();
        let ghost ready = self@;
        proof {
            assert(ready == s.before_record());
            assert(ready.close.current == s.close.current);
            lemma_ready_has_room(s);
        }
        let ended = self.install_decided_record(live);
        proof {
            assert(self@.has_room());
        }
        if ended {
            proof {
                assert(self@.close.current == s.close.current + 1);
            }
            self.install_settled(live);
        }
    }

    fn prepare_close_cut_vote_context(&mut self, vote: &RaiVote)
        ensures
            final(self)@ == old(self)@.prepared_for_cut(*vote),
            final(self).admissibility == old(self).admissibility,
    {
        let ghost s = self@;
        let (epoch, attempt) = match vote.election_id {
            RaiElectionId::CloseCut { epoch, attempt } => (epoch, attempt),
            _ => return ,
        };
        if !self.is_seated(vote) || self.close_state.current_epoch() != epoch {
            return ;
        }
        match vote.value {
            RaiElectionValue::Timeout => {
                if self.close_state.current_epoch_phase() == RaiEpochPhase::Closing {
                    self.close_state.record_close_attempt_started(epoch, attempt);
                }
            },
            RaiElectionValue::CloseCutHash(hash) => {
                if self.close_state.current_epoch_phase() == RaiEpochPhase::Open {
                    let started = self.close_state.start_closing(epoch);
                }
                if self.close_state.close_value(epoch, &hash).is_none() && self.close_state.current_close_hash(epoch)
                    == hash {
                    self.close_state.record_current_close_value(epoch);
                }
                if self.close_state.close_value(epoch, &hash).is_some() && self.close_state.current_epoch_phase()
                    == RaiEpochPhase::Closing {
                    self.close_state.record_close_attempt_started(epoch, attempt);
                }
                self.close_state.touch(epoch);
                proof {
                    assert(self@.close.epochs =~= s.prepared_for_cut(*vote).close.epochs);
                }
            },
            _ => {},
        }
    }

    fn is_seated(&self, vote: &RaiVote) -> (r: bool)
        ensures
            r == self@.is_seated(*vote),
    {
        match self.committees_for(&vote.election_id) {
            Some(committees) => committees.contains(&vote.voter),
            None => false,
        }
    }

    fn prepare_close_record_vote_context(&mut self, vote: &RaiVote, live: &RaiRepWeightSnapshot)
        requires
            old(self)@.has_room(),
        ensures
            final(self)@ == old(self)@.prepared_for_record(*vote, P::fixing(live@)),
            final(self)@.has_room(),
            final(self).admissibility == old(self).admissibility,
    {
        let (epoch, attempt) = match vote.election_id {
            RaiElectionId::CloseRecord { epoch, attempt } => (epoch, attempt),
            _ => return ,
        };
        if !self.is_seated(vote) {
            return ;
        }
        self.install_settled(live);
        let ghost s = self@;
        if self.close_state.current_epoch() != epoch || self.close_state.current_epoch_phase()
            != RaiEpochPhase::Closing {
            return ;
        }
        match vote.value {
            RaiElectionValue::Timeout => {
                if self.close_state.cut_drained(epoch) {
                    self.close_state.record_close_record_attempt_started(epoch, attempt);
                }
            },
            RaiElectionValue::CloseRecordHash(hash) => {
                if self.close_state.has_close_record_value(epoch, &hash) {
                    self.close_state.record_close_record_attempt_started(epoch, attempt);
                    return ;
                }
                let current = match self.close_state.current_close_record_hash(epoch) {
                    Ok(current) => current == hash,
                    Err(_) => false,
                };
                if current {
                    let recorded = self.close_state.record_current_close_record_value(epoch);
                    self.close_state.record_close_record_attempt_started(epoch, attempt);
                    proof {
                        let e = s.current();
                        let package = Package { record: s.close.current_record(epoch), entries: e.entries() };
                        let started = CloseEpoch { started_records: e.started_records.insert(attempt), ..e };
                        assert(self@.close.epochs =~= s.with_current(started.with_record(hash, package)).close.epochs);
                    }
                }
            },
            _ => {},
        }
    }

    fn is_raisable_vote(&self, vote: &RaiVote) -> (r: bool)
        ensures
            r == self@.is_raisable(*vote),
    {
        match (vote.election_id, vote.value) {
            (RaiElectionId::Slot { .. }, RaiElectionValue::Block(_)) => true,
            (RaiElectionId::CloseCut { .. }, RaiElectionValue::CloseCutHash(_)) => true,
            (RaiElectionId::CloseRecord { .. }, RaiElectionValue::CloseRecordHash(_)) => true,
            (
                RaiElectionId::CloseCut { epoch, attempt },
                RaiElectionValue::Timeout,
            ) => self.close_state.close_attempt_started(epoch, attempt),
            (
                RaiElectionId::CloseRecord { epoch, attempt },
                RaiElectionValue::Timeout,
            ) => self.close_state.close_record_attempt_started(epoch, attempt),
            _ => false,
        }
    }

    fn update_vote_visibility(&mut self, vote: &RaiVote, committees: &RaiCommitteeSet)
        ensures
            final(self)@ == old(self)@.with_visible_vote(*vote, committees@),
            final(self).admissibility == old(self).admissibility,
    {
        if let RaiElectionId::Slot { slot, epoch } = vote.election_id {
            let visible = match self.active_elections.election(&vote.election_id) {
                Some(election) => election_visible(election, committees),
                None => false,
            };
            if visible {
                self.close_state.mark_visible(epoch, slot);
            }
        }
    }

    fn refuse(&self, vote: &RaiVote) -> (r: Option<VoteError>)
        ensures
            r == self@.refusal(*vote, &self.admissibility),
    {
        if let RaiElectionId::Slot { slot, epoch } = vote.election_id {
            if !self.close_state.is_slot_vote_acceptable(epoch, &slot) {
                return Some(VoteError::Ignored);
            }
        }
        let admissibility: RaiAdmissibility<'_, RaiCloseRecord, A> = RaiAdmissibility::new(
            &self.close_state,
            &self.admissibility,
        );
        if admissibility.validate(&vote.election_id, &vote.value).is_err() {
            return Some(VoteError::Invalid);
        }
        if self.vote_safety.validate(&self.close_state, vote).is_err() {
            return Some(VoteError::Invalid);
        }
        if !self.is_seated(vote) {
            return Some(VoteError::Indeterminate);
        }
        if self.is_raisable_vote(vote) && !self.active_elections.contains(&vote.election_id)
            && self.active_elections.is_stopped() {
            return Some(VoteError::Ignored);
        }
        None
    }

    fn has_status(&self, id: &RaiElectionId, status: RaiElectionStatus) -> (r: bool)
        ensures
            r == self@.stands(*id, status),
    {
        match self.active_elections.election(id) {
            Some(election) => election.status() == status,
            None => false,
        }
    }

    fn confirmed_block(&self, id: &RaiElectionId) -> (r: Option<BlockHash>)
        ensures
            r == self@.confirmed_block(*id),
    {
        match self.active_elections.election(id) {
            Some(election) => if election.status() == RaiElectionStatus::Confirmed {
                match election.confirmed_value() {
                    Some(RaiElectionValue::Block(block)) => Some(*block),
                    _ => None,
                }
            } else {
                None
            },
            None => None,
        }
    }

    /// Hands a vote to its election and installs what follows.
    fn deliver(&mut self, vote: &RaiVote, committees: &RaiCommitteeSet, live: &RaiRepWeightSnapshot) -> (r: RaiVoteReport)
        requires
            old(self)@.has_room(),
        ensures
            final(self)@.has_room(),
            final(self).admissibility == old(self).admissibility,
            r == old(self)@.report(*vote, committees@, final(self)@),
            final(self)@ == if old(self)@.active.vote_error(*vote, committees@) is Some {
                old(self)@
            } else {
                old(self)@.counted(*vote, committees@, P::fixing(live@))
            },
    {
        let ghost raised = self@;
        let was_confirmed = self.has_status(&vote.election_id, RaiElectionStatus::Confirmed);
        let observed = self.has_status(&vote.election_id, RaiElectionStatus::Active);
        if let Err(error) = self.active_elections.apply_vote(vote, committees) {
            return RaiVoteReport { result: Err(error), observed, confirmed: None };
        }
        proof {
            assert(self@.has_room()) by {
                assert forall|attempt: RaiCloseAttempt|
                    !#[trigger] self@.active.elections.contains_key(close_election(true, u64::MAX, attempt)) by {
                    assert(!raised.active.elections.contains_key(close_election(true, u64::MAX, attempt)));
                    assert(raised.active.elections.contains_key(vote.election_id));
                }
            }
        }
        self.update_vote_visibility(vote, committees);
        self.install_settled(live);
        let ghost done = self@;
        self.vote_safety.record_vote(vote);
        proof {
            assert forall|attempt: RaiCloseAttempt|
                !#[trigger] self@.active.elections.contains_key(close_election(true, u64::MAX, attempt)) by {
                assert(!done.active.elections.contains_key(close_election(true, u64::MAX, attempt)));
            }
        }
        let confirmed = if was_confirmed {
            None
        } else {
            self.confirmed_block(&vote.election_id)
        };
        RaiVoteReport { result: Ok(()), observed, confirmed }
    }

    /// Takes in a vote. `authentic` says whether its signature is right, and
    /// `live` holds the weights that fix the committee of an epoch that ends.
    pub fn process(&mut self, vote: &RaiVote, authentic: bool, live: &RaiRepWeightSnapshot) -> (r: RaiVoteReport)
        requires
            old(self)@.has_room(),
            vote.election_id is CloseRecord ==> vote.election_id.epoch_of() < u64::MAX,
        ensures
            final(self)@.has_room(),
            final(self).admissibility == old(self).admissibility,
            r == if authentic {
                old(self)@.answer(*vote, P::fixing(live@), &old(self).admissibility)
            } else {
                RaiVoteReport { result: Err(VoteError::Invalid), observed: false, confirmed: None }
            },
            final(self)@ == if authentic {
                old(self)@.processed(*vote, P::fixing(live@), &old(self).admissibility)
            } else {
                old(self)@
            },
    {
        if !authentic {
            return RaiVoteReport { result: Err(VoteError::Invalid), observed: false, confirmed: None };
        }
        proof {
            reveal(Chamber::processed);
            reveal(Chamber::answer);
        }
        self.prepare_close_cut_vote_context(vote);
        self.prepare_close_record_vote_context(vote, live);
        let ghost prepared = self@;
        if let Some(error) = self.refuse(vote) {
            return RaiVoteReport { result: Err(error), observed: false, confirmed: None };
        }
        let committees = match self.committees_for(&vote.election_id) {
            Some(committees) => committees,
            None => {
                return RaiVoteReport { result: Err(VoteError::Indeterminate), observed: false, confirmed: None };
            },
        };
        if self.is_raisable_vote(vote) && !self.active_elections.contains(&vote.election_id) {
            let inserted = self.active_elections.insert(vote.election_id);
        }
        let ghost raised = self@;
        proof {
            assert(raised =~= prepared.raised(*vote));
            assert forall|attempt: RaiCloseAttempt|
                !#[trigger] raised.active.elections.contains_key(close_election(true, u64::MAX, attempt)) by {
                assert(!prepared.active.elections.contains_key(close_election(true, u64::MAX, attempt)));
            }
        }
        self.deliver(vote, &committees, live)
    }
}

proof fn lemma_first_is_unique(s: Chamber, records: bool, epoch: RaiEpoch, attempt: RaiCloseAttempt)
    requires
        s.is_first(records, epoch, attempt),
    ensures
        s.decision(records, epoch) == Some(
            Decision { attempt, hash: s.hash_at(records, epoch, attempt)->0 },
        ),
{
    let chosen = choose|a: RaiCloseAttempt| s.is_first(records, epoch, a);
    assert(s.is_first(records, epoch, chosen));
    if chosen < attempt {
        assert(s.hash_at(records, epoch, chosen) is None);
    } else if attempt < chosen {
        assert(s.hash_at(records, epoch, attempt) is None);
    }
}

proof fn lemma_ready_has_room(s: Chamber)
    requires
        s.has_room(),
    ensures
        s.before_record().has_room(),
{
    let cut = s.with_decided_cut();
    assert forall|attempt: RaiCloseAttempt|
        !#[trigger] cut.active.elections.contains_key(close_election(true, u64::MAX, attempt)) by {
        assert(!s.active.elections.contains_key(close_election(true, u64::MAX, attempt)));
    }
    assert(s.before_record().active == cut.active);
}

proof fn lemma_installing_keeps(s: Chamber, fixing: Option<Fixing>)
    ensures
        s.installed(fixing).safety == s.safety,
        s.installed(fixing).committees.genesis == s.committees.genesis,
    decreases u64::MAX - s.close.current,
{
    let ready = s.before_record();
    let next = ready.with_decided_record(fixing);
    if ready.ends_epoch() && next.close.current > s.close.current {
        lemma_installing_keeps(next, fixing);
    }
}

proof fn lemma_end_has_successor(s: Chamber)
    requires
        s.has_room(),
        s.ends_epoch(),
    ensures
        s.close.current < u64::MAX,
{
    let attempt = choose|attempt: RaiCloseAttempt| s.is_first(true, s.close.current, attempt);
    assert(s.active.elections.contains_key(close_election(true, s.close.current, attempt)));
}

/// Installing never goes back to an earlier epoch, and goes on until the
/// current epoch is not ended by votes.
pub proof fn installing_moves_forward(s: Chamber, fixing: Option<Fixing>)
    requires
        s.has_room(),
    ensures
        s.installed(fixing).close.current >= s.close.current,
        s.installed(fixing).has_room(),
        (s.installed(fixing).close.current > s.close.current) == s.before_record().ends_epoch(),
    decreases u64::MAX - s.close.current,
{
    let ready = s.before_record();
    let next = ready.with_decided_record(fixing);
    lemma_ready_has_room(s);
    assert(ready.close.current == s.close.current);
    if ready.ends_epoch() {
        lemma_end_has_successor(ready);
        installing_moves_forward(next, fixing);
    }
}

/// Votes that were accepted bind: whatever is installed afterwards, the block
/// stays in the voter's history.
pub proof fn counted_vote_is_remembered(
    s: Chamber,
    vote: RaiVote,
    committees: Seq<Membership>,
    fixing: Option<Fixing>,
)
    ensures
        s.counted(vote, committees, fixing).safety == after_vote(s.safety, vote),
{
    let voted = Chamber { active: s.active.with_vote(vote, committees), ..s };
    lemma_installing_keeps(voted.with_visible_vote(vote, committees), fixing);
}

/// The value that a committee election of this kind is about.
pub open spec fn close_value(records: bool, hash: BlockHash) -> RaiElectionValue {
    if records {
        RaiElectionValue::CloseRecordHash(hash)
    } else {
        RaiElectionValue::CloseCutHash(hash)
    }
}

/// The attempt at a cut or a record ended fast with a hash.
pub open spec fn ended_fast(s: Chamber, records: bool, epoch: RaiEpoch, attempt: RaiCloseAttempt, hash: BlockHash) -> bool {
    s.outcome(
        if records {
            RaiElectionId::CloseRecord { epoch, attempt }
        } else {
            RaiElectionId::CloseCut { epoch, attempt }
        },
    ) == Some(RaiElectionOutcome::Fast(close_value(records, hash)))
}

/// A cut or a record is decided by the first attempt at it that ends fast, and by no
/// other outcome.
pub proof fn first_fast_attempt_decides(
    s: Chamber,
    records: bool,
    epoch: RaiEpoch,
    attempt: RaiCloseAttempt,
    hash: BlockHash,
)
    ensures
        s.decision(records, epoch) == Some(Decision { attempt, hash }) <==> {
            &&& ended_fast(s, records, epoch, attempt, hash)
            &&& forall|earlier: RaiCloseAttempt, other: BlockHash|
                earlier < attempt ==> !#[trigger] ended_fast(s, records, epoch, earlier, other)
        },
        (forall|a: RaiCloseAttempt, other: BlockHash| !#[trigger] ended_fast(s, records, epoch, a, other)) ==> s.decision(
            records,
            epoch,
        ) is None,
{
    assert forall|a: RaiCloseAttempt, h: BlockHash| #[trigger]
        ended_fast(s, records, epoch, a, h) <==> s.hash_at(records, epoch, a) == Some(h) by {
    }
    assert forall|a: RaiCloseAttempt, b: RaiCloseAttempt| s.is_first(records, epoch, a) && s.is_first(records, epoch, b) implies a
        == b by {
        if a < b {
            assert(s.hash_at(records, epoch, a) is None);
        } else if b < a {
            assert(s.hash_at(records, epoch, b) is None);
        }
    }
    if s.decision(records, epoch) == Some(Decision { attempt, hash }) {
        let a = choose|a: RaiCloseAttempt| s.is_first(records, epoch, a);
        assert(s.is_first(records, epoch, a));
        assert forall|earlier: RaiCloseAttempt, other: BlockHash| earlier < attempt implies !#[trigger] ended_fast(
            s,
            records,
            epoch,
            earlier,
            other,
        ) by {
            assert(s.hash_at(records, epoch, earlier) is None);
        }
    }
    if ended_fast(s, records, epoch, attempt, hash) && (forall|earlier: RaiCloseAttempt, other: BlockHash|
        earlier < attempt ==> !#[trigger] ended_fast(s, records, epoch, earlier, other)) {
        assert forall|earlier: RaiCloseAttempt| earlier < attempt implies #[trigger] s.hash_at(records, epoch, earlier) is None by {
            if s.hash_at(records, epoch, earlier) is Some {
                assert(ended_fast(s, records, epoch, earlier, s.hash_at(records, epoch, earlier)->0));
            }
        }
        assert(s.is_first(records, epoch, attempt));
    }
    if forall|a: RaiCloseAttempt, other: BlockHash| !#[trigger] ended_fast(s, records, epoch, a, other) {
        assert forall|a: RaiCloseAttempt| !s.is_first(records, epoch, a) by {
            if s.hash_at(records, epoch, a) is Some {
                assert(ended_fast(s, records, epoch, a, s.hash_at(records, epoch, a)->0));
            }
        }
    }
}

/// A slot is closed as finalized by a fast or final block, as carried by a notarized one,
/// and as released by a timeout; nothing else closes it.
pub proof fn outcomes_close_slots(outcome: RaiElectionOutcome, block: BlockHash)
    ensures
        closed_state(None) is None,
        closed_state(Some(outcome)) == Some(RaiClosedSlotState::Finalized(block)) <==> outcome == RaiElectionOutcome::Fast(
            RaiElectionValue::Block(block),
        ) || outcome == RaiElectionOutcome::Final(RaiElectionValue::Block(block)),
        closed_state(Some(outcome)) == Some(RaiClosedSlotState::Carry(block)) <==> outcome == RaiElectionOutcome::Notarized(
            RaiElectionValue::Block(block),
        ),
        closed_state(Some(outcome)) == Some(RaiClosedSlotState::Released) <==> outcome is Timeout,
{
}

/// The members of a committee that have cast a vote in the election.
pub open spec fn members_voting(election: Election, m: Membership) -> Set<PublicKey> {
    Set::new(
        |voter: PublicKey|
            (exists|i: int| 0 <= i < m.members.len() && (#[trigger] m.members[i]).account == voter) && exists|c: usize|
                election.seats.contains_key(#[trigger] seat_key(voter, c)),
    )
}

/// The seat of a voter in a committee.
pub open spec fn seat_key(voter: PublicKey, committee: usize) -> RaiCommitteeVoteKey {
    RaiCommitteeVoteKey { voter, committee_index: committee }
}

/// A slot is visible by votes exactly if in every committee at least one member more than
/// may be faulty has voted.
pub proof fn visible_slots_have_a_correct_voter(election: Election, committees: Seq<Membership>)
    requires
        forall|i: int| 0 <= i < committees.len() ==> (#[trigger] committees[i]).members.len() > 0,
    ensures
        vote_visible(election, committees) <==> forall|i: int|
            0 <= i < committees.len() ==> (#[trigger] members_voting(election, committees[i])).len()
                >= committees[i].thresholds.max_faulty + 1,
{
    assert forall|i: int| 0 <= i < committees.len() implies #[trigger] members_voting(election, committees[i]) == voters_in(
        election,
        committees[i],
    ) by {
        let m = committees[i];
        let a = members_voting(election, m);
        let b = voters_in(election, m);
        assert forall|voter: PublicKey| a.contains(voter) <==> b.contains(voter) by {
            if a.contains(voter) {
                let c = choose|c: usize| election.seats.contains_key(#[trigger] seat_key(voter, c));
                assert(election.seats.contains_key(seat_key(voter, c)) && seat_key(voter, c).voter == voter);
            }
            if b.contains(voter) {
                let key = choose|key: RaiCommitteeVoteKey| #[trigger] election.seats.contains_key(key) && key.voter == voter;
                assert(key == seat_key(voter, key.committee_index));
            }
        }
        assert(a =~= b);
    }
    if vote_visible(election, committees) {
        assert forall|i: int| 0 <= i < committees.len() implies (#[trigger] members_voting(election, committees[i])).len()
            >= committees[i].thresholds.max_faulty + 1 by {
            assert(committees[i].reaches(
                voters_in(election, committees[i]).len() as int,
                committees[i].thresholds.max_faulty + 1,
            ));
        }
    } else {
        let i = choose|i: int|
            0 <= i < committees.len() && !(#[trigger] committees[i]).reaches(
                voters_in(election, committees[i]).len() as int,
                committees[i].thresholds.max_faulty + 1,
            );
        assert(members_voting(election, committees[i]).len() < committees[i].thresholds.max_faulty + 1);
    }
}

/// A vote gets to its election exactly if the epoch still takes votes on its slot, its
/// value is admissible and contradicts no earlier vote of the voter, the voter sits in a
/// committee of the election, and a new election is not asked of a node that stopped. The
/// first of these that fails is the answer.
pub proof fn votes_are_checked_in_turn<A: RaiAdmissibilityValidator<RaiCloseRecord>>(s: Chamber, vote: RaiVote, validator: &A)
    ensures
        ({
            let refusal = s.refusal(vote, validator);
            let open = vote.election_id matches RaiElectionId::Slot { slot, epoch } ==> s.close.epoch(epoch).accepts(slot);
            let fits = verdict::<RaiCloseRecord, A>(s.close, validator, vote.election_id, vote.value) is Ok;
            let safe = is_safe(s.safety, s.close, vote);
            let member = s.committees.for_election(vote.election_id) is Some && exists|i: int, j: int|
                0 <= i < s.committees.for_election(vote.election_id)->0.len() && 0 <= j < s.committees.for_election(
                    vote.election_id,
                )->0[i].members.len() && (#[trigger] s.committees.for_election(vote.election_id)->0[i].members[j]).account
                    == vote.voter;
            let stuck = s.active.stopped && !s.active.elections.contains_key(vote.election_id) && s.is_raisable(vote);
            &&& refusal is None <==> open && fits && safe && member && !stuck
            &&& !open ==> refusal == Some(VoteError::Ignored)
            &&& open && !(fits && safe) ==> refusal == Some(VoteError::Invalid)
            &&& open && fits && safe && !member ==> refusal == Some(VoteError::Indeterminate)
            &&& open && fits && safe && member && stuck ==> refusal == Some(VoteError::Ignored)
        }),
{
    if s.committees.for_election(vote.election_id) is Some {
        let list = s.committees.for_election(vote.election_id)->0;
        if seated(list, vote.voter) {
            let i = choose|i: int| 0 <= i < list.len() && (#[trigger] list[i]).contains(vote.voter);
            let j = choose|j: int| 0 <= j < list[i].members.len() && (#[trigger] list[i].members[j]).account == vote.voter;
            assert(list[i].members[j].account == vote.voter);
        }
        if exists|i: int, j: int|
            0 <= i < list.len() && 0 <= j < list[i].members.len() && (#[trigger] list[i].members[j]).account == vote.voter {
            let (i, j) = choose|i: int, j: int|
                0 <= i < list.len() && 0 <= j < list[i].members.len() && (#[trigger] list[i].members[j]).account == vote.voter;
            assert(list[i].contains(vote.voter));
        }
    }
}

/// A vote raises an election that is not there for a block of a slot, a cut or a record,
/// and for a timeout of an attempt at a cut or a record that has started.
pub proof fn votes_raise_elections(s: Chamber, vote: RaiVote)
    ensures
        s.raises(vote) <==> !s.active.elections.contains_key(vote.election_id) && match vote.election_id {
            RaiElectionId::Slot { slot, epoch } => vote.value is Block,
            RaiElectionId::CloseCut { epoch, attempt } => vote.value is CloseCutHash || (vote.value is Timeout
                && s.close.epoch(epoch).started_cuts.contains(attempt)),
            RaiElectionId::CloseRecord { epoch, attempt } => vote.value is CloseRecordHash || (vote.value is Timeout
                && s.close.epoch(epoch).started_records.contains(attempt)),
        },
        s.raises(vote) ==> s.raised(vote).active.elections.contains_key(vote.election_id) && s.raised(
            vote,
        ).active.elections[vote.election_id].status == RaiElectionStatus::Active,
        !s.raises(vote) ==> s.raised(vote) == s,
{
}

/// A decided cut is fixed once, as soon as its slots are known and the epoch closes; the
/// elections of the epoch's other slots are dropped then.
pub proof fn decided_cut_is_fixed(s: Chamber, attempt: RaiCloseAttempt, hash: BlockHash, id: RaiElectionId)
    requires
        s.decision(false, s.close.current) == Some(Decision { attempt, hash }),
    ensures
        ({
            let before = s.current();
            let after = s.with_decided_cut();
            let fixes = before.cut is None && before.visibility.close_values.contains_key(hash) && before.phase
                == RaiEpochPhase::Closing;
            &&& !fixes ==> after == s
            &&& fixes ==> {
                let cut = before.visibility.close_values[hash];
                &&& after.current().cut == Some(cut)
                &&& after.current().processed_cuts.contains(attempt)
                &&& after.close.current == s.close.current
                &&& after.active.elections.contains_key(id) <==> s.active.elections.contains_key(id) && !(id matches
                    RaiElectionId::Slot { slot, epoch } && epoch == s.close.current && !cut.contains(slot))
            }
        }),
{
}

/// The cut drains when every slot of it is closed by votes, all at once, each as the votes
/// say.
pub proof fn cut_drains_when_all_slots_are_closed(s: Chamber, cut: Set<RaiSlot>, slot: RaiSlot)
    requires
        s.current().cut == Some(cut),
        !s.current().drained(),
    ensures
        ({
            let after = s.with_drained_cut();
            let all = forall|x: RaiSlot| #[trigger]
                cut.contains(x) ==> closed_state(
                    s.outcome(RaiElectionId::Slot { slot: x, epoch: s.close.current }),
                ) is Some;
            &&& all ==> after.current().drained()
            &&& all && cut.contains(slot) ==> after.current().closed_slots.contains_key(slot) && Some(
                after.current().closed_slots[slot],
            ) == closed_state(s.outcome(RaiElectionId::Slot { slot, epoch: s.close.current }))
            &&& all && !cut.contains(slot) && s.current().closed_slots.contains_key(slot) ==> after.current().closed_slots[slot]
                == s.current().closed_slots[slot]
            &&& !all ==> after == s
        }),
{
    let all = forall|x: RaiSlot| #[trigger]
        cut.contains(x) ==> closed_state(s.outcome(RaiElectionId::Slot { slot: x, epoch: s.close.current })) is Some;
    assert(all == s.all_closed_by_votes(cut));
}

/// The own record of a closing epoch is known as soon as its cut is drained, unless one is,
/// and the close before it is certified.
pub proof fn drained_epoch_knows_its_record(s: Chamber)
    ensures
        ({
            let e = s.current();
            let after = s.with_own_record();
            let record = s.close.current_record(s.close.current);
            let due = e.phase == RaiEpochPhase::Closing && e.drained() && (forall|hash: BlockHash| !#[trigger]
                e.records.contains_key(hash)) && s.close.previous_hash(s.close.current) is Some;
            &&& due ==> after.current().records.contains_key(RaiCloseRecord::digest(record))
                && after.current().records[RaiCloseRecord::digest(record)].record == record
            &&& !due ==> after == s
            &&& after.active == s.active && after.safety == s.safety
        }),
{
    let e = s.current();
    let none = Map::<BlockHash, Package<RaiCloseRecord>>::empty();
    if forall|hash: BlockHash| !#[trigger] e.records.contains_key(hash) {
        assert(e.records =~= none);
    }
}

/// A decided record that is known ends its epoch, if the epoch can end; the committee that the
/// close fixes serves later elections from then on. A record that is not known ends nothing.
pub proof fn decided_record_ends_the_epoch(s: Chamber, fixing: Option<Fixing>, attempt: RaiCloseAttempt, hash: BlockHash)
    requires
        s.decision(true, s.close.current) == Some(Decision { attempt, hash }),
        s.close.current < u64::MAX,
    ensures
        ({
            let e = s.current();
            let after = s.with_decided_record(fixing);
            let can_end = e.phase == RaiEpochPhase::Closing && e.cut is Some && forall|slot: RaiSlot| #[trigger]
                e.cut->0.contains(slot) ==> e.closed_slots.contains_key(slot);
            &&& !e.records.contains_key(hash) ==> after == s
            &&& e.records.contains_key(hash) ==> {
                &&& after.close.epoch(s.close.current).close_hash == Some(hash)
                &&& after.close.epoch(s.close.current).processed_records.contains(attempt)
                &&& can_end ==> after.close.current == s.close.current + 1 && after.close.epoch(s.close.current).phase
                    == RaiEpochPhase::Closed && after.committees == s.committees.with_close(s.close.current, fixing)
                &&& !can_end ==> after.close.current == s.close.current && after.committees == s.committees
            }
        }),
{
}

/// A member's vote for a cut of the current epoch begins to close it, and starts the attempt
/// if the cut is known, or is all that is visible here; a timeout starts the attempt only while
/// the epoch closes.
pub proof fn cut_votes_begin_the_close(s: Chamber, vote: RaiVote, attempt: RaiCloseAttempt, hash: BlockHash)
    requires
        vote.election_id == (RaiElectionId::CloseCut { epoch: s.close.current, attempt }),
        s.is_seated(vote),
    ensures
        ({
            let before = s.current();
            let after = s.prepared_for_cut(vote).current();
            let known = before.visibility.close_values.contains_key(hash) || visible_hash(before.visibility.visible) == hash;
            &&& vote.value == RaiElectionValue::CloseCutHash(hash) ==> {
                &&& before.phase == RaiEpochPhase::Open ==> after.phase == RaiEpochPhase::Closing
                &&& before.phase != RaiEpochPhase::Open ==> after.phase == before.phase
                &&& known ==> after.visibility.close_values.contains_key(hash)
                &&& known && before.phase != RaiEpochPhase::Closed ==> after.started_cuts.contains(attempt)
                &&& !known ==> after.started_cuts == before.started_cuts
            }
            &&& vote.value is Timeout ==> after.phase == before.phase && (before.phase == RaiEpochPhase::Closing
                ==> after.started_cuts.contains(attempt)) && (before.phase != RaiEpochPhase::Closing ==> after.started_cuts
                == before.started_cuts)
        }),
{
}

/// A vote's answer says whether it was counted, whether its election was still active, and
/// which block it confirmed, if it was counted and the election was not confirmed before.
pub proof fn answers_tell_what_was_confirmed(s: Chamber, vote: RaiVote, committees: Seq<Membership>, after: Chamber)
    ensures
        ({
            let id = vote.election_id;
            let error = s.active.vote_error(vote, committees);
            let report = s.report(vote, committees, after);
            &&& report.result is Ok <==> error is None
            &&& error matches Some(e) ==> report.result == Err::<(), VoteError>(e)
            &&& report.observed <==> s.active.elections.contains_key(id) && s.active.elections[id].status
                == RaiElectionStatus::Active
            &&& report.confirmed matches Some(block) ==> error is None && after.active.elections.contains_key(id)
                && after.active.elections[id].status == RaiElectionStatus::Confirmed
                && after.active.elections[id].confirmed_value == Some(RaiElectionValue::Block(block))
            &&& error is None && s.active.elections.contains_key(id) && s.active.elections[id].status
                == RaiElectionStatus::Active && after.active.elections.contains_key(id) && after.active.elections[id].status
                == RaiElectionStatus::Confirmed ==> (after.active.elections[id].confirmed_value matches Some(
                RaiElectionValue::Block(block),
            ) ==> report.confirmed == Some(block))
        }),
{
}

}
