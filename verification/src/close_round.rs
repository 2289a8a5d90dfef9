//! Rounds of the elections that close an epoch.
use vstd::prelude::*;

use crate::election_vote_state::{no_committees, Committee, ElectionVotes, RaiElectionVoteState, RaiLocalResult};
use crate::ordered::{ascending, Duplicate, SortedMap, SortedSet};
use crate::types::{BlockHash, RaiEpoch};

verus! {

#[derive(Clone, Copy, Debug, PartialEq, Eq, PartialOrd, Ord, Hash, Structural)]
pub enum RaiCloseKind {
    Cut,
    Record,
}

impl DeepView for RaiCloseKind {
    type V = RaiCloseKind;

    open spec fn deep_view(&self) -> RaiCloseKind {
        *self
    }
}

impl Duplicate for RaiCloseKind {
    fn duplicate(&self) -> (r: Self) {
        *self
    }

    fn agrees(&self, other: &Self) -> (r: bool) {
        *self == *other
    }
}

/// Logical identity of one close election. Votes are kept under this identity,
/// so those of different rounds, or of the cut and the record, never mix.
#[derive(Clone, Copy, Debug, PartialEq, Eq, PartialOrd, Ord, Hash, Structural)]
pub struct RaiCloseElectionId {
    pub kind: RaiCloseKind,
    pub epoch: RaiEpoch,
    pub round: u32,
}

impl DeepView for RaiCloseElectionId {
    type V = RaiCloseElectionId;

    open spec fn deep_view(&self) -> RaiCloseElectionId {
        *self
    }
}

impl Duplicate for RaiCloseElectionId {
    fn duplicate(&self) -> (r: Self) {
        *self
    }

    fn agrees(&self, other: &Self) -> (r: bool) {
        *self == *other
    }
}

#[derive(Clone, Copy, Debug, PartialEq, Eq, Structural)]
pub enum RaiCloseRoundResult {
    Pending,
    LiveCarry(BlockHash),
    Dead,
    Decided(BlockHash),
}

impl DeepView for RaiCloseRoundResult {
    type V = RaiCloseRoundResult;

    open spec fn deep_view(&self) -> RaiCloseRoundResult {
        *self
    }
}

impl Duplicate for RaiCloseRoundResult {
    fn duplicate(&self) -> (r: Self) {
        *self
    }

    fn agrees(&self, other: &Self) -> (r: bool) {
        *self == *other
    }
}

#[derive(Clone, Copy, Debug, PartialEq, Eq, Structural)]
pub enum RaiCloseRoundAction {
    Wait,
    StartFresh { round: u32, hash: BlockHash },
    StartCarry { round: u32, hash: BlockHash },
    Inert,
}

impl DeepView for RaiCloseRoundAction {
    type V = RaiCloseRoundAction;

    open spec fn deep_view(&self) -> RaiCloseRoundAction {
        *self
    }
}

impl Duplicate for RaiCloseRoundAction {
    fn duplicate(&self) -> (r: Self) {
        *self
    }

    fn agrees(&self, other: &Self) -> (r: bool) {
        *self == *other
    }
}

/// One round of a close election.
pub struct RaiCloseRoundState {
    pub id: RaiCloseElectionId,
    pub candidates: SortedSet<BlockHash>,
    pub validated_preimages: SortedSet<BlockHash>,
    pub evidence: RaiElectionVoteState,
    pub carried: Option<BlockHash>,
    pub finished: RaiCloseRoundResult,
}

/// The model of one round.
#[verifier::ext_equal]
pub struct CloseRound {
    pub id: RaiCloseElectionId,
    pub candidates: Set<BlockHash>,
    pub validated_preimages: Set<BlockHash>,
    pub evidence: ElectionVotes,
    pub carried: Option<BlockHash>,
    pub finished: RaiCloseRoundResult,
}

impl DeepView for RaiCloseRoundState {
    type V = CloseRound;

    open spec fn deep_view(&self) -> CloseRound {
        CloseRound {
            id: self.id,
            candidates: self.candidates@,
            validated_preimages: self.validated_preimages@,
            evidence: self.evidence.deep_view(),
            carried: self.carried,
            finished: self.finished,
        }
    }
}

impl Duplicate for RaiCloseRoundState {
    fn duplicate(&self) -> (r: Self) {
        RaiCloseRoundState {
            id: self.id,
            candidates: self.candidates.duplicate(),
            validated_preimages: self.validated_preimages.duplicate(),
            evidence: self.evidence.duplicate(),
            carried: self.carried,
            finished: self.finished,
        }
    }

    fn agrees(&self, other: &Self) -> (r: bool) {
        self.id == other.id && self.candidates.agrees(&other.candidates) && self.validated_preimages.agrees(
            &other.validated_preimages,
        ) && self.evidence.agrees(&other.evidence) && self.carried.agrees(&other.carried) && self.finished
            == other.finished
    }
}

/// The block that a committee's result supports.
pub open spec fn backed_by(result: Option<RaiLocalResult>) -> Option<BlockHash> {
    match result {
        Some(RaiLocalResult::Notarized(hash)) => Some(hash),
        Some(RaiLocalResult::Fast(hash)) => Some(hash),
        Some(RaiLocalResult::Final(hash)) => Some(hash),
        Some(RaiLocalResult::Timeout) => None,
        None => None,
    }
}

impl CloseRound {
    /// A round that opens with `hash`.
    pub open spec fn opened(id: RaiCloseElectionId, hash: BlockHash, carried: Option<BlockHash>) -> CloseRound {
        CloseRound {
            id,
            candidates: set![hash],
            validated_preimages: set![hash],
            evidence: no_committees(),
            carried,
            finished: RaiCloseRoundResult::Pending,
        }
    }

    /// The block that committee `i` supports.
    pub open spec fn backed(self, i: int) -> Option<BlockHash> {
        backed_by(self.evidence.committees[i].result())
    }

    /// No global certificate can arise any more: a committee timed out, or two
    /// committees support different blocks.
    pub open spec fn is_dead(self) -> bool {
        let n = self.evidence.committees.len();
        ||| exists|i: int|
            0 <= i < n && (#[trigger] self.evidence.committees[i]).result() == Some(RaiLocalResult::Timeout)
        ||| exists|i: int, j: int|
            0 <= i < n && 0 <= j < n && (#[trigger] self.backed(i)) is Some && (#[trigger] self.backed(j)) is Some
                && self.backed(i) != self.backed(j)
    }

    /// Every committee supports `hash`.
    pub open spec fn is_carried_by_all(self, hash: BlockHash) -> bool {
        let n = self.evidence.committees.len();
        n > 0 && forall|i: int| 0 <= i < n ==> #[trigger] self.backed(i) == Some(hash)
    }

    /// Committee `i` has a final certificate.
    pub open spec fn is_final(self, i: int) -> bool {
        self.evidence.committees[i].result() matches Some(RaiLocalResult::Final(_))
    }

    /// Every committee has a final certificate.
    pub open spec fn is_final_in_all(self) -> bool {
        forall|i: int| 0 <= i < self.evidence.committees.len() ==> #[trigger] self.is_final(i)
    }

    /// The result that follows from the stored votes. A decision stands. A
    /// value that every committee finalizes is decided, one that every
    /// committee at least notarizes is carried.
    pub open spec fn derived(self) -> RaiCloseRoundResult {
        if self.finished is Decided {
            self.finished
        } else if self.is_dead() {
            RaiCloseRoundResult::Dead
        } else if exists|hash: BlockHash| self.is_carried_by_all(hash) {
            if self.is_final_in_all() {
                RaiCloseRoundResult::Decided(self.backed(0)->0)
            } else {
                RaiCloseRoundResult::LiveCarry(self.backed(0)->0)
            }
        } else {
            RaiCloseRoundResult::Pending
        }
    }
}

impl RaiCloseRoundState {
    fn new(id: RaiCloseElectionId, hash: BlockHash, carried: Option<BlockHash>) -> (r: Self)
        ensures
            r.deep_view() == CloseRound::opened(id, hash, carried),
    {
        let mut candidates: SortedSet<BlockHash> = SortedSet::new();
        candidates.insert(hash);
        let mut validated_preimages: SortedSet<BlockHash> = SortedSet::new();
        validated_preimages.insert(hash);
        let r = RaiCloseRoundState {
            id,
            candidates,
            validated_preimages,
            evidence: RaiElectionVoteState::default(),
            carried,
            finished: RaiCloseRoundResult::Pending,
        };
        proof {
            assert(r.candidates@ =~= set![hash]);
            assert(r.validated_preimages@ =~= set![hash]);
        }
        r
    }

    /// Recomputes the result solely from the stored votes. A timeout in any
    /// committee, or two committees that support different blocks, exclude
    /// every present or delayed certificate of all committees. A final
    /// certificate of every committee for the same block decides.
    pub fn derive(&self) -> (r: RaiCloseRoundResult)
        ensures
            r == self.deep_view().derived(),
    {
        if let RaiCloseRoundResult::Decided(hash) = self.finished {
            return RaiCloseRoundResult::Decided(hash);
        }
        let ghost m = self.deep_view();
        let n: usize = self.evidence.committees.len();
        let mut supported: Option<BlockHash> = None;
        let mut split = false;
        let mut terminal: usize = 0;
        let mut all_final = true;
        for i in 0..n
            invariant
                all_final == (forall|j: int| 0 <= j < i ==> #[trigger] m.is_final(j)),
                m == self.deep_view(),
                n == m.evidence.committees.len(),
                terminal <= i,
                (terminal == 0) == (supported is None),
                forall|j: int| 0 <= j < i ==> (#[trigger] m.evidence.committees[j]).result() != Some(
                    RaiLocalResult::Timeout,
                ),
                (terminal == i) == (forall|j: int| 0 <= j < i ==> (#[trigger] m.backed(j)) is Some),
                supported is Some ==> exists|j: int| 0 <= j < i && #[trigger] m.backed(j) == supported,
                !split ==> forall|j: int|
                    0 <= j < i && (#[trigger] m.backed(j)) is Some ==> m.backed(j) == supported,
                split ==> exists|j: int, k: int|
                    0 <= j < i && 0 <= k < i && (#[trigger] m.backed(j)) is Some && (#[trigger] m.backed(k)) is Some
                        && m.backed(j) != m.backed(k),
                !(m.finished is Decided),
        {
            let result = self.evidence.local_result(i);
            proof {
                assert(m.evidence.committees[i as int].result() == result);
                assert(m.backed(i as int) == backed_by(result));
            }
            match result {
                Some(RaiLocalResult::Final(_)) => {
                    proof {
                        assert(m.is_final(i as int));
                    }
                },
                _ => {
                    all_final = false;
                    proof {
                        assert(!m.is_final(i as int));
                    }
                },
            }
            let backed = match result {
                Some(RaiLocalResult::Timeout) => return RaiCloseRoundResult::Dead,
                Some(RaiLocalResult::Notarized(hash)) => Some(hash),
                Some(RaiLocalResult::Fast(hash)) => Some(hash),
                Some(RaiLocalResult::Final(hash)) => Some(hash),
                None => None,
            };
            if let Some(hash) = backed {
                match supported {
                    Some(earlier) => {
                        if earlier != hash {
                            split = true;
                        }
                    },
                    None => {
                        supported = Some(hash);
                    },
                }
                terminal = terminal + 1;
            }
        }
        if split {
            return RaiCloseRoundResult::Dead;
        }
        proof {
            assert(!m.is_dead());
        }
        match supported {
            Some(hash) => {
                if terminal == n {
                    proof {
                        assert(m.backed(0) == supported);
                        assert(m.is_carried_by_all(hash));
                    }
                    if all_final {
                        return RaiCloseRoundResult::Decided(hash);
                    }
                    RaiCloseRoundResult::LiveCarry(hash)
                } else {
                    proof {
                        if exists|h: BlockHash| m.is_carried_by_all(h) {
                            let h = choose|h: BlockHash| m.is_carried_by_all(h);
                            assert(forall|j: int| 0 <= j < n ==> (#[trigger] m.backed(j)) is Some);
                        }
                    }
                    RaiCloseRoundResult::Pending
                }
            },
            None => {
                proof {
                    if exists|h: BlockHash| m.is_carried_by_all(h) {
                        let h = choose|h: BlockHash| m.is_carried_by_all(h);
                        assert(m.backed(0) == Some(h));
                    }
                }
                RaiCloseRoundResult::Pending
            },
        }
    }
}

/// All rounds of one close election.
pub struct RaiCloseRoundTracker {
    kind: RaiCloseKind,
    epoch: RaiEpoch,
    current_round: u32,
    rounds: SortedMap<u32, RaiCloseRoundState>,
    decision: Option<(u32, BlockHash)>,
}

/// The model of all rounds of one close election.
#[verifier::ext_equal]
pub struct CloseRounds {
    pub kind: RaiCloseKind,
    pub epoch: RaiEpoch,
    pub current_round: u32,
    pub rounds: Map<u32, CloseRound>,
    pub decision: Option<(u32, BlockHash)>,
}

impl View for RaiCloseRoundTracker {
    type V = CloseRounds;

    closed spec fn view(&self) -> CloseRounds {
        CloseRounds {
            kind: self.kind,
            epoch: self.epoch,
            current_round: self.current_round,
            rounds: self.rounds@,
            decision: self.decision,
        }
    }
}

impl DeepView for RaiCloseRoundTracker {
    type V = CloseRounds;

    open spec fn deep_view(&self) -> CloseRounds {
        self.view()
    }
}

impl CloseRounds {
    /// Every round stands under its own identity and keeps its opening. The
    /// first round is number zero, the current round exists once any does, and
    /// a decision is one that its round has validated and is finished with.
    pub open spec fn well_formed(self) -> bool {
        &&& self.rounds.dom().finite()
        &&& forall|round: u32| #[trigger]
            self.rounds.contains_key(round) ==> {
                &&& self.rounds[round].id == self.id(round)
                &&& self.rounds[round].validated_preimages != Set::<BlockHash>::empty()
                &&& self.rounds[round].validated_preimages.subset_of(self.rounds[round].candidates)
                &&& self.rounds.contains_key(self.current_round)
            }
        &&& !self.rounds.contains_key(self.current_round) ==> self.current_round == 0
        &&& self.decision matches Some((round, hash)) ==> {
            &&& self.rounds.contains_key(round)
            &&& self.rounds[round].validated_preimages.contains(hash)
            &&& self.rounds[round].finished == RaiCloseRoundResult::Decided(hash)
        }
    }

    pub open spec fn fresh(kind: RaiCloseKind, epoch: RaiEpoch) -> CloseRounds {
        CloseRounds { kind, epoch, current_round: 0, rounds: Map::empty(), decision: None }
    }

    pub open spec fn id(self, round: u32) -> RaiCloseElectionId {
        RaiCloseElectionId { kind: self.kind, epoch: self.epoch, round }
    }

    /// The rounds after round zero was opened, unless it was before.
    pub open spec fn with_round_zero(self, hash: BlockHash) -> CloseRounds {
        if self.decision is Some || self.rounds.contains_key(0) {
            self
        } else {
            CloseRounds {
                rounds: self.rounds.insert(0, CloseRound::opened(self.id(0), hash, None)),
                ..self
            }
        }
    }

    /// What the current round hands to its successor: the value that every
    /// committee supports, if its content is known; a fresh one after a dead
    /// round; nothing yet otherwise.
    pub open spec fn opening(self, fresh: BlockHash) -> Option<(BlockHash, Option<BlockHash>)> {
        let source = self.rounds[self.current_round];
        match source.derived() {
            RaiCloseRoundResult::Dead => Some((fresh, None)),
            RaiCloseRoundResult::LiveCarry(hash) => if source.validated_preimages.contains(hash) {
                Some((hash, Some(hash)))
            } else {
                None
            },
            RaiCloseRoundResult::Pending => None,
            RaiCloseRoundResult::Decided(_) => None,
        }
    }

    /// The action that the tracker asks for next.
    pub open spec fn next_action(self, fresh: BlockHash) -> RaiCloseRoundAction {
        if self.decision is Some {
            RaiCloseRoundAction::Inert
        } else if !self.rounds.contains_key(self.current_round) {
            RaiCloseRoundAction::StartFresh { round: 0, hash: fresh }
        } else if self.current_round == u32::MAX {
            RaiCloseRoundAction::Wait
        } else if self.rounds[self.current_round].derived() is Decided {
            RaiCloseRoundAction::Inert
        } else {
            let round = (self.current_round + 1) as u32;
            match self.opening(fresh) {
                None => RaiCloseRoundAction::Wait,
                Some((hash, carried)) => {
                    // A successor that is already open keeps its own opening.
                    let opened = self.rounds.contains_key(round);
                    let hash = if opened {
                        ascending(self.rounds[round].validated_preimages)[0]
                    } else {
                        hash
                    };
                    let carried = if opened {
                        self.rounds[round].carried
                    } else {
                        carried
                    };
                    if carried is Some {
                        RaiCloseRoundAction::StartCarry { round, hash }
                    } else {
                        RaiCloseRoundAction::StartFresh { round, hash }
                    }
                },
            }
        }
    }

    /// The rounds after that action.
    pub open spec fn after_next(self, fresh: BlockHash) -> CloseRounds {
        let round = (self.current_round + 1) as u32;
        if self.decision is Some {
            self
        } else if !self.rounds.contains_key(self.current_round) {
            self.with_round_zero(fresh)
        } else if self.current_round == u32::MAX || self.rounds.contains_key(round) {
            self
        } else {
            match self.opening(fresh) {
                None => self,
                Some((hash, carried)) => CloseRounds {
                    current_round: round,
                    rounds: self.rounds.insert(round, CloseRound::opened(self.id(round), hash, carried)),
                    ..self
                },
            }
        }
    }

    /// Whether the round may store votes.
    pub open spec fn takes_evidence(self, round: u32) -> bool {
        self.rounds.contains_key(round) && self.decision is None
    }

    /// What follows from the votes of a round follows from the latest ones alone.
    pub open spec fn with_evidence(self, round: u32, evidence: ElectionVotes) -> CloseRounds {
        let state = CloseRound { evidence, finished: RaiCloseRoundResult::Pending, ..self.rounds[round] };
        CloseRounds {
            rounds: self.rounds.insert(round, CloseRound { finished: state.derived(), ..state }),
            ..self
        }
    }

    pub open spec fn with_preimage(self, round: u32, hash: BlockHash) -> CloseRounds {
        let state = self.rounds[round];
        CloseRounds {
            rounds: self.rounds.insert(
                round,
                CloseRound {
                    candidates: state.candidates.insert(hash),
                    validated_preimages: state.validated_preimages.insert(hash),
                    ..state
                },
            ),
            ..self
        }
    }

    /// Whether the value can be decided in the round.
    pub open spec fn can_decide(self, round: u32, hash: BlockHash) -> bool {
        self.rounds.contains_key(round) && self.rounds[round].validated_preimages.contains(hash)
    }

    pub open spec fn with_decision(self, round: u32, hash: BlockHash) -> CloseRounds {
        CloseRounds {
            rounds: self.rounds.insert(
                round,
                CloseRound { finished: RaiCloseRoundResult::Decided(hash), ..self.rounds[round] },
            ),
            decision: Some((round, hash)),
            ..self
        }
    }
}

impl RaiCloseRoundTracker {
    #[verifier::type_invariant]
    spec fn is_well_formed(&self) -> bool {
        self.view().well_formed()
    }

    pub fn new(kind: RaiCloseKind, epoch: RaiEpoch) -> (r: Self)
        ensures
            r@ == CloseRounds::fresh(kind, epoch),
    {
        let rounds: SortedMap<u32, RaiCloseRoundState> = SortedMap::new();
        RaiCloseRoundTracker { kind, epoch, current_round: 0, rounds, decision: None }
    }

    pub fn current_round(&self) -> (r: u32)
        ensures
            r == self@.current_round,
            self@.well_formed(),
    {
        proof {
            use_type_invariant(self);
        }
        self.current_round
    }

    pub fn round(&self, round: u32) -> (r: Option<&RaiCloseRoundState>)
        ensures
            match r {
                Some(state) => self@.rounds.contains_key(round) && state.deep_view() == self@.rounds[round],
                None => !self@.rounds.contains_key(round),
            },
    {
        self.rounds.get(&round)
    }

    pub fn decision(&self) -> (r: Option<(u32, BlockHash)>)
        ensures
            r == self@.decision,
            self@.well_formed(),
    {
        proof {
            use_type_invariant(self);
        }
        self.decision
    }

    pub fn snapshot(&self) -> (r: Self)
        ensures
            r@ == self@,
    {
        self.duplicate()
    }

    /// Takes up a snapshot whose current round is open.
    pub fn from_snapshot(snapshot: Self) -> (r: Option<Self>)
        ensures
            match r {
                Some(tracker) => tracker@ == snapshot@ && snapshot@.rounds.contains_key(snapshot@.current_round),
                None => !snapshot@.rounds.contains_key(snapshot@.current_round),
            },
    {
        proof {
            use_type_invariant(&snapshot);
        }
        match snapshot.rounds.get(&snapshot.current_round) {
            None => {
                return None;
            },
            Some(current) => {
                if current.id.kind != snapshot.kind || current.id.epoch != snapshot.epoch || current.id.round
                    != snapshot.current_round || current.validated_preimages.is_empty() {
                    return None;
                }
            },
        }
        Some(snapshot)
    }

    /// Takes an earlier round up again, as after a replayed event. Returns
    /// whether the round is known.
    pub fn replay_from(&mut self, round: u32) -> (r: bool)
        ensures
            r == old(self)@.rounds.contains_key(round),
            final(self)@ == if r {
                CloseRounds { current_round: round, ..old(self)@ }
            } else {
                old(self)@
            },
    {
        proof {
            use_type_invariant(&*self);
        }
        if !self.rounds.contains_key(&round) {
            return false;
        }
        self.current_round = round;
        true
    }

    fn insert_round(&mut self, round: u32, current: u32, state: RaiCloseRoundState)
        requires
            ({
                let after = CloseRounds {
                    current_round: current,
                    rounds: old(self)@.rounds.insert(round, state.deep_view()),
                    ..old(self)@
                };
                after.well_formed()
            }),
        ensures
            final(self)@ == (CloseRounds {
                current_round: current,
                rounds: old(self)@.rounds.insert(round, state.deep_view()),
                ..old(self)@
            }),
    {
        let mut taken = RaiCloseRoundTracker::new(self.kind, self.epoch);
        core::mem::swap(&mut taken, self);
        let RaiCloseRoundTracker { kind, epoch, current_round: _, mut rounds, decision } = taken;
        rounds.insert(round, state);
        *self = RaiCloseRoundTracker { kind, epoch, current_round: current, rounds, decision };
    }

    pub fn start_round_zero(&mut self, hash: BlockHash) -> (r: RaiCloseRoundAction)
        ensures
            final(self)@ == old(self)@.with_round_zero(hash),
            r == if old(self)@.decision is Some {
                RaiCloseRoundAction::Inert
            } else {
                RaiCloseRoundAction::StartFresh { round: 0, hash }
            },
    {
        proof {
            use_type_invariant(&*self);
        }
        if self.decision.is_some() {
            return RaiCloseRoundAction::Inert;
        }
        if !self.rounds.contains_key(&0) {
            let id = RaiCloseElectionId { kind: self.kind, epoch: self.epoch, round: 0 };
            let state = RaiCloseRoundState::new(id, hash, None);
            let current: u32 = self.current_round;
            proof {
                lemma_open_round(self@, 0, current, state.deep_view(), hash);
            }
            self.insert_round(0, current, state);
        }
        RaiCloseRoundAction::StartFresh { round: 0, hash }
    }

    /// Stores the votes of a round and what follows from them.
    pub fn store_evidence(&mut self, round: u32, evidence: RaiElectionVoteState) -> (r: bool)
        ensures
            r == old(self)@.takes_evidence(round),
            final(self)@ == if r {
                old(self)@.with_evidence(round, evidence.deep_view())
            } else {
                old(self)@
            },
    {
        proof {
            use_type_invariant(&*self);
        }
        if self.decision.is_some() {
            return false;
        }
        let mut state = match self.rounds.get(&round) {
            Some(state) => state.duplicate(),
            None => return false,
        };
        state.evidence = evidence;
        state.finished = RaiCloseRoundResult::Pending;
        state.finished = state.derive();
        let current: u32 = self.current_round;
        self.insert_round(round, current, state);
        true
    }

    /// Adds a value whose content is known; reports whether it is new.
    pub fn add_validated_preimage(&mut self, round: u32, hash: BlockHash) -> (r: bool)
        ensures
            r == (old(self)@.rounds.contains_key(round)
                && !old(self)@.rounds[round].validated_preimages.contains(hash)),
            final(self)@ == if old(self)@.rounds.contains_key(round) {
                old(self)@.with_preimage(round, hash)
            } else {
                old(self)@
            },
    {
        proof {
            use_type_invariant(&*self);
        }
        let mut state = match self.rounds.get(&round) {
            Some(state) => state.duplicate(),
            None => return false,
        };
        state.candidates.insert(hash);
        let added = state.validated_preimages.insert(hash);
        let current: u32 = self.current_round;
        proof {
            let after = state.deep_view();
            assert(after.validated_preimages.contains(hash));
        }
        self.insert_round(round, current, state);
        added
    }

    /// Opens the next round where the current one allows it.
    pub fn next(&mut self, fresh: BlockHash) -> (r: RaiCloseRoundAction)
        ensures
            r == old(self)@.next_action(fresh),
            final(self)@ == old(self)@.after_next(fresh),
    {
        proof {
            use_type_invariant(&*self);
        }
        if self.decision.is_some() {
            return RaiCloseRoundAction::Inert;
        }
        let source = match self.rounds.get(&self.current_round) {
            Some(source) => source,
            None => return self.start_round_zero(fresh),
        };
        let derived = source.derive();
        let next_round: u32 = match self.current_round.checked_add(1) {
            Some(round) => round,
            None => return RaiCloseRoundAction::Wait,
        };
        let (hash, carried) = match derived {
            RaiCloseRoundResult::Dead => (fresh, None),
            RaiCloseRoundResult::LiveCarry(hash) => {
                if source.validated_preimages.contains(&hash) {
                    (hash, Some(hash))
                } else {
                    return RaiCloseRoundAction::Wait;
                }
            },
            RaiCloseRoundResult::Pending => return RaiCloseRoundAction::Wait,
            RaiCloseRoundResult::Decided(_) => return RaiCloseRoundAction::Inert,
        };
        if let Some(existing) = self.rounds.get(&next_round) {
            // A transition that was made before is repeated with the value
            // that opened the successor, not with a newly computed one.
            proof {
                assert(self@.rounds[next_round].validated_preimages == existing.validated_preimages@);
            }
            let count: usize = existing.validated_preimages.len();
            let existing_hash = existing.validated_preimages.at(0);
            return if existing.carried.is_some() {
                RaiCloseRoundAction::StartCarry { round: next_round, hash: existing_hash }
            } else {
                RaiCloseRoundAction::StartFresh { round: next_round, hash: existing_hash }
            };
        }
        let id = RaiCloseElectionId { kind: self.kind, epoch: self.epoch, round: next_round };
        let state = RaiCloseRoundState::new(id, hash, carried);
        proof {
            lemma_open_round(self@, next_round, next_round, state.deep_view(), hash);
        }
        self.insert_round(next_round, next_round, state);
        if carried.is_some() {
            RaiCloseRoundAction::StartCarry { round: next_round, hash }
        } else {
            RaiCloseRoundAction::StartFresh { round: next_round, hash }
        }
    }

    /// Decides a value whose content is known. The first decision stands.
    pub fn decide(&mut self, round: u32, hash: BlockHash) -> (r: bool)
        ensures
            match old(self)@.decision {
                Some(existing) => r == (existing == (round, hash)) && final(self)@ == old(self)@,
                None => {
                    &&& r == old(self)@.can_decide(round, hash)
                    &&& final(self)@ == if r {
                        old(self)@.with_decision(round, hash)
                    } else {
                        old(self)@
                    }
                },
            },
    {
        proof {
            use_type_invariant(&*self);
        }
        if let Some(existing) = self.decision {
            return existing.0 == round && existing.1 == hash;
        }
        let mut state = match self.rounds.get(&round) {
            Some(state) => state.duplicate(),
            None => return false,
        };
        if !state.validated_preimages.contains(&hash) {
            return false;
        }
        state.finished = RaiCloseRoundResult::Decided(hash);
        let mut taken = RaiCloseRoundTracker::new(self.kind, self.epoch);
        core::mem::swap(&mut taken, self);
        let RaiCloseRoundTracker { kind, epoch, current_round, mut rounds, decision: _ } = taken;
        rounds.insert(round, state);
        *self = RaiCloseRoundTracker { kind, epoch, current_round, rounds, decision: Some((round, hash)) };
        true
    }
}

impl Duplicate for RaiCloseRoundTracker {
    fn duplicate(&self) -> (r: Self) {
        proof {
            use_type_invariant(self);
        }
        RaiCloseRoundTracker {
            kind: self.kind,
            epoch: self.epoch,
            current_round: self.current_round,
            rounds: self.rounds.duplicate(),
            decision: self.decision,
        }
    }

    fn agrees(&self, other: &Self) -> (r: bool) {
        let same_decision = match (self.decision, other.decision) {
            (Some(a), Some(b)) => a.0 == b.0 && a.1 == b.1,
            (None, None) => true,
            _ => false,
        };
        self.kind == other.kind && self.epoch == other.epoch && self.current_round == other.current_round
            && self.rounds.agrees(&other.rounds) && same_decision
    }
}

proof fn lemma_open_round(m: CloseRounds, round: u32, current: u32, state: CloseRound, hash: BlockHash)
    requires
        m.well_formed(),
        !m.rounds.contains_key(round),
        state.id == m.id(round),
        state.candidates == set![hash],
        state.validated_preimages == set![hash],
        current == round || (current == m.current_round && m.rounds.contains_key(current)) || (current == 0
            && round == 0),
    ensures
        (CloseRounds { current_round: current, rounds: m.rounds.insert(round, state), ..m }).well_formed(),
{
    let after = CloseRounds { current_round: current, rounds: m.rounds.insert(round, state), ..m };
    assert(state.validated_preimages.contains(hash));
    assert forall|r: u32| #[trigger] after.rounds.contains_key(r) implies {
        &&& after.rounds[r].id == after.id(r)
        &&& after.rounds[r].validated_preimages != Set::<BlockHash>::empty()
        &&& after.rounds[r].validated_preimages.subset_of(after.rounds[r].candidates)
        &&& after.rounds.contains_key(after.current_round)
    } by {
        if r != round {
            assert(m.rounds.contains_key(r));
        }
    }
}

/// Once decided, a close election never changes again: no round opens, no votes
/// are stored, and only the decided value is acknowledged.
pub proof fn decision_is_final(m: CloseRounds, round: u32, hash: BlockHash)
    requires
        m.decision is Some,
    ensures
        m.next_action(hash) == RaiCloseRoundAction::Inert,
        m.after_next(hash) == m,
        m.with_round_zero(hash) == m,
        !m.takes_evidence(round),
{
}

/// Repeating a transition whose successor is already open does not depend on
/// the value that the caller would prefer now, and changes nothing.
pub proof fn repeated_transition_keeps_opening(m: CloseRounds, a: BlockHash, b: BlockHash)
    requires
        m.well_formed(),
        m.current_round < u32::MAX,
        m.rounds.contains_key((m.current_round + 1) as u32),
    ensures
        m.next_action(a) == m.next_action(b),
        m.after_next(a) == m,
{
    assert(m.rounds.contains_key(m.current_round));
}

/// A round opens with a carried value only if every committee of the round
/// before supports it and its content is known.
pub proof fn carried_value_is_supported(m: CloseRounds, fresh: BlockHash, round: u32, hash: BlockHash)
    requires
        m.well_formed(),
        !m.rounds.contains_key(round),
        m.next_action(fresh) == (RaiCloseRoundAction::StartCarry { round, hash }),
    ensures
        m.rounds[m.current_round].is_carried_by_all(hash),
        m.rounds[m.current_round].validated_preimages.contains(hash),
        !m.rounds[m.current_round].is_dead(),
{
    let source = m.rounds[m.current_round];
    let h = choose|h: BlockHash| source.is_carried_by_all(h);
    assert(source.backed(0) == Some(h));
}

/// What a round's evidence comes to, from the results of its committees. It is dead
/// exactly if a committee timed out or two stand behind different hashes; decided
/// exactly if all of them have a final certificate for one hash; carried on exactly
/// if all stand behind one hash but not all of them finally.
pub proof fn committees_settle_the_round(r: CloseRound, hash: BlockHash)
    requires
        !(r.finished is Decided),
    ensures
        ({
            let all = r.evidence.committees;
            let dead = (exists|i: int|
                0 <= i < all.len() && (#[trigger] all[i]).result() == Some(RaiLocalResult::Timeout)) || (exists|
                i: int,
                j: int,
            |
                0 <= i < all.len() && 0 <= j < all.len() && stand_apart(#[trigger] all[i], #[trigger] all[j]));
            &&& r.derived() == RaiCloseRoundResult::Dead <==> dead
            &&& r.derived() == RaiCloseRoundResult::Decided(hash) <==> all.len() > 0 && forall|i: int|
                0 <= i < all.len() ==> (#[trigger] all[i]).result() == Some(RaiLocalResult::Final(hash))
            &&& r.derived() == RaiCloseRoundResult::LiveCarry(hash) <==> all.len() > 0 && (forall|i: int|
                0 <= i < all.len() ==> stands_behind(#[trigger] all[i], hash)) && exists|i: int|
                0 <= i < all.len() && (#[trigger] all[i]).result() != Some(RaiLocalResult::Final(hash))
        }),
{
    let all = r.evidence.committees;
    assert forall|i: int, h: BlockHash| 0 <= i < all.len() implies (#[trigger] stands_behind(all[i], h) <==> r.backed(i)
        == Some(h)) by {
    }
    if r.is_dead() {
        if exists|i: int| 0 <= i < all.len() && (#[trigger] all[i]).result() == Some(RaiLocalResult::Timeout) {
        } else {
            let (i, j) = choose|i: int, j: int|
                0 <= i < all.len() && 0 <= j < all.len() && (#[trigger] r.backed(i)) is Some && (#[trigger] r.backed(j)) is Some
                    && r.backed(i) != r.backed(j);
            assert(stands_behind(all[i], r.backed(i)->0));
            assert(stands_behind(all[j], r.backed(j)->0));
            assert(stand_apart(all[i], all[j]));
        }
    }
    if exists|i: int, j: int|
        0 <= i < all.len() && 0 <= j < all.len() && stand_apart(#[trigger] all[i], #[trigger] all[j]) {
        let (i, j) = choose|i: int, j: int|
            0 <= i < all.len() && 0 <= j < all.len() && stand_apart(#[trigger] all[i], #[trigger] all[j]);
        let (a, b) = choose|a: BlockHash, b: BlockHash|
            a != b && #[trigger] stands_behind(all[i], a) && #[trigger] stands_behind(all[j], b);
        assert(r.backed(i) == Some(a) && r.backed(j) == Some(b));
        assert(r.is_dead());
    }
    if all.len() > 0 && forall|i: int| 0 <= i < all.len() ==> stands_behind(#[trigger] all[i], hash) {
        assert forall|i: int| 0 <= i < all.len() implies #[trigger] r.backed(i) == Some(hash) by {
            assert(stands_behind(all[i], hash));
        }
        assert(r.is_carried_by_all(hash));
        assert(!r.is_dead());
        assert(r.backed(0) == Some(hash));
        assert forall|i: int| 0 <= i < all.len() implies (r.is_final(i) <==> (#[trigger] all[i]).result() == Some(
            RaiLocalResult::Final(hash),
        )) by {
            assert(r.backed(i) == Some(hash));
        }
        if r.is_final_in_all() {
            assert forall|i: int| 0 <= i < all.len() implies (#[trigger] all[i]).result() == Some(
                RaiLocalResult::Final(hash),
            ) by {
                assert(r.is_final(i));
            }
        } else {
            let i = choose|i: int| 0 <= i < all.len() && !#[trigger] r.is_final(i);
            assert(all[i].result() != Some(RaiLocalResult::Final(hash)));
        }
    }
    if r.derived() == RaiCloseRoundResult::Decided(hash) || r.derived() == RaiCloseRoundResult::LiveCarry(hash) {
        let h = choose|h: BlockHash| r.is_carried_by_all(h);
        assert(r.backed(0) == Some(h));
        assert(h == hash);
        assert forall|i: int| 0 <= i < all.len() implies stands_behind(#[trigger] all[i], hash) by {
            assert(r.backed(i) == Some(hash));
        }
    }
    if all.len() > 0 && forall|i: int|
        0 <= i < all.len() ==> (#[trigger] all[i]).result() == Some(RaiLocalResult::Final(hash)) {
        assert forall|i: int| 0 <= i < all.len() implies stands_behind(#[trigger] all[i], hash) by {
        }
    }
}

/// The committee has a certificate for the hash and none against it.
pub open spec fn stands_behind(c: Committee, hash: BlockHash) -> bool {
    ||| c.result() == Some(RaiLocalResult::Notarized(hash))
    ||| c.result() == Some(RaiLocalResult::Fast(hash))
    ||| c.result() == Some(RaiLocalResult::Final(hash))
}

/// The committees stand behind different hashes.
pub open spec fn stand_apart(c: Committee, d: Committee) -> bool {
    exists|a: BlockHash, b: BlockHash| a != b && #[trigger] stands_behind(c, a) && #[trigger] stands_behind(d, b)
}

/// A dead round is followed by a fresh one with the hash at hand, and a round that
/// all stand behind by one that carries its hash on, once its preimage is checked.
/// A pending round is waited for; once something is decided nothing follows.
pub proof fn rounds_follow_one_another(m: CloseRounds, fresh: BlockHash)
    requires
        m.decision is None,
        m.rounds.contains_key(m.current_round),
        m.current_round < u32::MAX,
        !m.rounds.contains_key((m.current_round + 1) as u32),
    ensures
        ({
            let source = m.rounds[m.current_round];
            let round = (m.current_round + 1) as u32;
            let after = m.after_next(fresh);
            let action = m.next_action(fresh);
            &&& source.derived() is Dead ==> {
                &&& action == (RaiCloseRoundAction::StartFresh { round, hash: fresh })
                &&& after.current_round == round
                &&& after.rounds.contains_key(round)
                &&& after.rounds[round].carried is None
                &&& after.rounds[round].candidates == set![fresh]
                &&& after.rounds[round].validated_preimages == set![fresh]
                &&& after.rounds[round].evidence.committees.len() == 0
                &&& after.rounds[round].id == (RaiCloseElectionId { kind: m.kind, epoch: m.epoch, round })
            }
            &&& source.derived() matches RaiCloseRoundResult::LiveCarry(hash) ==> if source.validated_preimages.contains(hash) {
                &&& action == (RaiCloseRoundAction::StartCarry { round, hash })
                &&& after.current_round == round
                &&& after.rounds.contains_key(round)
                &&& after.rounds[round].carried == Some(hash)
                &&& after.rounds[round].candidates == set![hash]
                &&& after.rounds[round].validated_preimages == set![hash]
            } else {
                action == RaiCloseRoundAction::Wait && after == m
            }
            &&& source.derived() is Pending ==> action == RaiCloseRoundAction::Wait && after == m
            &&& source.derived() is Decided ==> action == RaiCloseRoundAction::Inert && after == m
            &&& forall|r: u32| #[trigger]
                m.rounds.contains_key(r) ==> after.rounds.contains_key(r) && after.rounds[r] == m.rounds[r]
            &&& after.decision is None
        }),
{
}

/// The first round opens with the hash at hand, and only once.
pub proof fn first_round_opens_once(m: CloseRounds, fresh: BlockHash, other: BlockHash)
    requires
        m.decision is None,
        !m.rounds.contains_key(0),
        m.current_round == 0,
    ensures
        m.next_action(fresh) == (RaiCloseRoundAction::StartFresh { round: 0, hash: fresh }),
        ({
            let after = m.with_round_zero(fresh);
            &&& after == m.after_next(fresh)
            &&& after.rounds.contains_key(0)
            &&& after.rounds[0].candidates == set![fresh]
            &&& after.rounds[0].validated_preimages == set![fresh]
            &&& after.rounds[0].carried is None
            &&& after.rounds[0].finished is Pending
            &&& after.with_round_zero(other) == after
        }),
{
}

/// Evidence is taken for a round that is open while nothing is decided; it replaces
/// the round's earlier evidence and settles the round anew.
pub proof fn new_evidence_settles_anew(m: CloseRounds, round: u32, evidence: ElectionVotes, other: u32)
    requires
        m.rounds.contains_key(round),
    ensures
        m.takes_evidence(round) <==> m.decision is None,
        ({
            let after = m.with_evidence(round, evidence);
            &&& after.rounds[round].evidence == evidence
            &&& after.rounds[round].candidates == m.rounds[round].candidates
            &&& after.rounds[round].finished == (CloseRound {
                evidence,
                finished: RaiCloseRoundResult::Pending,
                ..m.rounds[round]
            }).derived()
            &&& other != round && m.rounds.contains_key(other) ==> after.rounds[other] == m.rounds[other]
            &&& after.current_round == m.current_round && after.decision == m.decision
        }),
{
}

/// A checked hash becomes a candidate of its round, and nothing else changes there.
pub proof fn checked_hash_is_a_candidate(m: CloseRounds, round: u32, hash: BlockHash, other: BlockHash)
    requires
        m.rounds.contains_key(round),
    ensures
        ({
            let after = m.with_preimage(round, hash).rounds[round];
            &&& after.candidates.contains(other) <==> m.rounds[round].candidates.contains(other) || other == hash
            &&& after.validated_preimages.contains(other) <==> m.rounds[round].validated_preimages.contains(other) || other == hash
            &&& after.evidence == m.rounds[round].evidence && after.carried == m.rounds[round].carried && after.finished
                == m.rounds[round].finished
            &&& m.with_preimage(round, hash).can_decide(round, hash)
        }),
{
}

/// A hash is decided in a round that is open and has checked it, and in no other.
pub proof fn only_checked_hashes_are_decided(m: CloseRounds, round: u32, hash: BlockHash)
    ensures
        m.can_decide(round, hash) <==> m.rounds.contains_key(round) && m.rounds[round].validated_preimages.contains(hash),
        m.can_decide(round, hash) ==> m.with_decision(round, hash).decision == Some((round, hash)) && m.with_decision(
            round,
            hash,
        ).rounds[round].finished == RaiCloseRoundResult::Decided(hash) && m.with_decision(round, hash).current_round
            == m.current_round,
{
}

}
