//! Votes of one election, counted by each committee that takes part in it.
use std::sync::Arc;

use vstd::prelude::*;

use crate::ordered::{
    ascending, lemma_ascending, lemma_take_distinct, lemma_take_set, members_of, Atom, Duplicate, Key, SortedMap, SortedSet,
};
use crate::rep_weights::{
    lemma_weight_monotonic, lemma_weight_split, lemma_weight_union, tally, total_weight, weight_of, RepWeights,
};
use crate::types::{Amount, BlockHash, PublicKey, RaiCommitteeScope, RaiVotePhase};

verus! {

/// What a vote supports: a block, or that the election should time out.
#[derive(Clone, Copy, Debug, PartialEq, Eq, PartialOrd, Ord, Hash, Structural)]
pub enum BlockHashOrTimeout {
    Block(BlockHash),
    Timeout,
}

impl Key for BlockHashOrTimeout {
    open spec fn rank(self) -> int {
        match self {
            BlockHashOrTimeout::Block(hash) => hash.rank(),
            BlockHashOrTimeout::Timeout => BlockHash::span(),
        }
    }

    open spec fn span() -> int {
        BlockHash::span() + 1
    }

    proof fn rank_in_span(self) {
        match self {
            BlockHashOrTimeout::Block(hash) => {
                hash.rank_in_span();
            },
            BlockHashOrTimeout::Timeout => {
                (BlockHash { hi: 0, lo: 0 }).rank_in_span();
            },
        }
    }

    proof fn rank_is_injective(a: Self, b: Self) {
        if let BlockHashOrTimeout::Block(x) = a {
            x.rank_in_span();
            if let BlockHashOrTimeout::Block(y) = b {
                BlockHash::rank_is_injective(x, y);
            }
        }
        if let BlockHashOrTimeout::Block(y) = b {
            y.rank_in_span();
        }
    }

    fn precedes(&self, other: &Self) -> (r: bool) {
        match (self, other) {
            (BlockHashOrTimeout::Block(x), BlockHashOrTimeout::Block(y)) => x.precedes(y),
            (BlockHashOrTimeout::Block(x), BlockHashOrTimeout::Timeout) => {
                proof {
                    x.rank_in_span();
                }
                true
            },
            (BlockHashOrTimeout::Timeout, BlockHashOrTimeout::Block(y)) => {
                proof {
                    y.rank_in_span();
                }
                false
            },
            (BlockHashOrTimeout::Timeout, BlockHashOrTimeout::Timeout) => false,
        }
    }
}

impl DeepView for BlockHashOrTimeout {
    type V = BlockHashOrTimeout;

    open spec fn deep_view(&self) -> BlockHashOrTimeout {
        *self
    }
}

impl Duplicate for BlockHashOrTimeout {
    fn duplicate(&self) -> (r: Self) {
        *self
    }

    fn agrees(&self, other: &Self) -> (r: bool) {
        *self == *other
    }
}

impl Atom for BlockHashOrTimeout {
    proof fn shows_itself(self) {
    }
}

/// How an election stands.
#[derive(Clone, Copy, Debug, PartialEq, Eq, Structural)]
pub enum RaiOutcome {
    Pending,
    /// Every applicable committee produced a compatible non-timeout
    /// notarization result, but the segment is not yet finalized.
    Notarized(BlockHash),
    Confirmed(BlockHash),
    TimedOut,
}

impl Default for RaiOutcome {
    fn default() -> (r: Self)
        ensures
            r == RaiOutcome::Pending,
    {
        RaiOutcome::Pending
    }
}

impl DeepView for RaiOutcome {
    type V = RaiOutcome;

    open spec fn deep_view(&self) -> RaiOutcome {
        *self
    }
}

impl Duplicate for RaiOutcome {
    fn duplicate(&self) -> (r: Self) {
        *self
    }

    fn agrees(&self, other: &Self) -> (r: bool) {
        *self == *other
    }
}

/// The weights that a committee asks for.
#[derive(Clone, Copy, Debug, PartialEq, Eq, Structural)]
pub struct RaiThresholds {
    pub faulty: Amount,
    pub slack: Amount,
    pub progression: Amount,
    pub notarization: Amount,
    pub fast: Amount,
    pub finalization: Amount,
}

impl DeepView for RaiThresholds {
    type V = RaiThresholds;

    open spec fn deep_view(&self) -> RaiThresholds {
        *self
    }
}

impl Duplicate for RaiThresholds {
    fn duplicate(&self) -> (r: Self) {
        *self
    }

    fn agrees(&self, other: &Self) -> (r: bool) {
        *self == *other
    }
}

/// `a - b`, or zero where `b` is larger.
pub open spec fn minus(a: int, b: int) -> int {
    if a < b {
        0
    } else {
        a - b
    }
}

/// `a`, or the largest amount where `a` is larger.
pub open spec fn capped(a: int) -> int {
    if a > u128::MAX {
        u128::MAX as int
    } else {
        a
    }
}

/// The weight that may be faulty: less than a fifth of the total.
pub fn rai_fault_allowance(total: u128) -> (r: u128)
    ensures
        r == minus(total as int, 1) / 5,
{
    total.saturating_sub(1) / 5
}

pub fn rai_progression_threshold(faulty: u128, slack: u128) -> (r: u128)
    ensures
        r == capped(faulty + slack + 1),
{
    faulty.saturating_add(slack).saturating_add(1)
}

pub fn rai_notarization_threshold(total: u128, faulty: u128, slack: u128) -> (r: u128)
    ensures
        r == minus(total as int, faulty + slack),
{
    total.saturating_sub(faulty.saturating_add(slack))
}

pub fn rai_fast_threshold(total: u128, slack: u128) -> (r: u128)
    ensures
        r == minus(total as int, slack as int),
{
    total.saturating_sub(slack)
}

pub fn rai_final_threshold(total: u128, faulty: u128, slack: u128) -> (r: u128)
    ensures
        r == minus(total as int, faulty + slack),
{
    rai_notarization_threshold(total, faulty, slack)
}

/// Whether so much first-vote weight is spread over other values that no
/// value can still progress on faulty and slack weight alone.
pub fn rai_timeout_ready(all_first: u128, max_first: u128, faulty: u128, slack: u128) -> (r: bool)
    ensures
        r == (minus(all_first as int, max_first as int) > faulty + slack),
{
    all_first.saturating_sub(max_first) > faulty.saturating_add(slack)
}

/// The thresholds of a committee with this total weight.
pub open spec fn thresholds_for(total: int) -> RaiThresholds {
    let faulty = minus(total, 1) / 5;
    RaiThresholds {
        faulty: Amount { raw: faulty as u128 },
        slack: Amount { raw: faulty as u128 },
        progression: Amount { raw: (2 * faulty + 1) as u128 },
        notarization: Amount { raw: (total - 2 * faulty) as u128 },
        fast: Amount { raw: (total - faulty) as u128 },
        finalization: Amount { raw: (total - 2 * faulty) as u128 },
    }
}

impl RaiThresholds {
    pub fn for_weights(weights: &RepWeights) -> (r: Self)
        ensures
            r == thresholds_for(total_weight(weights@) as int),
    {
        let total: u128 = weights.total().raw;
        let faulty: u128 = rai_fault_allowance(total);
        let slack: u128 = faulty;
        RaiThresholds {
            faulty: Amount::raw(faulty),
            slack: Amount::raw(slack),
            progression: Amount::raw(rai_progression_threshold(faulty, slack)),
            notarization: Amount::raw(rai_notarization_threshold(total, faulty, slack)),
            fast: Amount::raw(rai_fast_threshold(total, slack)),
            finalization: Amount::raw(rai_final_threshold(total, faulty, slack)),
        }
    }
}

/// Any two groups of voters that each reach the notarization threshold share
/// more weight than may be faulty.
pub proof fn notarization_quorums_intersect(
    weights: Map<PublicKey, Amount>,
    a: Set<PublicKey>,
    b: Set<PublicKey>,
)
    requires
        weights.dom().finite(),
        0 < total_weight(weights) <= u128::MAX,
        tally(weights, a) >= thresholds_for(total_weight(weights) as int).notarization.raw,
        tally(weights, b) >= thresholds_for(total_weight(weights) as int).notarization.raw,
    ensures
        tally(weights, a.intersect(b)) > thresholds_for(total_weight(weights) as int).faulty.raw,
{
    let d = weights.dom();
    lemma_weight_union(weights, d.intersect(a), d.intersect(b));
    lemma_weight_monotonic(weights, d.intersect(a).union(d.intersect(b)), d);
    assert(d.intersect(a).intersect(d.intersect(b)) =~= d.intersect(a.intersect(b)));
}

/// A group that reaches the fast threshold and one that reaches the
/// notarization threshold share more than twice the weight that may be faulty.
pub proof fn fast_quorum_outweighs_notarization(
    weights: Map<PublicKey, Amount>,
    a: Set<PublicKey>,
    b: Set<PublicKey>,
)
    requires
        weights.dom().finite(),
        0 < total_weight(weights) <= u128::MAX,
        tally(weights, a) >= thresholds_for(total_weight(weights) as int).fast.raw,
        tally(weights, b) >= thresholds_for(total_weight(weights) as int).notarization.raw,
    ensures
        tally(weights, a.intersect(b)) > 2 * thresholds_for(total_weight(weights) as int).faulty.raw,
{
    let d = weights.dom();
    lemma_weight_union(weights, d.intersect(a), d.intersect(b));
    lemma_weight_monotonic(weights, d.intersect(a).union(d.intersect(b)), d);
    assert(d.intersect(a).intersect(d.intersect(b)) =~= d.intersect(a.intersect(b)));
}

/// What one committee's votes amount to.
#[derive(Clone, Copy, Debug, PartialEq, Eq, Structural)]
pub enum RaiLocalResult {
    Notarized(BlockHash),
    Fast(BlockHash),
    Final(BlockHash),
    Timeout,
}

impl DeepView for RaiLocalResult {
    type V = RaiLocalResult;

    open spec fn deep_view(&self) -> RaiLocalResult {
        *self
    }
}

impl Duplicate for RaiLocalResult {
    fn duplicate(&self) -> (r: Self) {
        *self
    }

    fn agrees(&self, other: &Self) -> (r: bool) {
        *self == *other
    }
}

/// The votes that one committee has counted.
pub struct RaiCommitteeVoteState {
    pub first: SortedMap<PublicKey, BlockHashOrTimeout>,
    pub notar: SortedMap<PublicKey, SortedSet<BlockHashOrTimeout>>,
    pub final_votes: SortedMap<PublicKey, BlockHash>,
    pub final_locked: SortedSet<PublicKey>,
}

/// The model of a committee's votes.
#[verifier::ext_equal]
pub struct CommitteeVotes {
    pub first: Map<PublicKey, BlockHashOrTimeout>,
    pub notar: Map<PublicKey, Set<BlockHashOrTimeout>>,
    pub final_votes: Map<PublicKey, BlockHash>,
    pub final_locked: Set<PublicKey>,
}

impl DeepView for RaiCommitteeVoteState {
    type V = CommitteeVotes;

    open spec fn deep_view(&self) -> CommitteeVotes {
        CommitteeVotes {
            first: self.first@,
            notar: self.notar@,
            final_votes: self.final_votes@,
            final_locked: self.final_locked@,
        }
    }
}

impl Duplicate for RaiCommitteeVoteState {
    fn duplicate(&self) -> (r: Self) {
        RaiCommitteeVoteState {
            first: self.first.duplicate(),
            notar: self.notar.duplicate(),
            final_votes: self.final_votes.duplicate(),
            final_locked: self.final_locked.duplicate(),
        }
    }

    fn agrees(&self, other: &Self) -> (r: bool) {
        self.first.agrees(&other.first) && self.notar.agrees(&other.notar) && self.final_votes.agrees(
            &other.final_votes,
        ) && self.final_locked.agrees(&other.final_locked)
    }
}

impl Default for RaiCommitteeVoteState {
    fn default() -> (r: Self)
        ensures
            r.deep_view() == no_votes(),
    {
        RaiCommitteeVoteState {
            first: SortedMap::new(),
            notar: SortedMap::new(),
            final_votes: SortedMap::new(),
            final_locked: SortedSet::new(),
        }
    }
}

/// A committee that has not counted any vote.
pub open spec fn no_votes() -> CommitteeVotes {
    CommitteeVotes {
        first: Map::empty(),
        notar: Map::empty(),
        final_votes: Map::empty(),
        final_locked: Set::empty(),
    }
}

impl CommitteeVotes {
    /// Those whose first vote is `value`.
    pub open spec fn first_voters(self, value: BlockHashOrTimeout) -> Set<PublicKey> {
        Set::new(|signer: PublicKey| self.first.contains_key(signer) && self.first[signer] == value)
    }

    /// Those with a final vote for `hash`.
    pub open spec fn final_voters(self, hash: BlockHash) -> Set<PublicKey> {
        Set::new(|signer: PublicKey| self.final_votes.contains_key(signer) && self.final_votes[signer] == hash)
    }

    /// Those who support `value` by a vote of any phase.
    pub open spec fn supporters(self, value: BlockHashOrTimeout) -> Set<PublicKey> {
        Set::new(
            |signer: PublicKey|
                {
                    ||| self.first_voters(value).contains(signer)
                    ||| self.notar.contains_key(signer) && self.notar[signer].contains(value)
                    ||| value matches BlockHashOrTimeout::Block(hash) && self.final_voters(hash).contains(signer)
                },
        )
    }

    /// The values that some vote supports.
    pub open spec fn voiced(self) -> Set<BlockHashOrTimeout> {
        Set::new(
            |value: BlockHashOrTimeout|
                {
                    ||| self.first.values().contains(value)
                    ||| members_of(self.notar).contains(value)
                    ||| value matches BlockHashOrTimeout::Block(hash) && self.final_votes.values().contains(hash)
                },
        )
    }

    /// Whether a final vote of `signer` forbids them to support `value`.
    pub open spec fn locks_out(self, signer: PublicKey, value: BlockHashOrTimeout) -> bool {
        self.final_locked.contains(signer) && !(self.final_votes.contains_key(signer) && value
            == BlockHashOrTimeout::Block(self.final_votes[signer]))
    }

    /// Whether `signer` supports something else than `value`.
    pub open spec fn opposes(self, signer: PublicKey, value: BlockHashOrTimeout) -> bool {
        ||| self.first.contains_key(signer) && self.first[signer] != value
        ||| self.notar.contains_key(signer) && exists|other: BlockHashOrTimeout|
            #[trigger] self.notar[signer].contains(other) && other != value
    }

    pub open spec fn with_first(self, signer: PublicKey, value: BlockHashOrTimeout) -> CommitteeVotes {
        CommitteeVotes { first: self.first.insert(signer, value), ..self }
    }

    pub open spec fn with_notar(self, signer: PublicKey, value: BlockHashOrTimeout) -> CommitteeVotes {
        let earlier = if self.notar.contains_key(signer) {
            self.notar[signer]
        } else {
            Set::empty()
        };
        CommitteeVotes { notar: self.notar.insert(signer, earlier.insert(value)), ..self }
    }

    pub open spec fn with_final(self, signer: PublicKey, hash: BlockHash) -> CommitteeVotes {
        CommitteeVotes {
            final_votes: self.final_votes.insert(signer, hash),
            final_locked: self.final_locked.insert(signer),
            ..self
        }
    }

    /// Exactly those with a final vote are locked, and whoever is locked
    /// supports nothing but what they finalized.
    pub open spec fn honours_finals(self) -> bool {
        &&& self.final_locked == self.final_votes.dom()
        &&& forall|signer: PublicKey| #[trigger]
            self.final_votes.contains_key(signer) ==> !self.opposes(
                signer,
                BlockHashOrTimeout::Block(self.final_votes[signer]),
            )
    }
}

impl RaiCommitteeVoteState {
    fn has_first(&self, signer: &PublicKey, value: &BlockHashOrTimeout) -> (r: bool)
        ensures
            r == self.deep_view().first_voters(*value).contains(*signer),
    {
        match self.first.get(signer) {
            Some(first) => *first == *value,
            None => false,
        }
    }

    fn has_final(&self, signer: &PublicKey, hash: &BlockHash) -> (r: bool)
        ensures
            r == self.deep_view().final_voters(*hash).contains(*signer),
    {
        match self.final_votes.get(signer) {
            Some(vote) => *vote == *hash,
            None => false,
        }
    }

    fn has_support(&self, signer: &PublicKey, value: &BlockHashOrTimeout) -> (r: bool)
        ensures
            r == self.deep_view().supporters(*value).contains(*signer),
    {
        if self.has_first(signer, value) {
            return true;
        }
        if let Some(values) = self.notar.get(signer) {
            if values.contains(value) {
                return true;
            }
        }
        match value {
            BlockHashOrTimeout::Block(hash) => self.has_final(signer, hash),
            BlockHashOrTimeout::Timeout => false,
        }
    }

    fn is_locked_out(&self, signer: &PublicKey, value: &BlockHashOrTimeout) -> (r: bool)
        ensures
            r == self.deep_view().locks_out(*signer, *value),
    {
        self.final_locked.contains(signer) && match value {
            BlockHashOrTimeout::Block(hash) => !self.has_final(signer, hash),
            BlockHashOrTimeout::Timeout => true,
        }
    }

    fn is_opposed(&self, signer: &PublicKey, value: &BlockHashOrTimeout) -> (r: bool)
        ensures
            r == self.deep_view().opposes(*signer, *value),
    {
        if let Some(first) = self.first.get(signer) {
            if *first != *value {
                return true;
            }
        }
        match self.notar.get(signer) {
            Some(values) => {
                let mut allowed: SortedSet<BlockHashOrTimeout> = SortedSet::new();
                allowed.insert(*value);
                let r = !values.is_subset(&allowed);
                proof {
                    let v = self.deep_view().notar[*signer];
                    assert(v == values@);
                    if r {
                        let other = choose|other: BlockHashOrTimeout| v.contains(other) && !allowed@.contains(other);
                        assert(v.contains(other) && other != *value);
                    }
                    assert(r == self.deep_view().opposes(*signer, *value));
                }
                r
            },
            None => false,
        }
    }

    fn voiced_values(&self) -> (r: SortedSet<BlockHashOrTimeout>)
        ensures
            r@ == self.deep_view().voiced(),
    {
        let mut values = self.first.value_set();
        values.extend(&self.notar.member_set());
        let finals = self.final_votes.value_set();
        let ghost early = values@;
        let list = finals.to_vec();
        proof {
            lemma_ascending(finals@);
        }
        for i in 0..list.len()
            invariant
                values@ == early.union(blocks_of(list@.take(i as int).to_set())),
        {
            proof {
                lemma_take_set(list@, i as int);
            }
            values.insert(BlockHashOrTimeout::Block(list[i]));
            proof {
                assert(values@ =~= early.union(blocks_of(list@.take(i + 1).to_set())));
            }
        }
        proof {
            assert(list@.take(list@.len() as int) =~= list@);
            assert(values@ =~= self.deep_view().voiced());
        }
        values
    }
}

/// Support for each of these blocks.
pub open spec fn blocks_of(hashes: Set<BlockHash>) -> Set<BlockHashOrTimeout> {
    Set::new(|value: BlockHashOrTimeout| value matches BlockHashOrTimeout::Block(hash) && hashes.contains(hash))
}

/// One committee of an election.
pub struct RaiCommitteeInstance {
    pub weights: Arc<RepWeights>,
    pub thresholds: RaiThresholds,
    pub votes: RaiCommitteeVoteState,
}

/// The model of one committee of an election.
#[verifier::ext_equal]
pub struct Committee {
    pub weights: Map<PublicKey, Amount>,
    pub thresholds: RaiThresholds,
    pub votes: CommitteeVotes,
}

impl DeepView for RaiCommitteeInstance {
    type V = Committee;

    open spec fn deep_view(&self) -> Committee {
        Committee {
            weights: (*self.weights)@,
            thresholds: self.thresholds,
            votes: self.votes.deep_view(),
        }
    }
}

impl Duplicate for RaiCommitteeInstance {
    fn duplicate(&self) -> (r: Self) {
        RaiCommitteeInstance {
            weights: self.weights.clone(),
            thresholds: self.thresholds,
            votes: self.votes.duplicate(),
        }
    }

    fn agrees(&self, other: &Self) -> (r: bool) {
        self.weights.agrees(&*other.weights) && self.thresholds == other.thresholds && self.votes.agrees(
            &other.votes,
        )
    }
}

impl Committee {
    /// A committee with these weights that has not counted any vote.
    pub open spec fn fresh(weights: Map<PublicKey, Amount>) -> Committee {
        Committee {
            weights,
            thresholds: thresholds_for(total_weight(weights) as int),
            votes: no_votes(),
        }
    }

    pub open spec fn first_tally(self, value: BlockHashOrTimeout) -> nat {
        tally(self.weights, self.votes.first_voters(value))
    }

    pub open spec fn notarization_tally(self, value: BlockHashOrTimeout) -> nat {
        tally(self.weights, self.votes.supporters(value))
    }

    pub open spec fn final_tally(self, hash: BlockHash) -> nat {
        tally(self.weights, self.votes.final_voters(hash))
    }

    /// The values with a notarization certificate.
    pub open spec fn notarized(self) -> Set<BlockHashOrTimeout> {
        self.votes.voiced().filter(
            |value: BlockHashOrTimeout| self.notarization_tally(value) >= self.thresholds.notarization.raw,
        )
    }

    /// The blocks with a fast certificate.
    pub open spec fn fast(self) -> Set<BlockHash> {
        Set::new(
            |hash: BlockHash|
                {
                    let value = BlockHashOrTimeout::Block(hash);
                    self.votes.voiced().contains(value) && self.first_tally(value)
                        >= self.thresholds.fast.raw
                },
        )
    }

    /// The blocks with a finalization certificate.
    pub open spec fn finalized(self) -> Set<BlockHash> {
        Set::new(
            |hash: BlockHash|
                self.votes.voiced().contains(BlockHashOrTimeout::Block(hash)) && self.final_tally(hash)
                    >= self.thresholds.finalization.raw,
        )
    }

    /// Two certificates contradict each other: two blocks have a fast or
    /// finalization certificate, or one has, and another value is notarized.
    pub open spec fn is_contradictory(self) -> bool {
        let strong = self.finalized().union(self.fast());
        exists|hash: BlockHash, value: BlockHashOrTimeout| #[trigger]
            strong.contains(hash) && value != BlockHashOrTimeout::Block(hash) && #[trigger] blocks_of(
                strong,
            ).union(self.notarized()).contains(value)
    }

    /// What the votes amount to: the strongest certificate, a timeout where
    /// certificates contradict each other or notarization is split, and
    /// nothing where there is no certificate.
    pub open spec fn result(self) -> Option<RaiLocalResult> {
        let notarized = self.notarized();
        if self.is_contradictory() {
            Some(RaiLocalResult::Timeout)
        } else if self.finalized() != Set::<BlockHash>::empty() {
            Some(RaiLocalResult::Final(self.finalized().choose()))
        } else if self.fast() != Set::<BlockHash>::empty() {
            Some(RaiLocalResult::Fast(self.fast().choose()))
        } else if notarized.contains(BlockHashOrTimeout::Timeout) || notarized.len() > 1 {
            Some(RaiLocalResult::Timeout)
        } else if notarized != Set::<BlockHashOrTimeout>::empty() {
            match notarized.choose() {
                BlockHashOrTimeout::Block(hash) => Some(RaiLocalResult::Notarized(hash)),
                BlockHashOrTimeout::Timeout => Some(RaiLocalResult::Timeout),
            }
        } else {
            None
        }
    }

    /// Whichever block leads, the rest of the first-vote weight exceeds what
    /// faulty and slow members account for.
    pub open spec fn timeout_ready(self) -> bool {
        forall|hash: BlockHash|
            tally(self.weights, self.votes.first.dom()) - #[trigger] self.first_tally(
                BlockHashOrTimeout::Block(hash),
            ) > self.thresholds.faulty.raw + self.thresholds.slack.raw
    }
}

/// Everything an election knows about its votes.
pub struct RaiElectionVoteState {
    pub committees: Vec<RaiCommitteeInstance>,
    pub outcome: RaiOutcome,
}

/// The model of an election's votes.
#[verifier::ext_equal]
pub struct ElectionVotes {
    pub committees: Seq<Committee>,
    pub outcome: RaiOutcome,
}

impl DeepView for RaiElectionVoteState {
    type V = ElectionVotes;

    open spec fn deep_view(&self) -> ElectionVotes {
        ElectionVotes { committees: self.committees.deep_view(), outcome: self.outcome }
    }
}

impl Duplicate for RaiElectionVoteState {
    fn duplicate(&self) -> (r: Self) {
        RaiElectionVoteState { committees: self.committees.duplicate(), outcome: self.outcome }
    }

    fn agrees(&self, other: &Self) -> (r: bool) {
        self.committees.agrees(&other.committees) && self.outcome == other.outcome
    }
}

impl Default for RaiElectionVoteState {
    fn default() -> (r: Self)
        ensures
            r.deep_view() == no_committees(),
    {
        let r = RaiElectionVoteState { committees: Vec::new(), outcome: RaiOutcome::Pending };
        proof {
            assert(r.deep_view().committees =~= Seq::<Committee>::empty());
        }
        r
    }
}

/// An election that no committee takes part in.
pub open spec fn no_committees() -> ElectionVotes {
    ElectionVotes { committees: Seq::empty(), outcome: RaiOutcome::Pending }
}

#[derive(Clone, Copy, Debug, PartialEq, Eq, Structural)]
pub enum RaiVoteStateError {
    EmptyScope,
    SignerNotInCommittee,
    DuplicateFirstVote,
    FinalLocked,
    IncompatibleFinalSupport,
    TimeoutFinalVote,
    InsufficientFirstSupport,
    TimeoutNotReady,
    WrongElectionContext,
}

impl DeepView for RaiVoteStateError {
    type V = RaiVoteStateError;

    open spec fn deep_view(&self) -> RaiVoteStateError {
        *self
    }
}

impl Duplicate for RaiVoteStateError {
    fn duplicate(&self) -> (r: Self) {
        *self
    }

    fn agrees(&self, other: &Self) -> (r: bool) {
        *self == *other
    }
}

impl ElectionVotes {
    /// Whether a vote of `signer` with this scope counts in committee `i`.
    pub open spec fn is_target(self, signer: PublicKey, scope: RaiCommitteeScope, i: int) -> bool {
        &&& 0 <= i < self.committees.len()
        &&& match scope {
            RaiCommitteeScope::All => weight_of(self.committees[i].weights, signer) > 0,
            RaiCommitteeScope::Older => i == 0,
            RaiCommitteeScope::Newer => i == self.committees.len() - 1,
        }
    }

    /// Some committee that the vote counts in satisfies `p`.
    pub open spec fn any_target(
        self,
        signer: PublicKey,
        scope: RaiCommitteeScope,
        p: spec_fn(Committee) -> bool,
    ) -> bool {
        exists|i: int| #[trigger] self.is_target(signer, scope, i) && p(self.committees[i])
    }

    /// Why a vote counts nowhere, if so.
    pub open spec fn scope_error(self, signer: PublicKey, scope: RaiCommitteeScope) -> Option<RaiVoteStateError> {
        if !self.any_target(signer, scope, |c: Committee| true) {
            Some(RaiVoteStateError::EmptyScope)
        } else if self.any_target(signer, scope, |c: Committee| weight_of(c.weights, signer) == 0) {
            Some(RaiVoteStateError::SignerNotInCommittee)
        } else {
            None
        }
    }

    pub open spec fn first_error(
        self,
        signer: PublicKey,
        value: BlockHashOrTimeout,
        scope: RaiCommitteeScope,
    ) -> Option<RaiVoteStateError> {
        if self.scope_error(signer, scope) is Some {
            self.scope_error(signer, scope)
        } else if self.any_target(signer, scope, |c: Committee| c.votes.first.contains_key(signer)) {
            Some(RaiVoteStateError::DuplicateFirstVote)
        } else if self.any_target(signer, scope, |c: Committee| c.votes.locks_out(signer, value)) {
            Some(RaiVoteStateError::FinalLocked)
        } else {
            None
        }
    }

    pub open spec fn notarization_error(
        self,
        signer: PublicKey,
        value: BlockHashOrTimeout,
        scope: RaiCommitteeScope,
    ) -> Option<RaiVoteStateError> {
        if self.scope_error(signer, scope) is Some {
            self.scope_error(signer, scope)
        } else if self.any_target(signer, scope, |c: Committee| c.votes.locks_out(signer, value)) {
            Some(RaiVoteStateError::FinalLocked)
        } else {
            None
        }
    }

    pub open spec fn final_error(
        self,
        signer: PublicKey,
        value: BlockHashOrTimeout,
        scope: RaiCommitteeScope,
    ) -> Option<RaiVoteStateError> {
        if value is Timeout {
            Some(RaiVoteStateError::TimeoutFinalVote)
        } else if self.scope_error(signer, scope) is Some {
            self.scope_error(signer, scope)
        } else if self.any_target(signer, scope, |c: Committee| c.votes.final_locked.contains(signer)) {
            Some(RaiVoteStateError::FinalLocked)
        } else if self.any_target(signer, scope, |c: Committee| c.votes.opposes(signer, value)) {
            Some(RaiVoteStateError::IncompatibleFinalSupport)
        } else {
            None
        }
    }

    /// Why a vote of this phase is refused, if so. A notarization vote also
    /// needs the first votes to have come far enough.
    pub open spec fn vote_error(
        self,
        signer: PublicKey,
        value: BlockHashOrTimeout,
        phase: RaiVotePhase,
        scope: RaiCommitteeScope,
    ) -> Option<RaiVoteStateError> {
        match phase {
            RaiVotePhase::First => self.first_error(signer, value, scope),
            RaiVotePhase::Notar => if self.scope_error(signer, scope) is Some {
                self.scope_error(signer, scope)
            } else if value is Block && self.any_target(
                signer,
                scope,
                |c: Committee| c.first_tally(value) < c.thresholds.progression.raw,
            ) {
                Some(RaiVoteStateError::InsufficientFirstSupport)
            } else if value is Timeout && self.any_target(signer, scope, |c: Committee| !c.timeout_ready()) {
                Some(RaiVoteStateError::TimeoutNotReady)
            } else {
                self.notarization_error(signer, value, scope)
            },
            RaiVotePhase::Final => self.final_error(signer, value, scope),
        }
    }

    /// The vote counted in one committee's votes.
    pub open spec fn vote_in(
        votes: CommitteeVotes,
        signer: PublicKey,
        value: BlockHashOrTimeout,
        phase: RaiVotePhase,
    ) -> CommitteeVotes {
        match phase {
            RaiVotePhase::First => votes.with_first(signer, value),
            RaiVotePhase::Notar => votes.with_notar(signer, value),
            RaiVotePhase::Final => match value {
                BlockHashOrTimeout::Block(hash) => votes.with_final(signer, hash),
                BlockHashOrTimeout::Timeout => votes,
            },
        }
    }

    /// The state after the vote counts in every committee it is meant for.
    pub open spec fn with_vote(
        self,
        signer: PublicKey,
        value: BlockHashOrTimeout,
        phase: RaiVotePhase,
        scope: RaiCommitteeScope,
    ) -> ElectionVotes {
        ElectionVotes {
            committees: Seq::new(
                self.committees.len(),
                |i: int|
                    if self.is_target(signer, scope, i) {
                        Committee {
                            votes: Self::vote_in(self.committees[i].votes, signer, value, phase),
                            ..self.committees[i]
                        }
                    } else {
                        self.committees[i]
                    },
            ),
            outcome: self.outcome,
        }
    }

    pub open spec fn honours_finals(self) -> bool {
        forall|i: int| 0 <= i < self.committees.len() ==> (#[trigger] self.committees[i]).votes.honours_finals()
    }
}

/// Taking the first of each group of equal weights.
pub open spec fn distinct_weights(all: Seq<Map<PublicKey, Amount>>) -> Seq<Map<PublicKey, Amount>>
    decreases all.len(),
{
    if all.len() == 0 {
        Seq::empty()
    } else {
        let earlier = distinct_weights(all.drop_last());
        if earlier.contains(all.last()) {
            earlier
        } else {
            earlier.push(all.last())
        }
    }
}

impl RaiElectionVoteState {
    /// An election in which each distinct committee takes part once.
    pub fn new(committees: Vec<Arc<RepWeights>>) -> (r: Self)
        ensures
            r.deep_view().committees == distinct_weights(committees.deep_view()).map_values(
                |weights: Map<PublicKey, Amount>| Committee::fresh(weights),
            ),
            r.outcome == RaiOutcome::Pending,
    {
        let mut unique: Vec<RaiCommitteeInstance> = Vec::new();
        let ghost all = committees.deep_view();
        let ghost fresh = |weights: Map<PublicKey, Amount>| Committee::fresh(weights);
        for i in 0..committees.len()
            invariant
                all == committees.deep_view(),
                fresh == (|weights: Map<PublicKey, Amount>| Committee::fresh(weights)),
                unique.deep_view() == distinct_weights(all.take(i as int)).map_values(fresh),
        {
            let ghost earlier = distinct_weights(all.take(i as int));
            let mut known = false;
            for j in 0..unique.len()
                invariant
                    i < committees.len(),
                    all == committees.deep_view(),
                    fresh == (|weights: Map<PublicKey, Amount>| Committee::fresh(weights)),
                    unique.deep_view() == earlier.map_values(fresh),
                    known == earlier.take(j as int).contains(all[i as int]),
            {
                proof {
                    assert(unique.deep_view().len() == unique@.len());
                    assert(earlier.map_values(fresh).len() == earlier.len());
                    assert(unique.deep_view()[j as int] == fresh(earlier[j as int]));
                    assert(earlier.take(j + 1) =~= earlier.take(j as int).push(earlier[j as int]));
                    assert(earlier.take(j + 1)[j as int] == earlier[j as int]);
                    assert(earlier.take(j as int).contains(all[i as int]) ==> earlier.take(j + 1).contains(all[i as int])) by {
                        if earlier.take(j as int).contains(all[i as int]) {
                            let q = earlier.take(j as int);
                            let x = choose|x: int| 0 <= x < q.len() && q[x] == all[i as int];
                            assert(earlier.take(j + 1)[x] == all[i as int]);
                        }
                    }
                    if earlier.take(j + 1).contains(all[i as int]) && earlier[j as int] != all[i as int] {
                        let q = earlier.take(j + 1);
                        let x = choose|x: int| 0 <= x < q.len() && q[x] == all[i as int];
                        assert(earlier.take(j as int)[x] == all[i as int]);
                    }
                }
                if unique[j].weights.agrees(&*committees[i]) {
                    known = true;
                }
            }
            proof {
                assert(unique.deep_view().len() == earlier.len());
                assert(earlier.take(earlier.len() as int) =~= earlier);
                assert(all.take(i + 1).drop_last() =~= all.take(i as int));
            }
            if !known {
                let instance = RaiCommitteeInstance {
                    thresholds: RaiThresholds::for_weights(&*committees[i]),
                    weights: committees[i].clone(),
                    votes: RaiCommitteeVoteState::default(),
                };
                proof {
                    assert(instance.deep_view() == fresh(all[i as int]));
                }
                let ghost before = unique.deep_view();
                unique.push(instance);
                proof {
                    assert(unique.deep_view() =~= before.push(instance.deep_view()));
                    assert(unique.deep_view() =~= earlier.push(all[i as int]).map_values(fresh));
                }
            }
        }
        proof {
            assert(all.take(all.len() as int) =~= all);
        }
        RaiElectionVoteState { committees: unique, outcome: RaiOutcome::Pending }
    }

    fn checked_targets(&self, signer: PublicKey, scope: RaiCommitteeScope) -> (r: Result<Vec<usize>, RaiVoteStateError>)
        ensures
            match r {
                Ok(targets) => {
                    &&& self.deep_view().scope_error(signer, scope) is None
                    &&& targets@.no_duplicates()
                    &&& forall|i: usize| #[trigger]
                        targets@.contains(i) == self.deep_view().is_target(signer, scope, i as int)
                },
                Err(error) => self.deep_view().scope_error(signer, scope) == Some(error),
            },
    {
        let mut targets: Vec<usize> = Vec::new();
        let ghost m = self.deep_view();
        let n: usize = self.committees.len();
        let mut strange = false;
        for i in 0..n
            invariant
                m == self.deep_view(),
                n == self.committees@.len(),
                targets@.no_duplicates(),
                forall|j: int| 0 <= j < targets@.len() ==> (#[trigger] targets@[j]) < i && m.is_target(
                    signer,
                    scope,
                    targets@[j] as int,
                ),
                forall|j: int| 0 <= j < i && #[trigger] m.is_target(signer, scope, j) ==> targets@.contains(j as usize),
                strange == exists|j: int|
                    0 <= j < i && #[trigger] m.is_target(signer, scope, j) && weight_of(m.committees[j].weights, signer)
                        == 0,
        {
            let weightless = self.committees[i].weights.weight(&signer).is_zero();
            let chosen = match scope {
                RaiCommitteeScope::All => !weightless,
                RaiCommitteeScope::Older => i == 0,
                RaiCommitteeScope::Newer => i == n - 1,
            };
            proof {
                assert(m.committees[i as int] == self.committees@[i as int].deep_view());
                assert(chosen == m.is_target(signer, scope, i as int));
            }
            if chosen {
                let ghost before = targets@;
                targets.push(i);
                proof {
                    assert(targets@[before.len() as int] == i);
                    assert forall|j: int| 0 <= j < i + 1 && #[trigger] m.is_target(signer, scope, j) implies targets@.contains(
                        j as usize,
                    ) by {
                        if j < i {
                            assert(before.contains(j as usize));
                            let x = choose|x: int| 0 <= x < before.len() && before[x] == j as usize;
                            assert(targets@[x] == j as usize);
                        }
                    }
                }
                if weightless {
                    strange = true;
                }
            }
        }
        proof {
            if targets@.len() > 0 {
                assert(m.is_target(signer, scope, targets@[0] as int));
            }
            assert forall|i: usize| #[trigger] targets@.contains(i) == m.is_target(signer, scope, i as int) by {
                if targets@.contains(i) {
                    let j = choose|j: int| 0 <= j < targets@.len() && targets@[j] == i;
                    assert(m.is_target(signer, scope, targets@[j] as int));
                }
            }
            let weightless = |c: Committee| weight_of(c.weights, signer) == 0;
            if strange {
                let j = choose|j: int|
                    0 <= j < n && #[trigger] m.is_target(signer, scope, j) && weight_of(
                        m.committees[j].weights,
                        signer,
                    ) == 0;
                assert(weightless(m.committees[j]));
            } else if m.any_target(signer, scope, weightless) {
                let j = choose|j: int| #[trigger] m.is_target(signer, scope, j) && weightless(m.committees[j]);
                assert(weight_of(m.committees[j].weights, signer) == 0);
            }
            if targets@.len() == 0 && m.any_target(signer, scope, |c: Committee| true) {
                let j = choose|j: int| #[trigger] m.is_target(signer, scope, j);
                assert(targets@.contains(j as usize));
            }
        }
        if targets.len() == 0 {
            return Err(RaiVoteStateError::EmptyScope);
        }
        if strange {
            return Err(RaiVoteStateError::SignerNotInCommittee);
        }
        Ok(targets)
    }
}

/// Which votes to weigh.
enum Ballot {
    AnyFirst,
    First(BlockHashOrTimeout),
    Support(BlockHashOrTimeout),
    Final(BlockHash),
}

impl CommitteeVotes {
    spec fn voters(self, ballot: Ballot) -> Set<PublicKey> {
        match ballot {
            Ballot::AnyFirst => self.first.dom(),
            Ballot::First(value) => self.first_voters(value),
            Ballot::Support(value) => self.supporters(value),
            Ballot::Final(hash) => self.final_voters(hash),
        }
    }
}

impl RaiCommitteeInstance {
    fn weight_for(&self, ballot: &Ballot) -> (r: Amount)
        ensures
            r.raw == tally(self.deep_view().weights, self.deep_view().votes.voters(*ballot)),
    {
        let mut voters: SortedSet<PublicKey> = SortedSet::new();
        let ghost all = self.deep_view().votes.voters(*ballot);
        let n: usize = self.weights.len();
        let ghost reps = ascending(self.weights@.dom());
        proof {
            lemma_ascending(self.weights@.dom());
        }
        for i in 0..n
            invariant
                n == self.weights@.len(),
                n == reps.len(),
                reps == ascending(self.weights@.dom()),
                all == self.deep_view().votes.voters(*ballot),
                voters@ == reps.take(i as int).to_set().intersect(all),
        {
            let rep = self.weights.rep_at(i);
            let counts = match ballot {
                Ballot::AnyFirst => self.votes.first.contains_key(&rep),
                Ballot::First(value) => self.votes.has_first(&rep, value),
                Ballot::Support(value) => self.votes.has_support(&rep, value),
                Ballot::Final(hash) => self.votes.has_final(&rep, hash),
            };
            proof {
                lemma_take_set(reps, i as int);
            }
            if counts {
                voters.insert(rep);
            }
            proof {
                assert(voters@ =~= reps.take(i + 1).to_set().intersect(all));
            }
        }
        proof {
            assert(reps.take(n as int) =~= reps);
            assert(self.weights@.dom().intersect(voters@) =~= self.weights@.dom().intersect(all));
        }
        self.weights.tally(&voters)
    }

    fn is_timeout_ready(&self) -> (r: bool)
        ensures
            r == self.deep_view().timeout_ready(),
    {
        let ghost c = self.deep_view();
        let all_first = self.weight_for(&Ballot::AnyFirst);
        let values = self.votes.first.value_set();
        let list = values.to_vec();
        proof {
            lemma_ascending(values@);
        }
        let mut max_first: u128 = 0;
        let ghost mut leader: Option<BlockHash> = None;
        for i in 0..list.len()
            invariant
                c == self.deep_view(),
                match leader {
                    Some(hash) => max_first == c.first_tally(BlockHashOrTimeout::Block(hash)),
                    None => max_first == 0,
                },
                forall|j: int|
                    0 <= j < i && (#[trigger] list@[j]) is Block ==> c.first_tally(list@[j]) <= max_first,
        {
            if let BlockHashOrTimeout::Block(hash) = list[i] {
                let first = self.weight_for(&Ballot::First(list[i])).raw;
                if first > max_first {
                    max_first = first;
                    proof {
                        leader = Some(hash);
                    }
                }
            }
        }
        proof {
            let all = tally(c.weights, c.votes.first.dom());
            assert forall|hash: BlockHash|
                #[trigger] c.first_tally(BlockHashOrTimeout::Block(hash)) <= max_first by {
                let value = BlockHashOrTimeout::Block(hash);
                if values@.contains(value) {
                    assert(list@.contains(value));
                    let j = choose|j: int| 0 <= j < list@.len() && list@[j] == value;
                    assert(list@[j] is Block);
                } else {
                    assert(c.votes.first_voters(value) =~= Set::<PublicKey>::empty()) by {
                        assert forall|k: PublicKey| !c.votes.first_voters(value).contains(k) by {
                            if c.votes.first_voters(value).contains(k) {
                                assert(c.votes.first.contains_value(value));
                            }
                        }
                    }
                    assert(c.weights.dom().intersect(Set::<PublicKey>::empty()) =~= Set::<PublicKey>::empty());
                }
            }
            let witness = match leader {
                Some(hash) => hash,
                None => BlockHash { hi: 0, lo: 0 },
            };
            assert(c.first_tally(BlockHashOrTimeout::Block(witness)) == max_first);
        }
        rai_timeout_ready(
            all_first.raw,
            max_first,
            self.thresholds.faulty.raw,
            self.thresholds.slack.raw,
        )
    }

    fn result(&self) -> (r: Option<RaiLocalResult>)
        ensures
            r == self.deep_view().result(),
    {
        let ghost c = self.deep_view();
        let values = self.votes.voiced_values();
        let list = values.to_vec();
        proof {
            lemma_ascending(values@);
        }
        let mut notarized: SortedSet<BlockHashOrTimeout> = SortedSet::new();
        let mut fast: SortedSet<BlockHash> = SortedSet::new();
        let mut finalized: SortedSet<BlockHash> = SortedSet::new();
        let mut named: SortedSet<BlockHashOrTimeout> = SortedSet::new();
        for i in 0..list.len()
            invariant
                c == self.deep_view(),
                forall|j: int| 0 <= j < list@.len() ==> c.votes.voiced().contains(#[trigger] list@[j]),
                notarized@ == c.notarized().intersect(list@.take(i as int).to_set()),
                fast@ == c.fast().intersect(hashes_of(list@.take(i as int).to_set())),
                finalized@ == c.finalized().intersect(hashes_of(list@.take(i as int).to_set())),
                named@ == notarized@.union(blocks_of(finalized@.union(fast@))),
        {
            let value = list[i];
            let ghost seen = list@.take(i as int).to_set();
            proof {
                lemma_take_set(list@, i as int);
                assert(c.votes.voiced().contains(value));
            }
            if self.weight_for(&Ballot::Support(value)).raw >= self.thresholds.notarization.raw {
                notarized.insert(value);
                named.insert(value);
            }
            if let BlockHashOrTimeout::Block(hash) = value {
                if self.weight_for(&Ballot::First(value)).raw >= self.thresholds.fast.raw {
                    fast.insert(hash);
                    named.insert(value);
                }
                if self.weight_for(&Ballot::Final(hash)).raw >= self.thresholds.finalization.raw {
                    finalized.insert(hash);
                    named.insert(value);
                }
            }
            proof {
                assert(notarized@ =~= c.notarized().intersect(seen.insert(value)));
                assert(fast@ =~= c.fast().intersect(hashes_of(seen.insert(value))));
                assert(finalized@ =~= c.finalized().intersect(hashes_of(seen.insert(value))));
                assert(named@ =~= notarized@.union(blocks_of(finalized@.union(fast@))));
            }
        }
        let named_count: usize = named.len();
        proof {
            assert(list@.take(list@.len() as int) =~= list@);
            assert(notarized@ =~= c.notarized());
            assert(fast@ =~= c.fast());
            assert(finalized@ =~= c.finalized());
            lemma_contradictory(c, named@);
        }
        let certain = !finalized.is_empty() || !fast.is_empty();
        if certain && named_count > 1 {
            return Some(RaiLocalResult::Timeout);
        }
        if !finalized.is_empty() {
            let hash = finalized.at(0);
            proof {
                lemma_not_contradictory(c, hash, finalized@.choose());
            }
            return Some(RaiLocalResult::Final(hash));
        }
        if !fast.is_empty() {
            let hash = fast.at(0);
            proof {
                lemma_not_contradictory(c, hash, fast@.choose());
            }
            return Some(RaiLocalResult::Fast(hash));
        }
        if notarized.contains(&BlockHashOrTimeout::Timeout) || notarized.len() > 1 {
            return Some(RaiLocalResult::Timeout);
        }
        if notarized.len() == 1 {
            let value = notarized.at(0);
            proof {
                vstd::set::axiom_set_choose_len(notarized@);
                let other = notarized@.choose();
                assert(notarized@.remove(other).len() == 0);
                if other != value {
                    assert(notarized@.remove(other).contains(value));
                }
            }
            return match value {
                BlockHashOrTimeout::Block(hash) => Some(RaiLocalResult::Notarized(hash)),
                BlockHashOrTimeout::Timeout => Some(RaiLocalResult::Timeout),
            };
        }
        None
    }
}

/// The blocks among these values.
pub open spec fn hashes_of(values: Set<BlockHashOrTimeout>) -> Set<BlockHash> {
    Set::new(|hash: BlockHash| values.contains(BlockHashOrTimeout::Block(hash)))
}

proof fn lemma_contradictory(c: Committee, named: Set<BlockHashOrTimeout>)
    requires
        named.finite(),
        named == c.notarized().union(blocks_of(c.finalized().union(c.fast()))),
    ensures
        c.is_contradictory() == (named.len() > 1 && (c.finalized() != Set::<BlockHash>::empty() || c.fast()
            != Set::<BlockHash>::empty())),
{
    let strong = c.finalized().union(c.fast());
    let all = blocks_of(strong).union(c.notarized());
    assert(all =~= named);
    if c.is_contradictory() {
        let (hash, value) = choose|hash: BlockHash, value: BlockHashOrTimeout| #[trigger]
            strong.contains(hash) && value != BlockHashOrTimeout::Block(hash) && #[trigger] all.contains(value);
        assert(strong.contains(hash) && all.contains(value));
        let two = named.remove(value);
        assert(two.contains(BlockHashOrTimeout::Block(hash)));
        assert(two.len() > 0);
    }
    if named.len() > 1 && (c.finalized() != Set::<BlockHash>::empty() || c.fast() != Set::<BlockHash>::empty()) {
        if forall|h: BlockHash| !strong.contains(h) {
            assert forall|h: BlockHash| !c.finalized().contains(h) && !c.fast().contains(h) by {
                assert(!strong.contains(h));
            }
            assert(c.finalized() =~= Set::<BlockHash>::empty());
            assert(c.fast() =~= Set::<BlockHash>::empty());
        }
        let hash = choose|hash: BlockHash| strong.contains(hash);
        let rest = named.remove(BlockHashOrTimeout::Block(hash));
        assert(named.contains(BlockHashOrTimeout::Block(hash)));
        assert(rest.len() > 0);
        let value = rest.choose();
        assert(rest.contains(value));
        assert(strong.contains(hash) && value != BlockHashOrTimeout::Block(hash) && all.contains(value));
    }
}

proof fn lemma_not_contradictory(c: Committee, a: BlockHash, b: BlockHash)
    requires
        !c.is_contradictory(),
        c.finalized().union(c.fast()).contains(a),
        c.finalized().union(c.fast()).contains(b),
    ensures
        a == b,
{
    let strong = c.finalized().union(c.fast());
    if a != b {
        let value = BlockHashOrTimeout::Block(b);
        assert(strong.contains(a) && value != BlockHashOrTimeout::Block(a) && blocks_of(strong).union(
            c.notarized(),
        ).contains(value));
    }
}

proof fn lemma_any_target(
    m: ElectionVotes,
    signer: PublicKey,
    scope: RaiCommitteeScope,
    targets: Seq<usize>,
    p: spec_fn(Committee) -> bool,
)
    requires
        m.committees.len() <= usize::MAX,
        forall|i: usize| #[trigger] targets.contains(i) == m.is_target(signer, scope, i as int),
    ensures
        m.any_target(signer, scope, p) == exists|x: int|
            0 <= x < targets.len() && #[trigger] p(m.committees[targets[x] as int]),
{
    if m.any_target(signer, scope, p) {
        let i = choose|i: int| #[trigger] m.is_target(signer, scope, i) && p(m.committees[i]);
        assert(targets.contains(i as usize));
        let x = choose|x: int| 0 <= x < targets.len() && targets[x] == i as usize;
        assert(p(m.committees[targets[x] as int]));
    }
    if exists|x: int| 0 <= x < targets.len() && #[trigger] p(m.committees[targets[x] as int]) {
        let x = choose|x: int| 0 <= x < targets.len() && #[trigger] p(m.committees[targets[x] as int]);
        assert(targets.contains(targets[x]));
        assert(m.is_target(signer, scope, targets[x] as int));
    }
}

impl RaiElectionVoteState {
    pub fn first_tally(&self, committee: usize, value: BlockHashOrTimeout) -> (r: Amount)
        ensures
            r.raw == if committee < self.committees@.len() {
                self.deep_view().committees[committee as int].first_tally(value)
            } else {
                0
            },
    {
        if committee < self.committees.len() {
            self.committees[committee].weight_for(&Ballot::First(value))
        } else {
            Amount::zero()
        }
    }

    pub fn notarization_tally(&self, committee: usize, value: BlockHashOrTimeout) -> (r: Amount)
        ensures
            r.raw == if committee < self.committees@.len() {
                self.deep_view().committees[committee as int].notarization_tally(value)
            } else {
                0
            },
    {
        if committee < self.committees.len() {
            self.committees[committee].weight_for(&Ballot::Support(value))
        } else {
            Amount::zero()
        }
    }

    pub fn final_tally(&self, committee: usize, hash: BlockHash) -> (r: Amount)
        ensures
            r.raw == if committee < self.committees@.len() {
                self.deep_view().committees[committee as int].final_tally(hash)
            } else {
                0
            },
    {
        if committee < self.committees.len() {
            self.committees[committee].weight_for(&Ballot::Final(hash))
        } else {
            Amount::zero()
        }
    }

    pub fn has_timeout_certificate(&self, committee: usize) -> (r: bool)
        ensures
            r == (committee < self.committees@.len() && {
                let c = self.deep_view().committees[committee as int];
                c.notarization_tally(BlockHashOrTimeout::Timeout) >= c.thresholds.notarization.raw
            }),
    {
        if committee < self.committees.len() {
            self.notarization_tally(committee, BlockHashOrTimeout::Timeout).raw
                >= self.committees[committee].thresholds.notarization.raw
        } else {
            false
        }
    }

    pub fn timeout_ready(&self, committee: usize) -> (r: bool)
        ensures
            r == (committee < self.committees@.len()
                && self.deep_view().committees[committee as int].timeout_ready()),
    {
        committee < self.committees.len() && self.committees[committee].is_timeout_ready()
    }

    pub fn local_result(&self, committee: usize) -> (r: Option<RaiLocalResult>)
        ensures
            r == if committee < self.committees@.len() {
                self.deep_view().committees[committee as int].result()
            } else {
                None
            },
    {
        if committee < self.committees.len() {
            self.committees[committee].result()
        } else {
            None
        }
    }

    /// Whether a committee that the vote counts in objects.
    fn any_target(
        &self,
        targets: &Vec<usize>,
        signer: PublicKey,
        objection: &Objection,
        Ghost(scope): Ghost<RaiCommitteeScope>,
    ) -> (r: bool)
        requires
            forall|i: usize| #[trigger]
                targets@.contains(i) == self.deep_view().is_target(signer, scope, i as int),
        ensures
            r == self.deep_view().any_target(signer, scope, objection.test(signer)),
    {
        let ghost m = self.deep_view();
        let ghost p = objection.test(signer);
        proof {
            assert(self.committees@.len() == self.committees.len());
            lemma_any_target(m, signer, scope, targets@, p);
        }
        for j in 0..targets.len()
            invariant
                m == self.deep_view(),
                p == objection.test(signer),
                forall|i: usize| #[trigger] targets@.contains(i) == m.is_target(signer, scope, i as int),
                forall|x: int| 0 <= x < j ==> !#[trigger] p(m.committees[targets@[x] as int]),
                m.any_target(signer, scope, p) == exists|x: int|
                    0 <= x < targets@.len() && #[trigger] p(m.committees[targets@[x] as int]),
        {
            let i: usize = targets[j];
            proof {
                assert(targets@.contains(targets@[j as int]));
                assert(m.committees[i as int] == self.committees@[i as int].deep_view());
            }
            if self.committees[i].objects(&signer, objection) {
                return true;
            }
        }
        false
    }

    /// Counts a vote in the given committees.
    fn count(
        &mut self,
        targets: &Vec<usize>,
        signer: PublicKey,
        value: BlockHashOrTimeout,
        phase: RaiVotePhase,
        Ghost(scope): Ghost<RaiCommitteeScope>,
    )
        requires
            targets@.no_duplicates(),
            forall|i: usize| #[trigger]
                targets@.contains(i) == old(self).deep_view().is_target(signer, scope, i as int),
        ensures
            final(self).deep_view() == old(self).deep_view().with_vote(signer, value, phase, scope),
    {
        let ghost m = self.deep_view();
        let ghost after = m.with_vote(signer, value, phase, scope);
        proof {
            assert(self.committees@.len() == self.committees.len());
        }
        for j in 0..targets.len()
            invariant
                m.committees.len() <= usize::MAX,
                m == old(self).deep_view(),
                after == m.with_vote(signer, value, phase, scope),
                targets@.no_duplicates(),
                forall|i: usize| #[trigger] targets@.contains(i) == m.is_target(signer, scope, i as int),
                self.outcome == m.outcome,
                self.committees@.len() == m.committees.len(),
                forall|i: int|
                    0 <= i < m.committees.len() ==> (#[trigger] self.committees@[i]).deep_view() == (
                    if targets@.take(j as int).to_set().contains(i as usize) {
                        after.committees[i]
                    } else {
                        m.committees[i]
                    }),
        {
            let i: usize = targets[j];
            proof {
                lemma_take_distinct(targets@, j as int);
                assert(targets@.contains(targets@[j as int]));
                assert(self.committees@[i as int].deep_view() == m.committees[i as int]);
            }
            let ghost before = self.committees@;
            self.committees[i].votes.count(signer, value, phase);
            proof {
                assert forall|x: int| 0 <= x < m.committees.len() implies (#[trigger] self.committees@[x]).deep_view()
                    == (if targets@.take(j + 1).to_set().contains(x as usize) {
                    after.committees[x]
                } else {
                    m.committees[x]
                }) by {
                    if x != i {
                        assert(self.committees@[x] == before[x]);
                    }
                }
            }
        }
        proof {
            assert(targets@.take(targets@.len() as int) =~= targets@);
            assert forall|x: int| 0 <= x < m.committees.len() implies self.deep_view().committees[x]
                == after.committees[x] by {
                assert(self.committees@[x].deep_view() == self.deep_view().committees[x]);
                assert(targets@.contains(x as usize) == m.is_target(signer, scope, x));
            }
            assert(self.deep_view().committees =~= after.committees);
        }
    }

    /// Counts a first vote. A final vote can arrive before the first vote that
    /// was cast earlier: a late first vote counts when it agrees with it.
    pub fn record_first_vote(
        &mut self,
        signer: PublicKey,
        value: BlockHashOrTimeout,
        scope: RaiCommitteeScope,
    ) -> (r: Result<(), RaiVoteStateError>)
        ensures
            match r {
                Ok(_) => {
                    &&& old(self).deep_view().first_error(signer, value, scope) is None
                    &&& final(self).deep_view() == old(self).deep_view().with_vote(
                        signer,
                        value,
                        RaiVotePhase::First,
                        scope,
                    )
                },
                Err(error) => {
                    &&& old(self).deep_view().first_error(signer, value, scope) == Some(error)
                    &&& *final(self) == *old(self)
                },
            },
    {
        let targets = match self.checked_targets(signer, scope) {
            Ok(targets) => targets,
            Err(error) => return Err(error),
        };
        if self.any_target(&targets, signer, &Objection::HasFirst, Ghost(scope)) {
            return Err(RaiVoteStateError::DuplicateFirstVote);
        }
        if self.any_target(&targets, signer, &Objection::LockedOut(value), Ghost(scope)) {
            return Err(RaiVoteStateError::FinalLocked);
        }
        self.count(&targets, signer, value, RaiVotePhase::First, Ghost(scope));
        Ok(())
    }

    /// Counts a notarization vote beside the signer's earlier ones.
    pub fn record_notarization_vote(
        &mut self,
        signer: PublicKey,
        value: BlockHashOrTimeout,
        scope: RaiCommitteeScope,
    ) -> (r: Result<(), RaiVoteStateError>)
        ensures
            match r {
                Ok(_) => {
                    &&& old(self).deep_view().notarization_error(signer, value, scope) is None
                    &&& final(self).deep_view() == old(self).deep_view().with_vote(
                        signer,
                        value,
                        RaiVotePhase::Notar,
                        scope,
                    )
                },
                Err(error) => {
                    &&& old(self).deep_view().notarization_error(signer, value, scope) == Some(error)
                    &&& *final(self) == *old(self)
                },
            },
    {
        let targets = match self.checked_targets(signer, scope) {
            Ok(targets) => targets,
            Err(error) => return Err(error),
        };
        if self.any_target(&targets, signer, &Objection::LockedOut(value), Ghost(scope)) {
            return Err(RaiVoteStateError::FinalLocked);
        }
        self.count(&targets, signer, value, RaiVotePhase::Notar, Ghost(scope));
        Ok(())
    }

    /// Counts a final vote, which locks the signer to the block.
    pub fn record_final_value(
        &mut self,
        signer: PublicKey,
        value: BlockHashOrTimeout,
        scope: RaiCommitteeScope,
    ) -> (r: Result<(), RaiVoteStateError>)
        ensures
            match r {
                Ok(_) => {
                    &&& old(self).deep_view().final_error(signer, value, scope) is None
                    &&& final(self).deep_view() == old(self).deep_view().with_vote(
                        signer,
                        value,
                        RaiVotePhase::Final,
                        scope,
                    )
                },
                Err(error) => {
                    &&& old(self).deep_view().final_error(signer, value, scope) == Some(error)
                    &&& *final(self) == *old(self)
                },
            },
    {
        if let BlockHashOrTimeout::Timeout = value {
            return Err(RaiVoteStateError::TimeoutFinalVote);
        }
        let targets = match self.checked_targets(signer, scope) {
            Ok(targets) => targets,
            Err(error) => return Err(error),
        };
        if self.any_target(&targets, signer, &Objection::Locked, Ghost(scope)) {
            return Err(RaiVoteStateError::FinalLocked);
        }
        if self.any_target(&targets, signer, &Objection::Opposed(value), Ghost(scope)) {
            return Err(RaiVoteStateError::IncompatibleFinalSupport);
        }
        self.count(&targets, signer, value, RaiVotePhase::Final, Ghost(scope));
        Ok(())
    }

    pub fn record_final_vote(
        &mut self,
        signer: PublicKey,
        hash: BlockHash,
        scope: RaiCommitteeScope,
    ) -> (r: Result<(), RaiVoteStateError>)
        ensures
            match r {
                Ok(_) => {
                    &&& old(self).deep_view().final_error(signer, BlockHashOrTimeout::Block(hash), scope) is None
                    &&& final(self).deep_view() == old(self).deep_view().with_vote(
                        signer,
                        BlockHashOrTimeout::Block(hash),
                        RaiVotePhase::Final,
                        scope,
                    )
                },
                Err(error) => {
                    &&& old(self).deep_view().final_error(signer, BlockHashOrTimeout::Block(hash), scope) == Some(error)
                    &&& *final(self) == *old(self)
                },
            },
    {
        self.record_final_value(signer, BlockHashOrTimeout::Block(hash), scope)
    }

    /// Counts a vote of any phase. A notarization vote also needs the first
    /// votes to have come far enough.
    pub fn record_vote(
        &mut self,
        signer: PublicKey,
        value: BlockHashOrTimeout,
        phase: RaiVotePhase,
        scope: RaiCommitteeScope,
    ) -> (r: Result<(), RaiVoteStateError>)
        ensures
            match r {
                Ok(_) => {
                    &&& old(self).deep_view().vote_error(signer, value, phase, scope) is None
                    &&& final(self).deep_view() == old(self).deep_view().with_vote(signer, value, phase, scope)
                },
                Err(error) => {
                    &&& old(self).deep_view().vote_error(signer, value, phase, scope) == Some(error)
                    &&& *final(self) == *old(self)
                },
            },
    {
        match phase {
            RaiVotePhase::First => self.record_first_vote(signer, value, scope),
            RaiVotePhase::Notar => {
                let targets = match self.checked_targets(signer, scope) {
                    Ok(targets) => targets,
                    Err(error) => return Err(error),
                };
                match value {
                    BlockHashOrTimeout::Block(_) => {
                        if self.any_target(&targets, signer, &Objection::LacksFirst(value), Ghost(scope)) {
                            return Err(RaiVoteStateError::InsufficientFirstSupport);
                        }
                    },
                    BlockHashOrTimeout::Timeout => {
                        if self.any_target(&targets, signer, &Objection::NotTimeoutReady, Ghost(scope)) {
                            return Err(RaiVoteStateError::TimeoutNotReady);
                        }
                    },
                }
                self.record_notarization_vote(signer, value, scope)
            },
            RaiVotePhase::Final => self.record_final_value(signer, value, scope),
        }
    }
}

/// Why a committee would refuse a vote.
enum Objection {
    HasFirst,
    LockedOut(BlockHashOrTimeout),
    Locked,
    Opposed(BlockHashOrTimeout),
    LacksFirst(BlockHashOrTimeout),
    NotTimeoutReady,
}

impl Objection {
    spec fn test(self, signer: PublicKey) -> spec_fn(Committee) -> bool {
        match self {
            Objection::HasFirst => |c: Committee| c.votes.first.contains_key(signer),
            Objection::LockedOut(value) => |c: Committee| c.votes.locks_out(signer, value),
            Objection::Locked => |c: Committee| c.votes.final_locked.contains(signer),
            Objection::Opposed(value) => |c: Committee| c.votes.opposes(signer, value),
            Objection::LacksFirst(value) => |c: Committee|
                c.first_tally(value) < c.thresholds.progression.raw,
            Objection::NotTimeoutReady => |c: Committee| !c.timeout_ready(),
        }
    }
}

impl RaiCommitteeInstance {
    fn objects(&self, signer: &PublicKey, objection: &Objection) -> (r: bool)
        ensures
            r == (objection.test(*signer))(self.deep_view()),
    {
        match objection {
            Objection::HasFirst => self.votes.first.contains_key(signer),
            Objection::LockedOut(value) => self.votes.is_locked_out(signer, value),
            Objection::Locked => self.votes.final_locked.contains(signer),
            Objection::Opposed(value) => self.votes.is_opposed(signer, value),
            Objection::LacksFirst(value) => {
                self.weight_for(&Ballot::First(*value)).raw < self.thresholds.progression.raw
            },
            Objection::NotTimeoutReady => !self.is_timeout_ready(),
        }
    }
}

impl RaiCommitteeVoteState {
    fn count(&mut self, signer: PublicKey, value: BlockHashOrTimeout, phase: RaiVotePhase)
        ensures
            final(self).deep_view() == ElectionVotes::vote_in(old(self).deep_view(), signer, value, phase),
    {
        match phase {
            RaiVotePhase::First => {
                self.first.insert(signer, value);
            },
            RaiVotePhase::Notar => {
                self.add_notar(signer, value);
            },
            RaiVotePhase::Final => {
                if let BlockHashOrTimeout::Block(hash) = value {
                    self.final_votes.insert(signer, hash);
                    self.final_locked.insert(signer);
                }
            },
        }
    }

    fn add_notar(&mut self, signer: PublicKey, value: BlockHashOrTimeout)
        ensures
            final(self).deep_view() == old(self).deep_view().with_notar(signer, value),
    {
        match self.notar.get_mut(&signer) {
            Some(values) => {
                values.insert(value);
            },
            None => {
                let mut values: SortedSet<BlockHashOrTimeout> = SortedSet::new();
                values.insert(value);
                self.notar.insert(signer, values);
            },
        }
    }
}

proof fn lemma_tally_monotonic(weights: Map<PublicKey, Amount>, a: Set<PublicKey>, b: Set<PublicKey>)
    requires
        weights.dom().finite(),
        a.subset_of(b),
    ensures
        tally(weights, a) <= tally(weights, b),
{
    lemma_weight_monotonic(weights, weights.dom().intersect(a), weights.dom().intersect(b));
}

/// An accepted vote never lowers a tally, so no certificate is ever retracted.
pub proof fn accepted_vote_keeps_certificates(
    m: ElectionVotes,
    signer: PublicKey,
    value: BlockHashOrTimeout,
    phase: RaiVotePhase,
    scope: RaiCommitteeScope,
    i: int,
)
    requires
        m.honours_finals(),
        m.vote_error(signer, value, phase, scope) is None,
        0 <= i < m.committees.len(),
        m.committees[i].weights.dom().finite(),
    ensures
        ({
            let before = m.committees[i];
            let after = m.with_vote(signer, value, phase, scope).committees[i];
            &&& forall|v: BlockHashOrTimeout| #[trigger] before.first_tally(v) <= after.first_tally(v)
            &&& forall|v: BlockHashOrTimeout| #[trigger]
                before.notarization_tally(v) <= after.notarization_tally(v)
            &&& forall|h: BlockHash| #[trigger] before.final_tally(h) <= after.final_tally(h)
        }),
{
    let before = m.committees[i];
    let after = m.with_vote(signer, value, phase, scope).committees[i];
    if m.is_target(signer, scope, i) {
        if phase is First {
            let p = |c: Committee| c.votes.first.contains_key(signer);
            assert(!p(before));
        }
        if phase is Final {
            let p = |c: Committee| c.votes.final_locked.contains(signer);
            assert(!p(before));
            assert(before.votes.honours_finals());
        }
    }
    let b = before.votes;
    let a = after.votes;
    assert forall|v: BlockHashOrTimeout| #[trigger] before.first_tally(v) <= after.first_tally(v) by {
        lemma_tally_monotonic(before.weights, b.first_voters(v), a.first_voters(v));
    }
    assert forall|h: BlockHash| #[trigger] before.final_tally(h) <= after.final_tally(h) by {
        lemma_tally_monotonic(before.weights, b.final_voters(h), a.final_voters(h));
    }
    assert forall|v: BlockHashOrTimeout| #[trigger] before.notarization_tally(v) <= after.notarization_tally(v) by {
        assert forall|k: PublicKey| b.supporters(v).contains(k) implies a.supporters(v).contains(k) by {
            assert(b.first_voters(v).contains(k) ==> a.first_voters(v).contains(k));
            if let BlockHashOrTimeout::Block(h) = v {
                assert(b.final_voters(h).contains(k) ==> a.final_voters(h).contains(k));
            }
        }
        lemma_tally_monotonic(before.weights, b.supporters(v), a.supporters(v));
    }
}

/// Accepted votes keep every signer true to what they finalized.
pub proof fn accepted_vote_honours_finals(
    m: ElectionVotes,
    signer: PublicKey,
    value: BlockHashOrTimeout,
    phase: RaiVotePhase,
    scope: RaiCommitteeScope,
)
    requires
        m.honours_finals(),
        m.vote_error(signer, value, phase, scope) is None,
    ensures
        m.with_vote(signer, value, phase, scope).honours_finals(),
{
    let n = m.with_vote(signer, value, phase, scope);
    assert forall|i: int| 0 <= i < n.committees.len() implies (#[trigger] n.committees[i]).votes.honours_finals() by {
        let b = m.committees[i].votes;
        let a = n.committees[i].votes;
        assert(b.honours_finals());
        if m.is_target(signer, scope, i) {
            let locked_out = |c: Committee| c.votes.locks_out(signer, value);
            let opposes = |c: Committee| c.votes.opposes(signer, value);
            if phase is Final {
                assert(!opposes(m.committees[i]));
            } else {
                assert(!locked_out(m.committees[i]));
            }
            assert(a.final_locked =~= a.final_votes.dom());
            assert forall|k: PublicKey| #[trigger] a.final_votes.contains_key(k) implies !a.opposes(
                k,
                BlockHashOrTimeout::Block(a.final_votes[k]),
            ) by {
                let lock = BlockHashOrTimeout::Block(a.final_votes[k]);
                if k != signer {
                    assert(b.final_votes.contains_key(k));
                    assert(!b.opposes(k, lock));
                    if a.notar.contains_key(k) {
                        assert(b.notar[k] == a.notar[k]);
                    }
                } else if phase is Final {
                    assert(!b.opposes(k, lock));
                } else {
                    assert(b.final_votes.contains_key(k));
                    assert(b.final_locked.contains(k));
                    assert(value == lock);
                    assert(!b.opposes(k, lock));
                    if a.notar.contains_key(k) {
                        assert forall|other: BlockHashOrTimeout| #[trigger] a.notar[k].contains(other) implies other
                            == lock by {
                            if b.notar.contains_key(k) && b.notar[k].contains(other) {
                                assert(other == lock);
                            }
                        }
                    }
                }
            }
        }
    }
}

/// An election starts with every signer free.
pub proof fn new_election_honours_finals(weights: Seq<Map<PublicKey, Amount>>)
    ensures
        (ElectionVotes {
            committees: weights.map_values(|w: Map<PublicKey, Amount>| Committee::fresh(w)),
            outcome: RaiOutcome::Pending,
        }).honours_finals(),
{
    let c = weights.map_values(|w: Map<PublicKey, Amount>| Committee::fresh(w));
    assert forall|i: int| 0 <= i < c.len() implies (#[trigger] c[i]).votes.honours_finals() by {
        assert(c[i] == Committee::fresh(weights[i]));
        assert(c[i].votes.final_locked =~= c[i].votes.final_votes.dom());
    }
}

/// The weight of the representatives whose first vote is not for the block.
pub open spec fn weight_against(
    weights: Map<PublicKey, Amount>,
    first: Map<PublicKey, BlockHashOrTimeout>,
    hash: BlockHash,
) -> nat {
    tally(
        weights,
        Set::new(|signer: PublicKey| first.contains_key(signer) && first[signer] != BlockHashOrTimeout::Block(hash)),
    )
}

/// The faulty weight is the largest below a fifth of the total, the slack is
/// as large, and the thresholds are what is left of the total without them.
pub proof fn thresholds_follow_the_total(total: int)
    requires
        0 < total <= u128::MAX,
    ensures
        ({
            let t = thresholds_for(total);
            &&& 5 * t.faulty.raw < total <= 5 * t.faulty.raw + 5
            &&& t.slack == t.faulty
            &&& t.progression.raw == t.faulty.raw + t.slack.raw + 1
            &&& t.notarization.raw + t.faulty.raw + t.slack.raw == total
            &&& t.finalization == t.notarization
            &&& t.fast.raw + t.slack.raw == total
        }),
{
}

/// An election may time out exactly if, whichever block leads, first votes for
/// anything else outweigh faulty and slack weight together; a first vote for a
/// timeout is a vote against every block.
pub proof fn timeout_needs_votes_against_every_block(c: Committee)
    requires
        c.weights.dom().finite(),
    ensures
        c.timeout_ready() <==> forall|hash: BlockHash|
            #[trigger] weight_against(c.weights, c.votes.first, hash) > c.thresholds.faulty.raw + c.thresholds.slack.raw,
{
    assert forall|hash: BlockHash|
        tally(c.weights, c.votes.first.dom()) - #[trigger] c.first_tally(BlockHashOrTimeout::Block(hash))
            == #[trigger] weight_against(c.weights, c.votes.first, hash) by {
        let value = BlockHashOrTimeout::Block(hash);
        let against = Set::new(|signer: PublicKey| c.votes.first.contains_key(signer) && c.votes.first[signer] != value);
        let a = c.weights.dom().intersect(c.votes.first_voters(value));
        let b = c.weights.dom().intersect(against);
        lemma_weight_union(c.weights, a, b);
        assert(a.union(b) =~= c.weights.dom().intersect(c.votes.first.dom()));
        assert(a.intersect(b) =~= Set::empty());
    }
    if c.timeout_ready() {
        assert forall|hash: BlockHash|
            #[trigger] weight_against(c.weights, c.votes.first, hash) > c.thresholds.faulty.raw + c.thresholds.slack.raw by {
            let f = c.first_tally(BlockHashOrTimeout::Block(hash));
        }
    }
    if !c.timeout_ready() {
        let hash = choose|hash: BlockHash|
            !(tally(c.weights, c.votes.first.dom()) - #[trigger] c.first_tally(BlockHashOrTimeout::Block(hash))
                > c.thresholds.faulty.raw + c.thresholds.slack.raw);
        assert(weight_against(c.weights, c.votes.first, hash) <= c.thresholds.faulty.raw + c.thresholds.slack.raw);
    }
}

/// Where every first vote asks for a timeout, the election may time out exactly
/// if those votes outweigh faulty and slack weight together.
pub proof fn timeout_votes_alone_suffice(c: Committee)
    requires
        c.weights.dom().finite(),
        forall|signer: PublicKey| #[trigger]
            c.votes.first.contains_key(signer) ==> c.votes.first[signer] == BlockHashOrTimeout::Timeout,
    ensures
        c.timeout_ready() == (tally(c.weights, c.votes.first.dom()) > c.thresholds.faulty.raw + c.thresholds.slack.raw),
{
    timeout_needs_votes_against_every_block(c);
    assert forall|hash: BlockHash|
        #[trigger] weight_against(c.weights, c.votes.first, hash) == tally(c.weights, c.votes.first.dom()) by {
        let against = Set::new(
            |signer: PublicKey| c.votes.first.contains_key(signer) && c.votes.first[signer] != BlockHashOrTimeout::Block(hash),
        );
        assert(against =~= c.votes.first.dom());
    }
    let hash: BlockHash = arbitrary();
    let w = weight_against(c.weights, c.votes.first, hash);
    assert(w == tally(c.weights, c.votes.first.dom()));
}

/// Those that voted first for a value.
pub open spec fn first_for(votes: CommitteeVotes, value: BlockHashOrTimeout) -> Set<PublicKey> {
    Set::new(|signer: PublicKey| votes.first.contains_key(signer) && votes.first[signer] == value)
}

/// Those with a final vote for a block.
pub open spec fn final_for(votes: CommitteeVotes, hash: BlockHash) -> Set<PublicKey> {
    Set::new(|signer: PublicKey| votes.final_votes.contains_key(signer) && votes.final_votes[signer] == hash)
}

/// Whether a signer has voted for a value in any phase.
pub open spec fn supports(votes: CommitteeVotes, signer: PublicKey, value: BlockHashOrTimeout) -> bool {
    ||| votes.first.contains_key(signer) && votes.first[signer] == value
    ||| votes.notar.contains_key(signer) && votes.notar[signer].contains(value)
    ||| votes.final_votes.contains_key(signer) && value == BlockHashOrTimeout::Block(votes.final_votes[signer])
}

/// Those that voted for a value in any phase.
pub open spec fn all_for(votes: CommitteeVotes, value: BlockHashOrTimeout) -> Set<PublicKey> {
    Set::new(|signer: PublicKey| supports(votes, signer, value))
}

/// The weight that voted first for a value.
pub open spec fn weight_first_for(c: Committee, value: BlockHashOrTimeout) -> nat {
    tally(c.weights, first_for(c.votes, value))
}

/// The weight with a final vote for a block.
pub open spec fn weight_final_for(c: Committee, hash: BlockHash) -> nat {
    tally(c.weights, final_for(c.votes, hash))
}

/// The weight that voted for a value in any phase.
pub open spec fn weight_for(c: Committee, value: BlockHashOrTimeout) -> nat {
    tally(c.weights, all_for(c.votes, value))
}

/// Whether a value has a certificate of any kind.
pub open spec fn has_certificate(c: Committee, value: BlockHashOrTimeout) -> bool {
    ||| weight_for(c, value) >= c.thresholds.notarization.raw
    ||| value is Block && weight_first_for(c, value) >= c.thresholds.fast.raw
    ||| value matches BlockHashOrTimeout::Block(hash) && weight_final_for(c, hash) >= c.thresholds.finalization.raw
}

proof fn lemma_certificates(c: Committee, value: BlockHashOrTimeout)
    requires
        c.weights.dom().finite(),
        c.thresholds.notarization.raw > 0,
        c.thresholds.fast.raw > 0,
        c.thresholds.finalization.raw > 0,
    ensures
        c.notarized().contains(value) <==> weight_for(c, value) >= c.thresholds.notarization.raw,
        value matches BlockHashOrTimeout::Block(hash) ==> {
            &&& c.fast().contains(hash) <==> weight_first_for(c, value) >= c.thresholds.fast.raw
            &&& c.finalized().contains(hash) <==> weight_final_for(c, hash) >= c.thresholds.finalization.raw
        },
{
    let all = all_for(c.votes, value);
    assert(c.votes.supporters(value) =~= all);
    if !c.votes.voiced().contains(value) {
        assert forall|signer: PublicKey| !all.contains(signer) by {
            if all.contains(signer) {
                if c.votes.first.contains_key(signer) && c.votes.first[signer] == value {
                    assert(c.votes.first.values().contains(value));
                } else if c.votes.notar.contains_key(signer) && c.votes.notar[signer].contains(value) {
                    assert(members_of(c.votes.notar).contains(value));
                } else {
                    let hash = c.votes.final_votes[signer];
                    assert(c.votes.final_votes.values().contains(hash));
                }
            }
        }
        assert(c.weights.dom().intersect(all) =~= Set::empty());
        assert(weight_for(c, value) == 0);
    }
    if let BlockHashOrTimeout::Block(hash) = value {
        let first = first_for(c.votes, value);
        let finals = final_for(c.votes, hash);
        assert(c.votes.first_voters(value) =~= first);
        assert(c.votes.final_voters(hash) =~= finals);
        if !c.votes.voiced().contains(value) {
            assert forall|signer: PublicKey| !first.contains(signer) && !finals.contains(signer) by {
                assert(!all.contains(signer));
            }
            assert(c.weights.dom().intersect(first) =~= Set::empty());
            assert(c.weights.dom().intersect(finals) =~= Set::empty());
        }
    }
}

/// A committee has a result exactly if some value has a certificate. It is a
/// timeout if a timeout has one or two values have one; otherwise it is the
/// strongest certificate of the one value: final before fast before notarized.
pub proof fn one_certified_value_is_the_result(c: Committee, value: BlockHashOrTimeout, other: BlockHashOrTimeout)
    requires
        c.weights.dom().finite(),
        c.notarized().finite(),
        c.thresholds.notarization.raw > 0,
        c.thresholds.fast.raw > 0,
        c.thresholds.finalization.raw > 0,
    ensures
        c.result() is None <==> forall|v: BlockHashOrTimeout| !#[trigger] has_certificate(c, v),
        has_certificate(c, value) && has_certificate(c, other) && value != other ==> c.result() == Some(
            RaiLocalResult::Timeout,
        ),
        has_certificate(c, BlockHashOrTimeout::Timeout) ==> c.result() == Some(RaiLocalResult::Timeout),
        ({
            let alone = forall|v: BlockHashOrTimeout| #[trigger] has_certificate(c, v) ==> v == value;
            value matches BlockHashOrTimeout::Block(hash) ==> has_certificate(c, value) && alone ==> c.result() == Some(
                if weight_final_for(c, hash) >= c.thresholds.finalization.raw {
                    RaiLocalResult::Final(hash)
                } else if weight_first_for(c, value) >= c.thresholds.fast.raw {
                    RaiLocalResult::Fast(hash)
                } else {
                    RaiLocalResult::Notarized(hash)
                },
            )
        }),
{
    let strong = c.finalized().union(c.fast());
    let named = blocks_of(strong).union(c.notarized());
    assert forall|v: BlockHashOrTimeout| #[trigger] has_certificate(c, v) <==> named.contains(v) by {
        lemma_certificates(c, v);
    }
    assert forall|h: BlockHash| #[trigger] strong.contains(h) implies has_certificate(c, BlockHashOrTimeout::Block(h)) by {
        lemma_certificates(c, BlockHashOrTimeout::Block(h));
    }
    lemma_certificates(c, value);
    lemma_certificates(c, other);
    lemma_certificates(c, BlockHashOrTimeout::Timeout);
    if c.finalized() != Set::<BlockHash>::empty() {
        let h = c.finalized().choose();
        assert(c.finalized().contains(h)) by {
            if forall|x: BlockHash| !#[trigger] c.finalized().contains(x) {
                assert(c.finalized() =~= Set::empty());
            }
        }
        assert(strong.contains(h));
    }
    if c.fast() != Set::<BlockHash>::empty() {
        let h = c.fast().choose();
        assert(c.fast().contains(h)) by {
            if forall|x: BlockHash| !#[trigger] c.fast().contains(x) {
                assert(c.fast() =~= Set::empty());
            }
        }
        assert(strong.contains(h));
    }
    let notarized = c.notarized();
    if notarized != Set::<BlockHashOrTimeout>::empty() {
        let v = notarized.choose();
        assert(notarized.contains(v)) by {
            if forall|x: BlockHashOrTimeout| !#[trigger] notarized.contains(x) {
                assert(notarized =~= Set::empty());
            }
        }
        assert(has_certificate(c, v));
    }
    if has_certificate(c, value) && has_certificate(c, other) && value != other {
        assert(named.contains(value) && named.contains(other));
        if !c.is_contradictory() {
            lemma_not_strong(c, value, other);
            lemma_not_strong(c, other, value);
            assert(notarized.contains(value) && notarized.contains(other));
            assert(notarized.remove(value).contains(other));
            assert(notarized.remove(value).len() > 0) by {
                if notarized.remove(value).len() == 0 {
                    assert(notarized.remove(value) =~= Set::empty());
                }
            }
            assert(notarized.len() > 1);
            assert forall|h: BlockHash| !#[trigger] strong.contains(h) by {
                if strong.contains(h) {
                    let v = BlockHashOrTimeout::Block(h);
                    if v == value {
                        lemma_not_strong(c, value, other);
                    } else {
                        lemma_not_strong(c, v, value);
                    }
                }
            }
            assert(c.finalized() == Set::<BlockHash>::empty()) by {
                if c.finalized() != Set::<BlockHash>::empty() {
                    assert(strong.contains(c.finalized().choose()));
                }
            }
            assert(c.fast() == Set::<BlockHash>::empty()) by {
                if c.fast() != Set::<BlockHash>::empty() {
                    assert(strong.contains(c.fast().choose()));
                }
            }
        }
    }
    if has_certificate(c, BlockHashOrTimeout::Timeout) {
        assert(notarized.contains(BlockHashOrTimeout::Timeout));
        if !c.is_contradictory() {
            assert forall|h: BlockHash| !#[trigger] strong.contains(h) by {
                if strong.contains(h) {
                    lemma_not_strong(c, BlockHashOrTimeout::Block(h), BlockHashOrTimeout::Timeout);
                }
            }
            assert(c.finalized() == Set::<BlockHash>::empty()) by {
                if c.finalized() != Set::<BlockHash>::empty() {
                    assert(strong.contains(c.finalized().choose()));
                }
            }
            assert(c.fast() == Set::<BlockHash>::empty()) by {
                if c.fast() != Set::<BlockHash>::empty() {
                    assert(strong.contains(c.fast().choose()));
                }
            }
        }
    }
    if c.is_contradictory() {
        let (h, v) = choose|h: BlockHash, v: BlockHashOrTimeout| #[trigger]
            strong.contains(h) && v != BlockHashOrTimeout::Block(h) && #[trigger] named.contains(v);
        assert(has_certificate(c, v));
        assert(has_certificate(c, BlockHashOrTimeout::Block(h)));
    }
    if let BlockHashOrTimeout::Block(hash) = value {
        if has_certificate(c, value) && forall|v: BlockHashOrTimeout| #[trigger] has_certificate(c, v) ==> v == value {
            assert(!c.is_contradictory());
            if c.finalized() != Set::<BlockHash>::empty() {
                assert(has_certificate(c, BlockHashOrTimeout::Block(c.finalized().choose())));
            }
            if c.fast() != Set::<BlockHash>::empty() {
                assert(has_certificate(c, BlockHashOrTimeout::Block(c.fast().choose())));
            }
            assert(!notarized.contains(BlockHashOrTimeout::Timeout));
            if notarized.len() > 1 {
                let rest = notarized.remove(value);
                assert(rest.len() > 0);
                let v = rest.choose();
                assert(rest.contains(v));
                assert(has_certificate(c, v));
            }
        }
    }
    if c.result() is None {
        assert forall|v: BlockHashOrTimeout| !#[trigger] has_certificate(c, v) by {
            if has_certificate(c, v) {
                assert(named.contains(v));
            }
        }
    }
}

proof fn lemma_not_strong(c: Committee, value: BlockHashOrTimeout, other: BlockHashOrTimeout)
    requires
        !c.is_contradictory(),
        value != other,
        blocks_of(c.finalized().union(c.fast())).union(c.notarized()).contains(value),
        blocks_of(c.finalized().union(c.fast())).union(c.notarized()).contains(other),
    ensures
        value matches BlockHashOrTimeout::Block(hash) ==> !c.finalized().union(c.fast()).contains(hash),
        c.notarized().contains(value),
{
    let strong = c.finalized().union(c.fast());
    if let BlockHashOrTimeout::Block(hash) = value {
        if strong.contains(hash) {
            assert(blocks_of(strong).union(c.notarized()).contains(other));
        }
    }
}

/// The committees that a vote counts in: the oldest, the newest, or every one that
/// gives the signer weight.
pub open spec fn is_meant(m: ElectionVotes, signer: PublicKey, scope: RaiCommitteeScope, i: int) -> bool {
    &&& 0 <= i < m.committees.len()
    &&& scope is Older ==> i == 0
    &&& scope is Newer ==> i == m.committees.len() - 1
    &&& scope is All ==> weight_of(m.committees[i].weights, signer) > 0
}

/// A vote is accepted exactly if it counts somewhere, and each committee that it
/// counts in gives the signer weight and takes it. A first vote is taken once, and
/// never against the signer's own final vote; a notarization needs enough first
/// votes for its block, or readiness for a timeout, and does not contradict a final
/// vote; a final vote is for a block, comes once and contradicts no earlier vote.
pub proof fn committees_take_consistent_votes(
    m: ElectionVotes,
    signer: PublicKey,
    value: BlockHashOrTimeout,
    scope: RaiCommitteeScope,
)
    ensures
        ({
            let counts = exists|i: int| #[trigger] is_meant(m, signer, scope, i);
            let weighs = forall|i: int| #[trigger]
                is_meant(m, signer, scope, i) ==> weight_of(m.committees[i].weights, signer) > 0;
            let free = forall|i: int| #[trigger]
                is_meant(m, signer, scope, i) && m.committees[i].votes.final_locked.contains(signer)
                    ==> m.committees[i].votes.final_votes.contains_key(signer) && value == BlockHashOrTimeout::Block(
                    m.committees[i].votes.final_votes[signer],
                );
            &&& m.vote_error(signer, value, RaiVotePhase::First, scope) is None <==> counts && weighs && free && forall|
                i: int,
            | #[trigger]
                is_meant(m, signer, scope, i) ==> !m.committees[i].votes.first.contains_key(signer)
            &&& m.vote_error(signer, value, RaiVotePhase::Notar, scope) is None <==> counts && weighs && free && forall|
                i: int,
            | #[trigger]
                is_meant(m, signer, scope, i) ==> if value is Timeout {
                    m.committees[i].timeout_ready()
                } else {
                    weight_first_for(m.committees[i], value) >= m.committees[i].thresholds.progression.raw
                }
            &&& m.vote_error(signer, value, RaiVotePhase::Final, scope) is None <==> value is Block && counts && weighs
                && forall|i: int| #[trigger]
                is_meant(m, signer, scope, i) ==> {
                    let votes = m.committees[i].votes;
                    &&& !votes.final_locked.contains(signer)
                    &&& votes.first.contains_key(signer) ==> votes.first[signer] == value
                    &&& votes.notar.contains_key(signer) ==> forall|v: BlockHashOrTimeout| #[trigger]
                        votes.notar[signer].contains(v) ==> v == value
                }
            &&& !counts && (value is Block) ==> forall|phase: RaiVotePhase| #[trigger]
                m.vote_error(signer, value, phase, scope) == Some(RaiVoteStateError::EmptyScope)
        }),
{
    assert forall|i: int| #[trigger] is_meant(m, signer, scope, i) == m.is_target(signer, scope, i) by {
    }
    assert forall|i: int| #[trigger] m.is_target(signer, scope, i) == is_meant(m, signer, scope, i) by {
    }
    assert forall|i: int| #[trigger]
        is_meant(m, signer, scope, i) implies m.committees[i].first_tally(value) == weight_first_for(m.committees[i], value) by {
        let c = m.committees[i];
        let first = first_for(c.votes, value);
        assert(c.votes.first_voters(value) =~= first);
    }
    lemma_objection(m, signer, scope, |c: Committee| true);
    lemma_objection(m, signer, scope, |c: Committee| weight_of(c.weights, signer) == 0);
    lemma_objection(m, signer, scope, |c: Committee| c.votes.first.contains_key(signer));
    lemma_objection(m, signer, scope, |c: Committee| c.votes.locks_out(signer, value));
    lemma_objection(m, signer, scope, |c: Committee| c.first_tally(value) < c.thresholds.progression.raw);
    lemma_objection(m, signer, scope, |c: Committee| !c.timeout_ready());
    lemma_objection(m, signer, scope, |c: Committee| c.votes.final_locked.contains(signer));
    lemma_objection(m, signer, scope, |c: Committee| c.votes.opposes(signer, value));
}

proof fn lemma_objection(m: ElectionVotes, signer: PublicKey, scope: RaiCommitteeScope, p: spec_fn(Committee) -> bool)
    ensures
        m.any_target(signer, scope, p) <==> exists|i: int| #[trigger] is_meant(m, signer, scope, i) && p(m.committees[i]),
{
    if m.any_target(signer, scope, p) {
        let i = choose|i: int| #[trigger] m.is_target(signer, scope, i) && p(m.committees[i]);
        assert(is_meant(m, signer, scope, i));
    }
    if exists|i: int| #[trigger] is_meant(m, signer, scope, i) && p(m.committees[i]) {
        let i = choose|i: int| #[trigger] is_meant(m, signer, scope, i) && p(m.committees[i]);
        assert(m.is_target(signer, scope, i));
    }
}

/// An accepted vote adds the signer's weight to what it votes for, in each committee
/// that it counts in: a first vote to the first votes, a final vote to the final
/// ones, and any vote to the notarization, unless the signer supported the value
/// already. Nothing else changes there, and the other committees stay as they are.
pub proof fn accepted_vote_adds_its_weight(
    m: ElectionVotes,
    signer: PublicKey,
    value: BlockHashOrTimeout,
    phase: RaiVotePhase,
    scope: RaiCommitteeScope,
    i: int,
    other: BlockHashOrTimeout,
)
    requires
        m.honours_finals(),
        m.vote_error(signer, value, phase, scope) is None,
        0 <= i < m.committees.len(),
        m.committees[i].weights.dom().finite(),
    ensures
        ({
            let before = m.committees[i];
            let after = m.with_vote(signer, value, phase, scope).committees[i];
            let weight = weight_of(before.weights, signer);
            &&& !is_meant(m, signer, scope, i) ==> after == before
            &&& is_meant(m, signer, scope, i) ==> {
                &&& after.weights == before.weights && after.thresholds == before.thresholds
                &&& weight_first_for(after, value) == weight_first_for(before, value) + if phase is First {
                    weight
                } else {
                    0
                }
                &&& value matches BlockHashOrTimeout::Block(hash) ==> weight_final_for(after, hash) == weight_final_for(
                    before,
                    hash,
                ) + if phase is Final {
                    weight
                } else {
                    0
                }
                &&& weight_for(after, value) == weight_for(before, value) + if supports(before.votes, signer, value) {
                    0
                } else {
                    weight
                }
                &&& other != value ==> weight_first_for(after, other) == weight_first_for(before, other) && weight_for(
                    after,
                    other,
                ) == weight_for(before, other)
            }
        }),
{
    let before = m.committees[i];
    let after = m.with_vote(signer, value, phase, scope).committees[i];
    committees_take_consistent_votes(m, signer, value, scope);
    assert(is_meant(m, signer, scope, i) == m.is_target(signer, scope, i));
    if is_meant(m, signer, scope, i) {
        assert(before.votes.honours_finals());
        let w = before.weights;
        let first_before = first_for(before.votes, value);
        let first_after = first_for(after.votes, value);
        if phase is First {
            assert(first_after =~= first_before.insert(signer));
            assert(!first_before.contains(signer));
            lemma_tally_insert(w, first_before, signer);
        } else {
            assert(first_after =~= first_before);
        }
        if let BlockHashOrTimeout::Block(hash) = value {
            let final_before = final_for(before.votes, hash);
            let final_after = final_for(after.votes, hash);
            if phase is Final {
                assert(final_after =~= final_before.insert(signer));
                assert(!final_before.contains(signer)) by {
                    assert(before.votes.final_locked == before.votes.final_votes.dom());
                }
                lemma_tally_insert(w, final_before, signer);
            } else {
                assert(final_after =~= final_before);
            }
        }
        let all_before = all_for(before.votes, value);
        let all_after = all_for(after.votes, value);
        assert forall|s: PublicKey| all_after.contains(s) == all_before.insert(signer).contains(s) by {
        }
        assert(all_after =~= all_before.insert(signer));
        if supports(before.votes, signer, value) {
            assert(all_after =~= all_before);
        } else {
            lemma_tally_insert(w, all_before, signer);
        }
        if other != value {
            let a = first_for(before.votes, other);
            let b = first_for(after.votes, other);
            assert(a =~= b);
            let x = all_for(before.votes, other);
            let y = all_for(after.votes, other);
            assert forall|s: PublicKey| x.contains(s) == y.contains(s) by {
                if s == signer && phase is Final {
                    assert(before.votes.final_locked == before.votes.final_votes.dom());
                }
            }
            assert(x =~= y);
        }
    }
}

proof fn lemma_tally_insert(weights: Map<PublicKey, Amount>, voters: Set<PublicKey>, signer: PublicKey)
    requires
        weights.dom().finite(),
        !voters.contains(signer),
    ensures
        tally(weights, voters.insert(signer)) == tally(weights, voters) + weight_of(weights, signer),
{
    let a = weights.dom().intersect(voters);
    let b = weights.dom().intersect(voters.insert(signer));
    if weights.contains_key(signer) {
        lemma_weight_split(weights, b, signer);
        assert(b.remove(signer) =~= a);
    } else {
        assert(a =~= b);
    }
}

/// Committees with the same weights take part once, in the order of the list.
pub proof fn equal_committees_vote_once(all: Seq<Map<PublicKey, Amount>>, w: Map<PublicKey, Amount>)
    ensures
        distinct_weights(all).no_duplicates(),
        distinct_weights(all).contains(w) <==> all.contains(w),
        all.len() > 0 ==> distinct_weights(all).len() > 0 && distinct_weights(all)[0] == all[0],
        all.no_duplicates() ==> distinct_weights(all) == all,
    decreases all.len(),
{
    if all.len() > 0 {
        let rest = all.drop_last();
        let earlier = distinct_weights(rest);
        let last = all.last();
        equal_committees_vote_once(rest, w);
        equal_committees_vote_once(rest, last);
        assert(all.contains(w) <==> rest.contains(w) || w == last) by {
            if all.contains(w) {
                let i = choose|i: int| 0 <= i < all.len() && all[i] == w;
                assert(i < rest.len() ==> rest[i] == w);
            }
            if rest.contains(w) {
                let i = choose|i: int| 0 <= i < rest.len() && rest[i] == w;
                assert(all[i] == w);
            }
            if w == last {
                assert(all[all.len() - 1] == w);
            }
        }
        assert(earlier.push(last).contains(w) <==> earlier.contains(w) || w == last) by {
            if earlier.contains(w) {
                let i = choose|i: int| 0 <= i < earlier.len() && earlier[i] == w;
                assert(earlier.push(last)[i] == w);
            }
            if w == last {
                assert(earlier.push(last)[earlier.len() as int] == w);
            }
        }
        if all.no_duplicates() {
            assert(rest.no_duplicates()) by {
                assert forall|i: int, j: int| 0 <= i < rest.len() && 0 <= j < rest.len() && i != j implies rest[i] != rest[j] by {
                    assert(all[i] != all[j]);
                }
            }
            assert(!rest.contains(last)) by {
                if rest.contains(last) {
                    let i = choose|i: int| 0 <= i < rest.len() && rest[i] == last;
                    assert(all[i] == all[all.len() - 1]);
                }
            }
            assert(rest.push(last) =~= all);
        }
        assert(rest.len() > 0 ==> rest[0] == all[0]);
    }
}

}
