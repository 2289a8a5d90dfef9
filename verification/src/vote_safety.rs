//! The slot votes that every voter is bound by.
use vstd::prelude::*;

use crate::active_elections::{
    RaiActiveElectionsSnapshot, RaiVoteStateSnapshot, StoredElection, StoredSeat,
};
use crate::close_state::{CloseState, EpochRecord, RaiCloseState};
use crate::committee::RaiEpoch;
use crate::ordered::{
    ascending, lemma_ascending, lemma_take_distinct, pairs_of, sorted_map_is_finite, sorted_set_is_finite, Duplicate,
    Key, Pair, SortedMap, SortedSet,
};
use crate::types::{BlockHash, PublicKey, RaiElectionId, RaiElectionValue, RaiSlot, RaiVote};

verus! {

broadcast use {sorted_set_is_finite, sorted_map_is_finite};

/// Why a vote is not safe to cast.
#[derive(Clone, Copy, Debug, PartialEq, Eq, Structural)]
pub enum RaiVoteSafetyError {
    ConflictingUnreleasedSlotVote,
}

/// A voter, a slot and an epoch.
#[derive(Clone, Copy, Debug, PartialEq, Eq, PartialOrd, Ord, Structural)]
pub struct RaiVoteSafetyKey {
    pub voter: PublicKey,
    pub slot: RaiSlot,
    pub epoch: RaiEpoch,
}

impl Key for RaiVoteSafetyKey {
    open spec fn rank(self) -> int {
        Pair(self.voter, Pair(self.slot, self.epoch)).rank()
    }

    open spec fn span() -> int {
        Pair::<PublicKey, Pair<RaiSlot, RaiEpoch>>::span()
    }

    proof fn rank_in_span(self) {
        Pair(self.voter, Pair(self.slot, self.epoch)).rank_in_span();
    }

    proof fn rank_is_injective(a: Self, b: Self) {
        Pair::<PublicKey, Pair<RaiSlot, RaiEpoch>>::rank_is_injective(Pair(a.voter, Pair(a.slot, a.epoch)), Pair(b.voter, Pair(b.slot, b.epoch)));
    }

    fn precedes(&self, other: &Self) -> (r: bool) {
        Pair(self.voter, Pair(self.slot, self.epoch)).precedes(&Pair(other.voter, Pair(other.slot, other.epoch)))
    }
}

/// The blocks that a voter voted for, as they are stored.
#[derive(Debug, PartialEq, Eq)]
pub struct RaiVoteSafetyEntrySnapshot {
    pub voter: PublicKey,
    pub slot: RaiSlot,
    pub epoch: RaiEpoch,
    pub blocks: Vec<BlockHash>,
}

/// The model of a stored entry.
#[verifier::ext_equal]
pub struct StoredVotes {
    pub voter: PublicKey,
    pub slot: RaiSlot,
    pub epoch: RaiEpoch,
    pub blocks: Seq<BlockHash>,
}

impl DeepView for RaiVoteSafetyEntrySnapshot {
    type V = StoredVotes;

    open spec fn deep_view(&self) -> StoredVotes {
        StoredVotes { voter: self.voter, slot: self.slot, epoch: self.epoch, blocks: self.blocks@ }
    }
}

/// All stored entries.
#[derive(Debug, PartialEq, Eq)]
pub struct RaiVoteSafetySnapshot {
    pub entries: Vec<RaiVoteSafetyEntrySnapshot>,
}

impl DeepView for RaiVoteSafetySnapshot {
    type V = Seq<StoredVotes>;

    open spec fn deep_view(&self) -> Seq<StoredVotes> {
        self.entries.deep_view()
    }
}

/// For each voter, slot and epoch the blocks that were voted for.
pub type History = Map<RaiVoteSafetyKey, Set<BlockHash>>;

/// The blocks under a key; none where nothing is known.
pub open spec fn blocks_at(history: History, key: RaiVoteSafetyKey) -> Set<BlockHash> {
    if history.contains_key(key) {
        history[key]
    } else {
        Set::empty()
    }
}

/// The history with more blocks under a key.
pub open spec fn with_blocks(history: History, key: RaiVoteSafetyKey, blocks: Set<BlockHash>) -> History {
    history.insert(key, blocks_at(history, key).union(blocks))
}

/// The history that stored entries yield.
pub open spec fn history_from(stored: Seq<StoredVotes>) -> History
    decreases stored.len(),
{
    if stored.len() == 0 {
        Map::empty()
    } else {
        let last = stored.last();
        with_blocks(
            history_from(stored.drop_last()),
            RaiVoteSafetyKey { voter: last.voter, slot: last.slot, epoch: last.epoch },
            last.blocks.to_set(),
        )
    }
}

pub open spec fn stored_entry(key: RaiVoteSafetyKey, blocks: Set<BlockHash>) -> StoredVotes {
    StoredVotes { voter: key.voter, slot: key.slot, epoch: key.epoch, blocks: ascending(blocks) }
}

pub open spec fn stored_history(history: History) -> Seq<StoredVotes> {
    let pairs = pairs_of(history);
    Seq::new(pairs.len(), |i: int| stored_entry(pairs[i].0, pairs[i].1))
}

/// A block that a voter votes for, and where it is kept.
#[derive(Clone, Copy, Debug, PartialEq, Eq, Structural)]
pub struct SlotBlockVote {
    pub key: RaiVoteSafetyKey,
    pub block: BlockHash,
}

/// Where a vote for a block in a slot election is kept.
pub open spec fn place_of_vote(vote: RaiVote) -> Option<SlotBlockVote> {
    match (vote.election_id, vote.value) {
        (RaiElectionId::Slot { slot, epoch }, RaiElectionValue::Block(block)) => Some(
            SlotBlockVote { key: RaiVoteSafetyKey { voter: vote.voter, slot, epoch }, block },
        ),
        _ => None,
    }
}

/// The history after a vote was cast.
pub open spec fn after_vote(history: History, vote: RaiVote) -> History {
    match place_of_vote(vote) {
        Some(SlotBlockVote { key, block }) => with_blocks(history, key, set![block]),
        None => history,
    }
}

/// A vote in another epoch for another block still binds the voter.
pub open spec fn binds<V>(
    history: History,
    state: CloseState<V>,
    key: RaiVoteSafetyKey,
    cast: RaiVoteSafetyKey,
    block: BlockHash,
) -> bool {
    &&& history.contains_key(key)
    &&& key.voter == cast.voter
    &&& key.slot == cast.slot
    &&& key.epoch != cast.epoch
    &&& !state.epoch(if key.epoch < cast.epoch { key.epoch } else { cast.epoch }).releases(cast.slot)
    &&& exists|other: BlockHash| #[trigger] history[key].contains(other) && other != block
}

/// A vote that no earlier vote of the voter forbids.
pub open spec fn is_safe<V>(history: History, state: CloseState<V>, vote: RaiVote) -> bool {
    match place_of_vote(vote) {
        Some(SlotBlockVote { key: cast, block }) => forall|key: RaiVoteSafetyKey| !#[trigger] binds(history, state, key, cast, block),
        None => true,
    }
}

/// The blocks that a stored seat voted for.
pub open spec fn seat_blocks(seat: StoredSeat) -> Set<BlockHash> {
    Set::new(
        |block: BlockHash|
            {
                let value = RaiElectionValue::Block(block);
                seat.first == Some(value) || seat.notarized.contains(value) || seat.final_vote == Some(value)
            },
    )
}

/// The history with the votes of a stored seat of a slot election.
pub open spec fn with_seat(history: History, slot: RaiSlot, epoch: RaiEpoch, seat: StoredSeat) -> History {
    if seat_blocks(seat) == Set::<BlockHash>::empty() {
        history
    } else {
        with_blocks(history, RaiVoteSafetyKey { voter: seat.voter, slot, epoch }, seat_blocks(seat))
    }
}

pub open spec fn with_seats(history: History, slot: RaiSlot, epoch: RaiEpoch, seats: Seq<StoredSeat>) -> History
    decreases seats.len(),
{
    if seats.len() == 0 {
        history
    } else {
        with_seat(with_seats(history, slot, epoch, seats.drop_last()), slot, epoch, seats.last())
    }
}

/// The history with the votes of a stored election.
pub open spec fn with_election(history: History, election: StoredElection) -> History {
    match election.id {
        RaiElectionId::Slot { slot, epoch } => with_seats(history, slot, epoch, election.vote_states),
        _ => history,
    }
}

/// The history with the votes of stored elections.
pub open spec fn with_elections(history: History, elections: Seq<StoredElection>) -> History
    decreases elections.len(),
{
    if elections.len() == 0 {
        history
    } else {
        with_election(with_elections(history, elections.drop_last()), elections.last())
    }
}

/// The slot votes of all voters.
pub struct RaiVoteSafety {
    votes: SortedMap<RaiVoteSafetyKey, SortedSet<BlockHash>>,
}

impl View for RaiVoteSafety {
    type V = History;

    closed spec fn view(&self) -> History {
        self.votes@
    }
}

impl RaiVoteSafety {
    pub fn new() -> (r: Self)
        ensures
            r@ == Map::<RaiVoteSafetyKey, Set<BlockHash>>::empty(),
    {
        RaiVoteSafety { votes: SortedMap::new() }
    }

    fn record_blocks(&mut self, key: RaiVoteSafetyKey, blocks: &SortedSet<BlockHash>)
        ensures
            final(self)@ == with_blocks(old(self)@, key, blocks@),
    {
        let mut all: SortedSet<BlockHash> = SortedSet::new();
        match self.votes.get(&key) {
            Some(known) => {
                all = known.duplicate();
            },
            None => {},
        }
        all.extend(blocks);
        self.votes.insert(key, all);
    }

    fn record_block(&mut self, key: RaiVoteSafetyKey, block: BlockHash)
        ensures
            final(self)@ == with_blocks(old(self)@, key, set![block]),
    {
        let mut blocks: SortedSet<BlockHash> = SortedSet::new();
        blocks.insert(block);
        self.record_blocks(key, &blocks);
    }

    pub fn from_snapshot(snapshot: &RaiVoteSafetySnapshot) -> (r: Self)
        ensures
            r@ == history_from(snapshot.deep_view()),
    {
        let mut safety = RaiVoteSafety::new();
        let ghost all = snapshot.entries.deep_view();
        for i in 0..snapshot.entries.len()
            invariant
                all == snapshot.entries.deep_view(),
                safety@ == history_from(all.take(i as int)),
        {
            proof {
                assert(all.take(i + 1).drop_last() =~= all.take(i as int));
                assert(all[i as int] == snapshot.entries@[i as int].deep_view());
            }
            let entry = &snapshot.entries[i];
            let key = RaiVoteSafetyKey { voter: entry.voter, slot: entry.slot, epoch: entry.epoch };
            safety.record_blocks(key, &SortedSet::from_vec(&entry.blocks));
        }
        proof {
            assert(all.take(all.len() as int) =~= all);
        }
        safety
    }

    /// All entries in the order of their keys, each with its blocks in order.
    pub fn snapshot(&self) -> (r: RaiVoteSafetySnapshot)
        ensures
            r.deep_view() == stored_history(self@),
    {
        let mut entries: Vec<RaiVoteSafetyEntrySnapshot> = Vec::new();
        let n: usize = self.votes.len();
        let ghost stored = stored_history(self.votes@);
        for i in 0..n
            invariant
                n == self.votes@.len(),
                n == stored.len(),
                stored == stored_history(self.votes@),
                entries@.len() == i,
                forall|j: int| 0 <= j < i ==> (#[trigger] entries@[j]).deep_view() == stored[j],
        {
            let key = self.votes.key_at(i);
            entries.push(
                RaiVoteSafetyEntrySnapshot {
                    voter: key.voter,
                    slot: key.slot,
                    epoch: key.epoch,
                    blocks: self.votes.value_at(i).to_vec(),
                },
            );
        }
        proof {
            assert(entries.deep_view() =~= stored);
        }
        RaiVoteSafetySnapshot { entries }
    }

    /// Takes over the block votes of stored slot elections.
    pub fn merge_active_elections(&mut self, snapshot: &RaiActiveElectionsSnapshot)
        ensures
            final(self)@ == with_elections(old(self)@, snapshot.deep_view()),
    {
        let ghost before = self@;
        let ghost all = snapshot.elections.deep_view();
        for i in 0..snapshot.elections.len()
            invariant
                all == snapshot.elections.deep_view(),
                self@ == with_elections(before, all.take(i as int)),
        {
            proof {
                assert(all.take(i + 1).drop_last() =~= all.take(i as int));
                assert(all[i as int] == snapshot.elections@[i as int].deep_view());
            }
            let election = &snapshot.elections[i];
            if let RaiElectionId::Slot { slot, epoch } = election.id {
                self.merge_seats(slot, epoch, &election.vote_states);
            }
        }
        proof {
            assert(all.take(all.len() as int) =~= all);
        }
    }

    fn merge_seats(&mut self, slot: RaiSlot, epoch: RaiEpoch, seats: &Vec<RaiVoteStateSnapshot>)
        ensures
            final(self)@ == with_seats(old(self)@, slot, epoch, seats.deep_view()),
    {
        let ghost before = self@;
        let ghost all = seats.deep_view();
        for i in 0..seats.len()
            invariant
                all == seats.deep_view(),
                self@ == with_seats(before, slot, epoch, all.take(i as int)),
        {
            proof {
                assert(all.take(i + 1).drop_last() =~= all.take(i as int));
                assert(all[i as int] == seats@[i as int].deep_view());
            }
            let blocks = block_votes(&seats[i]);
            if !blocks.is_empty() {
                self.record_blocks(RaiVoteSafetyKey { voter: seats[i].voter, slot, epoch }, &blocks);
            }
        }
        proof {
            assert(all.take(all.len() as int) =~= all);
        }
    }

    /// Remembers a vote for a block in a slot election.
    pub fn record_vote(&mut self, vote: &RaiVote)
        ensures
            final(self)@ == after_vote(old(self)@, *vote),
    {
        if let Some(SlotBlockVote { key, block }) = slot_block_vote(vote) {
            self.record_block(key, block);
        }
    }

    /// The entry that holds a vote, as it is stored.
    pub fn snapshot_entry_for_vote(&self, vote: &RaiVote) -> (r: Option<RaiVoteSafetyEntrySnapshot>)
        ensures
            match r {
                Some(entry) => {
                    &&& place_of_vote(*vote) is Some
                    &&& self@.contains_key(place_of_vote(*vote)->0.key)
                    &&& entry.deep_view() == stored_entry(
                        place_of_vote(*vote)->0.key,
                        self@[place_of_vote(*vote)->0.key],
                    )
                },
                None => place_of_vote(*vote) is None || !self@.contains_key(place_of_vote(*vote)->0.key),
            },
    {
        match slot_block_vote(vote) {
            None => None,
            Some(SlotBlockVote { key, block: _ }) => match self.votes.get(&key) {
                None => None,
                Some(blocks) => Some(
                    RaiVoteSafetyEntrySnapshot {
                        voter: key.voter,
                        slot: key.slot,
                        epoch: key.epoch,
                        blocks: blocks.to_vec(),
                    },
                ),
            },
        }
    }

    /// Whether a vote is safe to cast.
    pub fn validate<R: EpochRecord>(&self, close_state: &RaiCloseState<R>, vote: &RaiVote) -> (r: Result<
        (),
        RaiVoteSafetyError,
    >)
        ensures
            r is Ok == is_safe(self@, close_state@, *vote),
    {
        let place = match slot_block_vote(vote) {
            None => return Ok(()),
            Some(place) => place,
        };
        let cast = place.key;
        let block = place.block;
        let n: usize = self.votes.len();
        let ghost keys = ascending(self.votes@.dom());
        proof {
            lemma_ascending(self.votes@.dom());
        }
        for i in 0..n
            invariant
                n == self.votes@.len(),
                n == keys.len(),
                keys == ascending(self.votes@.dom()),
                place_of_vote(*vote) == Some(SlotBlockVote { key: cast, block }),
                forall|j: int| 0 <= j < i ==> !binds(self@, close_state@, #[trigger] keys[j], cast, block),
        {
            let key = self.votes.key_at(i);
            if key.voter == cast.voter && key.slot == cast.slot && key.epoch != cast.epoch {
                let earlier: RaiEpoch = if key.epoch < cast.epoch {
                    key.epoch
                } else {
                    cast.epoch
                };
                if !close_state.is_slot_vote_released(earlier, &cast.slot) && names_other(
                    self.votes.value_at(i),
                    block,
                ) {
                    proof {
                        lemma_unsafe(self@, close_state@, *vote, key);
                    }
                    return Err(RaiVoteSafetyError::ConflictingUnreleasedSlotVote);
                }
            }
        }
        proof {
            assert forall|key: RaiVoteSafetyKey| !#[trigger] binds(self@, close_state@, key, cast, block) by {
                if self@.contains_key(key) {
                    assert(keys.contains(key));
                    let j = choose|j: int| 0 <= j < keys.len() && keys[j] == key;
                    assert(!binds(self@, close_state@, keys[j], cast, block));
                }
            }
        }
        Ok(())
    }
}

impl Default for RaiVoteSafety {
    fn default() -> (r: Self)
        ensures
            r@ == Map::<RaiVoteSafetyKey, Set<BlockHash>>::empty(),
    {
        RaiVoteSafety::new()
    }
}

proof fn lemma_unsafe<V>(history: History, state: CloseState<V>, vote: RaiVote, key: RaiVoteSafetyKey)
    requires
        place_of_vote(vote) is Some,
        binds(history, state, key, place_of_vote(vote)->0.key, place_of_vote(vote)->0.block),
    ensures
        !is_safe(history, state, vote),
{
}

fn names_other(blocks: &SortedSet<BlockHash>, block: BlockHash) -> (r: bool)
    ensures
        r == exists|other: BlockHash| #[trigger] blocks@.contains(other) && other != block,
{
    let n: usize = blocks.len();
    let ghost all = ascending(blocks@);
    proof {
        lemma_ascending(blocks@);
    }
    for i in 0..n
        invariant
            n == blocks@.len(),
            n == all.len(),
            all == ascending(blocks@),
            forall|j: int| 0 <= j < i ==> #[trigger] all[j] == block,
    {
        let other = blocks.at(i);
        if other != block {
            proof {
                assert(blocks@.contains(other));
            }
            return true;
        }
    }
    proof {
        assert forall|other: BlockHash| #[trigger] blocks@.contains(other) implies other == block by {
            assert(all.contains(other));
        }
    }
    false
}

fn slot_block_vote(vote: &RaiVote) -> (r: Option<SlotBlockVote>)
    ensures
        r == place_of_vote(*vote),
{
    match (&vote.election_id, &vote.value) {
        (RaiElectionId::Slot { slot, epoch }, RaiElectionValue::Block(block)) => Some(
            SlotBlockVote {
                key: RaiVoteSafetyKey { voter: vote.voter, slot: *slot, epoch: *epoch },
                block: *block,
            },
        ),
        _ => None,
    }
}

fn block_votes(seat: &RaiVoteStateSnapshot) -> (r: SortedSet<BlockHash>)
    ensures
        r@ == seat_blocks(seat.deep_view()),
{
    let mut blocks: SortedSet<BlockHash> = SortedSet::new();
    if let Some(RaiElectionValue::Block(block)) = seat.first {
        blocks.insert(block);
    }
    if let Some(RaiElectionValue::Block(block)) = seat.final_vote {
        blocks.insert(block);
    }
    let ghost before = blocks@;
    for i in 0..seat.notarized.len()
        invariant
            forall|block: BlockHash| #[trigger]
                blocks@.contains(block) == (before.contains(block) || exists|j: int|
                    0 <= j < i && #[trigger] seat.notarized@[j] == RaiElectionValue::Block(block)),
    {
        if let RaiElectionValue::Block(block) = seat.notarized[i] {
            blocks.insert(block);
        }
    }
    proof {
        assert(blocks@ =~= seat_blocks(seat.deep_view()));
    }
    blocks
}

/// A stored history is read back as it was.
pub proof fn stored_history_round_trip(history: History)
    requires
        history.dom().finite(),
        forall|key: RaiVoteSafetyKey| #[trigger] history.contains_key(key) ==> history[key].finite(),
    ensures
        history_from(stored_history(history)) == history,
{
    let pairs = pairs_of(history);
    lemma_ascending(history.dom());
    lemma_history_back(history, pairs.len() as int);
    assert(stored_history(history).take(pairs.len() as int) =~= stored_history(history));
    let keys = ascending(history.dom());
    assert(keys.take(pairs.len() as int) =~= keys);
    assert(history.restrict(keys.to_set()) =~= history);
}

proof fn lemma_history_back(history: History, n: int)
    requires
        history.dom().finite(),
        forall|key: RaiVoteSafetyKey| #[trigger] history.contains_key(key) ==> history[key].finite(),
        0 <= n <= pairs_of(history).len(),
    ensures
        history_from(stored_history(history).take(n)) == history.restrict(ascending(history.dom()).take(n).to_set()),
    decreases n,
{
    let keys = ascending(history.dom());
    let stored = stored_history(history);
    lemma_ascending(history.dom());
    if n == 0 {
        assert(history.restrict(keys.take(0).to_set()) =~= Map::<RaiVoteSafetyKey, Set<BlockHash>>::empty());
    } else {
        lemma_history_back(history, n - 1);
        lemma_take_distinct(keys, n - 1);
        assert(stored.take(n).drop_last() =~= stored.take(n - 1));
        let key = keys[n - 1];
        assert(history.contains_key(key));
        lemma_ascending(history[key]);
        let part = history.restrict(keys.take(n - 1).to_set());
        assert(!part.contains_key(key));
        assert(Set::<BlockHash>::empty().union(history[key]) =~= history[key]);
        assert(stored.take(n).last() == stored_entry(key, history[key]));
        assert(with_blocks(part, key, history[key]) =~= history.restrict(keys.take(n).to_set()));
    }
}

/// Remembering votes never forgets any: the blocks under every key only grow.
pub proof fn history_only_grows(history: History, vote: RaiVote, key: RaiVoteSafetyKey)
    ensures
        blocks_at(history, key).subset_of(blocks_at(after_vote(history, vote), key)),
        history.contains_key(key) ==> after_vote(history, vote).contains_key(key),
{
}

/// A vote that was remembered forbids, until its epoch releases the slot, every
/// vote of the voter for another block of the slot in a later epoch.
pub proof fn remembered_vote_binds<V>(history: History, state: CloseState<V>, cast: RaiVote, later: RaiVote)
    requires
        place_of_vote(cast) is Some,
        place_of_vote(later) is Some,
        cast.voter == later.voter,
        place_of_vote(cast)->0.key.slot == place_of_vote(later)->0.key.slot,
        place_of_vote(cast)->0.key.epoch < place_of_vote(later)->0.key.epoch,
        place_of_vote(cast)->0.block != place_of_vote(later)->0.block,
        !state.epoch(place_of_vote(cast)->0.key.epoch).releases(place_of_vote(cast)->0.key.slot),
    ensures
        !is_safe(after_vote(history, cast), state, later),
{
    let SlotBlockVote { key, block } = place_of_vote(cast)->0;
    let SlotBlockVote { key: next, block: other } = place_of_vote(later)->0;
    let h = after_vote(history, cast);
    assert(h[key].contains(block));
    assert(binds(h, state, key, next, other));
}

/// Votes of other voters, and votes for other slots, bind nobody here.
pub proof fn history_is_scoped<V>(history: History, state: CloseState<V>, cast: RaiVote, later: RaiVote)
    requires
        place_of_vote(cast) is Some,
        place_of_vote(later) is Some,
        cast.voter != later.voter || place_of_vote(cast)->0.key.slot != place_of_vote(later)->0.key.slot,
    ensures
        is_safe(after_vote(history, cast), state, later) == is_safe(history, state, later),
{
    let SlotBlockVote { key, block } = place_of_vote(cast)->0;
    let SlotBlockVote { key: next, block: other } = place_of_vote(later)->0;
    let h = after_vote(history, cast);
    assert forall|k: RaiVoteSafetyKey| #[trigger] binds(h, state, k, next, other) == binds(
        history,
        state,
        k,
        next,
        other,
    ) by {
        if k != key {
            assert(h.contains_key(k) == history.contains_key(k));
            assert(h.contains_key(k) ==> h[k] == history[k]);
        } else {
            assert(k.voter != next.voter || k.slot != next.slot);
        }
    }
    if is_safe(history, state, later) {
        assert forall|k: RaiVoteSafetyKey| !#[trigger] binds(h, state, k, next, other) by {
            assert(!binds(history, state, k, next, other));
        }
    }
    if is_safe(h, state, later) {
        assert forall|k: RaiVoteSafetyKey| !#[trigger] binds(history, state, k, next, other) by {
            assert(!binds(h, state, k, next, other));
        }
    }
}

/// A vote for a block of a slot is safe exactly if the voter never voted for another
/// block of the slot in another epoch, unless the earlier of the two epochs has
/// released the slot. Any other vote is safe.
pub proof fn safe_votes_contradict_no_earlier_one<V>(
    history: History,
    state: CloseState<V>,
    vote: RaiVote,
    slot: RaiSlot,
    epoch: RaiEpoch,
    block: BlockHash,
)
    ensures
        vote.election_id == (RaiElectionId::Slot { slot, epoch }) && vote.value == RaiElectionValue::Block(block) ==> (is_safe(
            history,
            state,
            vote,
        ) <==> forall|key: RaiVoteSafetyKey, other: BlockHash|
            #![trigger history[key].contains(other)]
            history.contains_key(key) && history[key].contains(other) && key.voter == vote.voter && key.slot == slot && key.epoch
                != epoch && other != block ==> {
                &&& key.epoch < epoch ==> state.epoch(key.epoch).releases(slot)
                &&& epoch < key.epoch ==> state.epoch(epoch).releases(slot)
            }),
        !(vote.election_id is Slot) || !(vote.value is Block) ==> is_safe(history, state, vote),
{
    if vote.election_id == (RaiElectionId::Slot { slot, epoch }) && vote.value == RaiElectionValue::Block(block) {
        let cast = RaiVoteSafetyKey { voter: vote.voter, slot, epoch };
        assert(place_of_vote(vote) == Some(SlotBlockVote { key: cast, block }));
        if is_safe(history, state, vote) {
            assert forall|key: RaiVoteSafetyKey, other: BlockHash|
                #![trigger history[key].contains(other)]
                history.contains_key(key) && history[key].contains(other) && key.voter == vote.voter && key.slot == slot
                    && key.epoch != epoch && other != block implies {
                &&& key.epoch < epoch ==> state.epoch(key.epoch).releases(slot)
                &&& epoch < key.epoch ==> state.epoch(epoch).releases(slot)
            } by {
                let SlotBlockVote { key: place, block: named } = place_of_vote(vote)->0;
                assert(!binds(history, state, key, place, named));
                assert(history[key].contains(other) && other != block);
            }
        } else {
            let key = choose|key: RaiVoteSafetyKey| #[trigger] binds(history, state, key, cast, block);
            let other = choose|other: BlockHash| #[trigger] history[key].contains(other) && other != block;
            assert(history[key].contains(other));
        }
    }
}

/// A vote for a block of a slot is remembered under its voter, slot and epoch, with
/// what was remembered there before; nothing else changes, and other votes are not
/// remembered.
pub proof fn votes_are_remembered_where_they_were_cast(history: History, vote: RaiVote, key: RaiVoteSafetyKey, b: BlockHash)
    ensures
        ({
            let after = after_vote(history, vote);
            let held = history.contains_key(key) && history[key].contains(b);
            let cast = vote.voter == key.voter && vote.election_id == (RaiElectionId::Slot { slot: key.slot, epoch: key.epoch })
                && vote.value == RaiElectionValue::Block(b);
            after.contains_key(key) && after[key].contains(b) <==> held || cast
        }),
{
}

/// The block that a seat voted for in any phase.
pub open spec fn voted_for(seat: StoredSeat, block: BlockHash) -> bool {
    let value = RaiElectionValue::Block(block);
    seat.first == Some(value) || seat.notarized.contains(value) || seat.final_vote == Some(value)
}

proof fn lemma_seats_merged(
    history: History,
    slot: RaiSlot,
    epoch: RaiEpoch,
    seats: Seq<StoredSeat>,
    key: RaiVoteSafetyKey,
    block: BlockHash,
)
    ensures
        ({
            let after = with_seats(history, slot, epoch, seats);
            after.contains_key(key) && after[key].contains(block) <==> (history.contains_key(key) && history[key].contains(block))
                || (key.slot == slot && key.epoch == epoch && exists|i: int|
                0 <= i < seats.len() && (#[trigger] seats[i]).voter == key.voter && voted_for(seats[i], block))
        }),
    decreases seats.len(),
{
    if seats.len() > 0 {
        let front = seats.drop_last();
        let n = seats.len() - 1;
        lemma_seats_merged(history, slot, epoch, front, key, block);
        assert forall|i: int| 0 <= i < n implies #[trigger] front[i] == seats[i] by {
        }
        assert forall|i: int| 0 <= i < n implies #[trigger] seats[i] == front[i] by {
        }
        let last = seats[n];
        assert(seat_blocks(last).contains(block) == voted_for(last, block));
        if exists|i: int| 0 <= i < seats.len() && (#[trigger] seats[i]).voter == key.voter && voted_for(seats[i], block) {
            let i = choose|i: int| 0 <= i < seats.len() && (#[trigger] seats[i]).voter == key.voter && voted_for(seats[i], block);
            if i < n {
                assert(front[i] == seats[i]);
            }
        }
        if exists|i: int| 0 <= i < front.len() && (#[trigger] front[i]).voter == key.voter && voted_for(front[i], block) {
            let i = choose|i: int| 0 <= i < front.len() && (#[trigger] front[i]).voter == key.voter && voted_for(front[i], block);
            assert(seats[i] == front[i]);
        }
        if seat_blocks(last) == Set::<BlockHash>::empty() {
            assert(!seat_blocks(last).contains(block));
        }
    }
}

/// Taking in an election of a slot remembers exactly the blocks that its seats voted for,
/// first, by notarization or finally, under their voters; other elections add nothing.
pub proof fn seats_are_remembered(history: History, election: StoredElection, key: RaiVoteSafetyKey, block: BlockHash)
    ensures
        ({
            let after = with_election(history, election);
            after.contains_key(key) && after[key].contains(block) <==> (history.contains_key(key) && history[key].contains(block))
                || (election.id == (RaiElectionId::Slot { slot: key.slot, epoch: key.epoch }) && exists|i: int|
                0 <= i < election.vote_states.len() && (#[trigger] election.vote_states[i]).voter == key.voter && voted_for(
                    election.vote_states[i],
                    block,
                ))
        }),
{
    if let RaiElectionId::Slot { slot, epoch } = election.id {
        lemma_seats_merged(history, slot, epoch, election.vote_states, key, block);
    }
}

}
