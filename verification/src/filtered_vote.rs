//! Votes of which only one block counts.
use vstd::prelude::*;

use crate::close_round::RaiCloseElectionId;
use crate::types::{BlockHash, RaiCommitteeScope, RaiEpoch, RaiSlotId, RaiVotePhase};

verus! {

/// How a vote came in.
#[derive(Clone, Copy, Debug, PartialEq, Eq, Structural)]
pub enum VoteDelivery {
    Direct,
    Rebroadcast,
    Cached,
}

/// The election that a leaf of a vote is for.
#[derive(Clone, Copy, Debug, PartialEq, Eq, Structural)]
pub enum RaiLeafElection {
    Slot(RaiSlotId),
    Close(RaiCloseElectionId),
}

/// What a vote says of one of its blocks.
#[derive(Clone, Copy, Debug, PartialEq, Eq, Structural)]
pub struct RaiVoteMetadata {
    pub election_id: RaiLeafElection,
    pub phase: RaiVotePhase,
    pub epoch: RaiEpoch,
    pub scope: RaiCommitteeScope,
}

/// A block of a vote with what the vote says of it.
#[derive(Clone, Copy, Debug, PartialEq, Eq, Structural)]
pub struct RaiVoteEntry {
    pub metadata: RaiVoteMetadata,
    pub hash: BlockHash,
}

/// A vote and how it came in. What it says of its blocks stands in their order.
pub struct ReceivedVote {
    pub hashes: Vec<BlockHash>,
    pub metadata: Vec<RaiVoteMetadata>,
    pub delivery: VoteDelivery,
    pub channel_id: Option<usize>,
}

impl ReceivedVote {
    pub fn new(
        hashes: Vec<BlockHash>,
        metadata: Vec<RaiVoteMetadata>,
        source: VoteDelivery,
        channel_id: Option<usize>,
    ) -> (r: Self)
        ensures
            r.hashes@ == hashes@,
            r.metadata@ == metadata@,
            r.delivery == source,
            r.channel_id == channel_id,
    {
        ReceivedVote { hashes, metadata, delivery: source, channel_id }
    }

    /// The blocks with what the vote says of them.
    pub open spec fn entries(&self) -> Seq<RaiVoteEntry> {
        Seq::new(
            if self.metadata@.len() < self.hashes@.len() {
                self.metadata@.len()
            } else {
                self.hashes@.len()
            },
            |i: int| RaiVoteEntry { metadata: self.metadata@[i], hash: self.hashes@[i] },
        )
    }
}

/// A vote of which only one block counts, or every one if the filter is zero.
pub struct FilteredVote {
    pub vote: ReceivedVote,
    pub filter: BlockHash,
}

/// The filter lets the block pass.
pub open spec fn passes(filter: BlockHash, hash: BlockHash) -> bool {
    filter == (BlockHash { hi: 0, lo: 0 }) || hash == filter
}

impl FilteredVote {
    pub fn new(vote: ReceivedVote, filter: BlockHash) -> (r: Self)
        ensures
            r.vote == vote,
            r.filter == filter,
    {
        FilteredVote { vote, filter }
    }

    fn admits(&self, hash: &BlockHash) -> (r: bool)
        ensures
            r == passes(self.filter, *hash),
    {
        self.filter.is_zero() || *hash == self.filter
    }

    /// The blocks that count.
    pub fn filtered_blocks(&self) -> (r: Vec<BlockHash>)
        ensures
            r@ == self.vote.hashes@.filter(|h: BlockHash| passes(self.filter, h)),
    {
        let mut r: Vec<BlockHash> = Vec::new();
        let ghost q = self.vote.hashes@;
        let ghost f = |h: BlockHash| passes(self.filter, h);
        proof {
            reveal(Seq::filter);
            assert(r@ =~= q.take(0).filter(f));
        }
        for i in 0..self.vote.hashes.len()
            invariant
                q == self.vote.hashes@,
                f == (|h: BlockHash| passes(self.filter, h)),
                r@ == q.take(i as int).filter(f),
        {
            let hash = self.vote.hashes[i];
            if self.admits(&hash) {
                r.push(hash);
            }
            proof {
                reveal(Seq::filter);
                assert(q.take(i + 1).drop_last() =~= q.take(i as int));
            }
        }
        proof {
            assert(q.take(q.len() as int) =~= q);
        }
        r
    }

    /// The blocks that count, each with what the vote says of it. Blocks and
    /// what is said of them go by position, so they are filtered together.
    pub fn filtered_rai_entries(&self) -> (r: Vec<RaiVoteEntry>)
        ensures
            r@ == self.vote.entries().filter(|e: RaiVoteEntry| passes(self.filter, e.hash)),
    {
        let mut r: Vec<RaiVoteEntry> = Vec::new();
        let ghost q = self.vote.entries();
        let ghost f = |e: RaiVoteEntry| passes(self.filter, e.hash);
        let count: usize = if self.vote.metadata.len() < self.vote.hashes.len() {
            self.vote.metadata.len()
        } else {
            self.vote.hashes.len()
        };
        proof {
            reveal(Seq::filter);
            assert(r@ =~= q.take(0).filter(f));
        }
        for i in 0..count
            invariant
                q == self.vote.entries(),
                q.len() == count,
                count <= self.vote.metadata.len(),
                count <= self.vote.hashes.len(),
                f == (|e: RaiVoteEntry| passes(self.filter, e.hash)),
                r@ == q.take(i as int).filter(f),
        {
            let entry = RaiVoteEntry { metadata: self.vote.metadata[i], hash: self.vote.hashes[i] };
            if self.admits(&entry.hash) {
                r.push(entry);
            }
            proof {
                reveal(Seq::filter);
                assert(q.take(i + 1).drop_last() =~= q.take(i as int));
                assert(q.take(i + 1).last() == entry);
            }
        }
        proof {
            assert(q.take(q.len() as int) =~= q);
        }
        r
    }
}

impl From<ReceivedVote> for FilteredVote {
    fn from(value: ReceivedVote) -> (r: Self) {
        FilteredVote { vote: value, filter: BlockHash::zero() }
    }
}

impl vstd::std_specs::convert::FromSpecImpl<ReceivedVote> for FilteredVote {
    open spec fn obeys_from_spec() -> bool {
        true
    }

    open spec fn from_spec(value: ReceivedVote) -> Self {
        FilteredVote { vote: value, filter: BlockHash { hi: 0, lo: 0 } }
    }
}

proof fn lemma_filtered_entries(vote: ReceivedVote, filter: BlockHash, n: int, e: RaiVoteEntry)
    requires
        0 <= n <= vote.entries().len(),
        vote.entries().take(n).filter(|e: RaiVoteEntry| passes(filter, e.hash)).contains(e),
    ensures
        exists|i: int| 0 <= i < n && #[trigger] vote.metadata@[i] == e.metadata && vote.hashes@[i] == e.hash,
        passes(filter, e.hash),
    decreases n,
{
    reveal(Seq::filter);
    let f = |e: RaiVoteEntry| passes(filter, e.hash);
    let q = vote.entries().take(n);
    if n > 0 {
        assert(q.drop_last() =~= vote.entries().take(n - 1));
        let before = q.drop_last().filter(f);
        if before.contains(e) {
            lemma_filtered_entries(vote, filter, n - 1, e);
        } else {
            assert(q.filter(f) == before.push(q.last()));
            let i = choose|i: int| 0 <= i < q.filter(f).len() && q.filter(f)[i] == e;
            if i < before.len() {
                assert(before[i] == e);
            }
            assert(vote.metadata@[n - 1] == e.metadata);
        }
    }
}

/// Filtering keeps each block with what the vote says of it.
pub proof fn filter_keeps_pairs(vote: ReceivedVote, filter: BlockHash, e: RaiVoteEntry)
    requires
        vote.entries().filter(|e: RaiVoteEntry| passes(filter, e.hash)).contains(e),
    ensures
        exists|i: int|
            0 <= i < vote.entries().len() && #[trigger] vote.metadata@[i] == e.metadata && vote.hashes@[i] == e.hash,
        passes(filter, e.hash),
{
    assert(vote.entries().take(vote.entries().len() as int) =~= vote.entries());
    lemma_filtered_entries(vote, filter, vote.entries().len() as int, e);
}

/// Without a filter every block of a vote passes; with one, exactly the block it names.
pub proof fn filter_names_one_block(filter: BlockHash, hash: BlockHash)
    ensures
        filter.hi == 0 && filter.lo == 0 ==> passes(filter, hash),
        filter.hi != 0 || filter.lo != 0 ==> (passes(filter, hash) <==> hash.hi == filter.hi && hash.lo == filter.lo),
{
}

/// Each block of a vote stands with the metadata of the same place; metadata or blocks
/// without a counterpart are dropped.
pub proof fn blocks_stand_with_their_metadata(vote: ReceivedVote, i: int)
    requires
        0 <= i < vote.metadata@.len(),
        0 <= i < vote.hashes@.len(),
    ensures
        i < vote.entries().len(),
        vote.entries()[i].metadata == vote.metadata@[i],
        vote.entries()[i].hash == vote.hashes@[i],
        vote.entries().len() == vote.metadata@.len() || vote.entries().len() == vote.hashes@.len(),
        vote.entries().len() <= vote.metadata@.len(),
        vote.entries().len() <= vote.hashes@.len(),
{
}

}
