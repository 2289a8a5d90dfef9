//! When committed blocks are put into an order.
use vstd::prelude::*;

use crate::ordered::SortedSet;
use crate::types::BlockHash;

verus! {

/// How many commits call for an ordering.
pub const COMMITTED_THRESHOLD: usize = 1000;

/// Collects committed blocks until there are enough of them.
pub struct OrderingScheduler {
    committed_count: usize,
    committed_blocks: SortedSet<BlockHash>,
    stopped: bool,
}

/// The model of the scheduler.
#[verifier::ext_equal]
pub struct Scheduler {
    pub count: usize,
    pub blocks: Set<BlockHash>,
    pub stopped: bool,
}

impl View for OrderingScheduler {
    type V = Scheduler;

    closed spec fn view(&self) -> Scheduler {
        Scheduler { count: self.committed_count, blocks: self.committed_blocks@, stopped: self.stopped }
    }
}

/// What a commit leads to.
pub struct Committed {
    /// The number of commits since the last ordering, this one included.
    pub count: usize,
    /// The blocks to put into an order, if there are enough.
    pub blocks_to_order: Option<SortedSet<BlockHash>>,
}

impl Scheduler {
    /// One more commit calls for an ordering.
    pub open spec fn is_due(self) -> bool {
        self.count + 1 >= COMMITTED_THRESHOLD
    }

    /// After a block was committed.
    pub open spec fn committed(self, hash: BlockHash) -> Scheduler {
        if self.is_due() {
            Scheduler { count: 0, blocks: Set::empty(), ..self }
        } else {
            Scheduler { count: (self.count + 1) as usize, blocks: self.blocks.insert(hash), ..self }
        }
    }
}

impl OrderingScheduler {
    #[verifier::type_invariant]
    spec fn is_below_threshold(&self) -> bool {
        self.committed_count < COMMITTED_THRESHOLD
    }

    pub fn new() -> (r: Self)
        ensures
            r@ == (Scheduler { count: 0, blocks: Set::empty(), stopped: true }),
    {
        OrderingScheduler { committed_count: 0, committed_blocks: SortedSet::new(), stopped: true }
    }

    pub fn stop(&mut self)
        ensures
            final(self)@ == (Scheduler { stopped: true, ..old(self)@ }),
    {
        proof {
            use_type_invariant(&*self);
        }
        self.stopped = true;
    }

    /// Counts a committed block. At the threshold all blocks that were counted
    /// are handed out, and counting starts again.
    pub fn increment_committed_count(&mut self, block_hash: BlockHash) -> (r: Committed)
        ensures
            final(self)@ == old(self)@.committed(block_hash),
            r.count == old(self)@.count + 1,
            match r.blocks_to_order {
                Some(blocks) => old(self)@.is_due() && blocks@ == old(self)@.blocks.insert(block_hash),
                None => !old(self)@.is_due(),
            },
    {
        proof {
            use_type_invariant(&*self);
        }
        let mut blocks: SortedSet<BlockHash> = SortedSet::new();
        core::mem::swap(&mut blocks, &mut self.committed_blocks);
        blocks.insert(block_hash);
        let count: usize = self.committed_count + 1;
        if count >= COMMITTED_THRESHOLD {
            self.committed_count = 0;
            Committed { count, blocks_to_order: Some(blocks) }
        } else {
            self.committed_count = count;
            self.committed_blocks = blocks;
            Committed { count, blocks_to_order: None }
        }
    }
}

/// The state after several commits.
pub open spec fn committed_all(s: Scheduler, hashes: Seq<BlockHash>) -> Scheduler
    decreases hashes.len(),
{
    if hashes.len() == 0 {
        s
    } else {
        committed_all(s, hashes.drop_last()).committed(hashes.last())
    }
}

/// Until the threshold is reached every committed block waits to be ordered.
pub proof fn committed_blocks_wait(s: Scheduler, hashes: Seq<BlockHash>)
    requires
        s.count + hashes.len() < COMMITTED_THRESHOLD,
    ensures
        committed_all(s, hashes).count == s.count + hashes.len(),
        committed_all(s, hashes).blocks == s.blocks.union(hashes.to_set()),
    decreases hashes.len(),
{
    if hashes.len() == 0 {
        assert(s.blocks.union(hashes.to_set()) =~= s.blocks);
    } else {
        let n = hashes.len() - 1;
        committed_blocks_wait(s, hashes.drop_last());
        crate::ordered::lemma_take_set(hashes, n);
        assert(hashes.take(n) =~= hashes.drop_last());
        assert(hashes.take(n + 1) =~= hashes);
        assert(committed_all(s, hashes).blocks =~= s.blocks.union(hashes.to_set()));
    }
}

/// An election is due with every thousandth committed block; all blocks before it in a
/// thousand wait together, and none waits after it.
pub proof fn every_thousandth_block_starts_an_election(s: Scheduler, hashes: Seq<BlockHash>, hash: BlockHash)
    requires
        s.count == 0,
        s.blocks == Set::<BlockHash>::empty(),
        hashes.len() < 1000,
    ensures
        ({
            let before = committed_all(s, hashes);
            let after = before.committed(hash);
            &&& before.count == hashes.len()
            &&& before.blocks == hashes.to_set()
            &&& before.is_due() <==> hashes.len() == 999
            &&& hashes.len() == 999 ==> after.count == 0 && after.blocks == Set::<BlockHash>::empty()
            &&& hashes.len() < 999 ==> after.count == hashes.len() + 1 && after.blocks == hashes.to_set().insert(hash)
            &&& after.stopped == before.stopped
        }),
{
    committed_blocks_wait(s, hashes);
    assert(s.blocks.union(hashes.to_set()) =~= hashes.to_set());
}

}
