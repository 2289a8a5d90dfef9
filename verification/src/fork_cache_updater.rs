//! Which processed blocks are remembered as forks.
use vstd::prelude::*;

use crate::types::BlockHash;

verus! {

/// How processing a block ended.
#[derive(Clone, Copy, Debug, PartialEq, Eq, Structural)]
pub enum BlockStatus {
    Progress,
    /// Another block is in the slot.
    Fork,
    /// The block was refused for another reason.
    Refused,
}

/// A block that was processed.
#[derive(Clone, Copy, Debug, PartialEq, Eq, Structural)]
pub struct ProcessResult {
    pub hash: BlockHash,
    pub status: BlockStatus,
}

/// The results about forks.
pub open spec fn forks(results: Seq<ProcessResult>) -> Seq<ProcessResult> {
    results.filter(|r: ProcessResult| r.status == BlockStatus::Fork)
}

pub struct ForkCacheUpdater {}

impl ForkCacheUpdater {
    pub fn new() -> (r: Self)
        ensures
            r == (ForkCacheUpdater {  }),
    {
        ForkCacheUpdater {  }
    }

    /// The blocks to add to the cache: the forks, in the order of the results.
    pub fn update(&self, results: &Vec<ProcessResult>) -> (r: Vec<BlockHash>)
        ensures
            r@ == Seq::new(forks(results@).len(), |i: int| forks(results@)[i].hash),
    {
        let mut r: Vec<BlockHash> = Vec::new();
        proof {
            reveal(Seq::filter);
            assert(r@ =~= Seq::new(forks(results@.take(0)).len(), |i: int| forks(results@.take(0))[i].hash));
        }
        for i in 0..results.len()
            invariant
                r@ == Seq::new(forks(results@.take(i as int)).len(), |j: int| forks(results@.take(i as int))[j].hash),
        {
            let result = results[i];
            if result.status == BlockStatus::Fork {
                r.push(result.hash);
            }
            proof {
                reveal(Seq::filter);
                assert(results@.take(i + 1).drop_last() =~= results@.take(i as int));
                assert(r@ =~= Seq::new(forks(results@.take(i + 1)).len(), |j: int| forks(results@.take(i + 1))[j].hash));
            }
        }
        proof {
            assert(results@.take(results@.len() as int) =~= results@);
        }
        r
    }
}

/// The forks of a list are those of its parts in turn; a single result is kept exactly
/// if it is about a fork.
pub proof fn forks_are_kept_in_order(a: Seq<ProcessResult>, b: Seq<ProcessResult>, result: ProcessResult)
    ensures
        forks(a + b) == forks(a) + forks(b),
        forks(seq![result]) == if result.status is Fork {
            seq![result]
        } else {
            Seq::empty()
        },
{
    let p = |r: ProcessResult| r.status == BlockStatus::Fork;
    Seq::filter_distributes_over_add(a, b, p);
    reveal_with_fuel(Seq::filter, 2);
    assert(seq![result].drop_last() =~= Seq::empty());
    assert(forks(seq![result]) =~= if result.status is Fork {
        seq![result]
    } else {
        Seq::empty()
    });
}

}
