//! Which of the node's own votes go when the winner of an election changes.
use vstd::prelude::*;

use crate::types::PublicKey;

verus! {

/// A vote that this node produced.
#[derive(Clone, Copy, Debug, PartialEq, Eq, Structural)]
pub struct LocalVote {
    pub voter: PublicKey,
    pub epoch: u64,
}

/// The voters of those votes that belong to an epoch.
pub open spec fn voters_in(votes: Seq<LocalVote>, epoch: u64) -> Seq<PublicKey> {
    Seq::new(
        votes.filter(|v: LocalVote| v.epoch == epoch).len(),
        |i: int| votes.filter(|v: LocalVote| v.epoch == epoch)[i].voter,
    )
}

pub struct LocalVotesRemover {}

impl LocalVotesRemover {
    /// The voters whose votes are removed from the election of an epoch; `votes`
    /// are the own votes for the previous winner. Votes of other epochs stay.
    pub fn remove_local_votes_in_epoch(votes: &Vec<LocalVote>, epoch: u64) -> (r: Vec<PublicKey>)
        ensures
            r@ == voters_in(votes@, epoch),
    {
        let mut r: Vec<PublicKey> = Vec::new();
        let ghost f = |v: LocalVote| v.epoch == epoch;
        proof {
            reveal(Seq::filter);
            assert(r@ =~= voters_in(votes@.take(0), epoch));
        }
        for i in 0..votes.len()
            invariant
                f == (|v: LocalVote| v.epoch == epoch),
                r@ == voters_in(votes@.take(i as int), epoch),
        {
            let vote = votes[i];
            if vote.epoch == epoch {
                r.push(vote.voter);
            }
            proof {
                reveal(Seq::filter);
                assert(votes@.take(i + 1).drop_last() =~= votes@.take(i as int));
                assert(r@ =~= voters_in(votes@.take(i + 1), epoch));
            }
        }
        proof {
            assert(votes@.take(votes@.len() as int) =~= votes@);
        }
        r
    }
}

/// The voters of an epoch's votes are those of the parts of a list in turn; a single
/// vote gives its voter exactly if it belongs to the epoch.
pub proof fn votes_are_told_apart_by_epoch(a: Seq<LocalVote>, b: Seq<LocalVote>, vote: LocalVote, epoch: u64)
    ensures
        voters_in(a + b, epoch) == voters_in(a, epoch) + voters_in(b, epoch),
        voters_in(seq![vote], epoch) == if vote.epoch == epoch {
            seq![vote.voter]
        } else {
            Seq::empty()
        },
{
    let p = |v: LocalVote| v.epoch == epoch;
    Seq::filter_distributes_over_add(a, b, p);
    assert(voters_in(a + b, epoch) =~= voters_in(a, epoch) + voters_in(b, epoch));
    reveal_with_fuel(Seq::filter, 2);
    assert(seq![vote].drop_last() =~= Seq::empty());
    assert(voters_in(seq![vote], epoch) =~= if vote.epoch == epoch {
        seq![vote.voter]
    } else {
        Seq::empty()
    });
}

}
