//! Starting the elections of new blocks.
use vstd::prelude::*;

use crate::active_elections::{ActiveElections, Election, RaiActiveElections, RaiElectionInsertError};
use crate::admissibility::RaiAdmissibilityValidator;
use crate::close_state::RaiCloseRecord;
use crate::committee::{Fixing, RaiCommitteeProvider, RaiEpoch, RaiRepWeightSnapshot};
use crate::types::{
    Account, BlockHash, PublicKey, RaiElectionId, RaiElectionValue, RaiSlot, RaiVote, RaiVoteKind,
};
use crate::vote_processor::{close_election, Chamber, RaiVoteProcessor};

verus! {

/// Where a block came from.
#[derive(Clone, Copy, Debug, PartialEq, Eq, Structural)]
pub enum RaiBlockSource {
    Local,
    Live,
    LiveOriginator,
    Other,
}

/// A block of the ledger.
#[derive(Clone, Copy, Debug, PartialEq, Eq, Structural)]
pub struct RaiSlotBlock {
    pub account: Account,
    pub height: u64,
    pub hash: BlockHash,
}

/// A block that the ledger has dealt with.
#[derive(Clone, Copy, Debug, PartialEq, Eq, Structural)]
pub struct RaiProcessedBlock {
    pub source: RaiBlockSource,
    pub accepted: bool,
    pub saved_block: Option<RaiSlotBlock>,
}

impl RaiProcessedBlock {
    /// A new block that was accepted starts an election.
    pub open spec fn activates(self) -> bool {
        self.source != RaiBlockSource::Other && self.accepted && self.saved_block is Some
    }
}

/// What came of a block: whether it is dealt with, and the local votes to send.
#[derive(Debug, PartialEq, Eq)]
pub struct RaiActivation {
    pub activated: bool,
    pub votes: Vec<RaiVote>,
}

/// The first vote of a voter for a block.
pub open spec fn first_vote(voter: PublicKey, id: RaiElectionId, block: BlockHash) -> RaiVote {
    RaiVote::unsigned(voter, id, RaiVoteKind::First, RaiElectionValue::Block(block))
}

/// The election of a block in the epoch that takes new slots.
pub open spec fn block_election(s: Chamber, block: RaiSlotBlock) -> RaiElectionId {
    RaiElectionId::Slot {
        slot: RaiSlot { account: block.account, account_height: block.height },
        epoch: s.close.open_epoch() as RaiEpoch,
    }
}

/// The block's slot takes votes.
pub open spec fn takes_votes(s: Chamber, block: RaiSlotBlock) -> bool {
    s.close.epoch(s.close.open_epoch() as RaiEpoch).enables(
        RaiSlot { account: block.account, account_height: block.height },
    )
}

/// The election of the block is new.
pub open spec fn starts(s: Chamber, block: RaiSlotBlock) -> bool {
    takes_votes(s, block) && !s.active.stopped && !s.active.elections.contains_key(block_election(s, block))
}

/// The election of the block is under way.
pub open spec fn started(s: Chamber, block: RaiSlotBlock) -> Chamber {
    let id = block_election(s, block);
    Chamber {
        active: ActiveElections { elections: s.active.elections.insert(id, Election::new(id)), ..s.active },
        ..s
    }
}

/// After the first votes of these voters in turn.
pub open spec fn after_first_votes<A: RaiAdmissibilityValidator<RaiCloseRecord>>(
    s: Chamber,
    id: RaiElectionId,
    block: BlockHash,
    voters: Seq<PublicKey>,
    fixing: Option<Fixing>,
    validator: &A,
) -> Chamber
    decreases voters.len(),
{
    if voters.len() == 0 {
        s
    } else {
        after_first_votes(s, id, block, voters.drop_last(), fixing, validator).processed(
            first_vote(voters.last(), id, block),
            fixing,
            validator,
        )
    }
}

/// The first votes of these voters that are counted.
pub open spec fn counted_first_votes<A: RaiAdmissibilityValidator<RaiCloseRecord>>(
    s: Chamber,
    id: RaiElectionId,
    block: BlockHash,
    voters: Seq<PublicKey>,
    fixing: Option<Fixing>,
    validator: &A,
) -> Seq<RaiVote>
    decreases voters.len(),
{
    if voters.len() == 0 {
        Seq::empty()
    } else {
        let earlier = counted_first_votes(s, id, block, voters.drop_last(), fixing, validator);
        let vote = first_vote(voters.last(), id, block);
        if after_first_votes(s, id, block, voters.drop_last(), fixing, validator).answer(vote, fixing, validator).result is Ok {
            earlier.push(vote)
        } else {
            earlier
        }
    }
}

/// Starts the elections of new blocks.
pub struct RaiSlotElectionActivator {}

impl RaiSlotElectionActivator {
    /// How many more elections there is room for.
    pub fn vacancy(active_elections: &RaiActiveElections) -> (r: usize)
        ensures
            r == if active_elections@.elections.len() >= 5000 {
                0
            } else {
                5000 - active_elections@.elections.len()
            },
    {
        let taken: usize = active_elections.len();
        if taken >= 5000 {
            0
        } else {
            5000 - taken
        }
    }

    /// The keys that vote: those of the representatives, or all if there are none.
    pub fn voting_keys(representatives: Vec<PublicKey>, all: Vec<PublicKey>) -> (r: Vec<PublicKey>)
        ensures
            r@ == if representatives@.len() == 0 {
                all@
            } else {
                representatives@
            },
    {
        if representatives.len() == 0 {
            all
        } else {
            representatives
        }
    }

    /// Starts the election of a block and casts the first votes of the local
    /// voters. A block whose election is under way is dealt with; voting again
    /// would only repeat a vote.
    pub fn activate_block<A: RaiAdmissibilityValidator<RaiCloseRecord>, P: RaiCommitteeProvider>(
        processor: &mut RaiVoteProcessor<A, P>,
        block: &RaiSlotBlock,
        voters: &Vec<PublicKey>,
        live: &RaiRepWeightSnapshot,
    ) -> (r: RaiActivation)
        requires
            old(processor)@.has_room(),
            old(processor)@.close.open_epoch() <= u64::MAX,
        ensures
            final(processor)@.has_room(),
            final(processor).admissibility == old(processor).admissibility,
            ({
                let s = old(processor)@;
                let id = block_election(s, *block);
                if starts(s, *block) {
                    let validator = &old(processor).admissibility;
                    &&& final(processor)@ == after_first_votes(
                        started(s, *block),
                        id,
                        block.hash,
                        voters@,
                        P::fixing(live@),
                        validator,
                    )
                    &&& r.votes@ == counted_first_votes(
                        started(s, *block),
                        id,
                        block.hash,
                        voters@,
                        P::fixing(live@),
                        validator,
                    )
                    &&& r.activated == (r.votes@.len() > 0)
                } else {
                    &&& final(processor)@ == s
                    &&& r.votes@ == Seq::<RaiVote>::empty()
                    &&& r.activated == (takes_votes(s, *block) && !s.active.stopped)
                }
            }),
    {
        let ghost s = processor@;
        let slot = RaiSlot::new(block.account, block.height);
        let epoch = processor.close_state.open_epoch();
        let mut votes: Vec<RaiVote> = Vec::new();
        if !processor.close_state.is_slot_vote_enabled(epoch, &slot) {
            return RaiActivation { activated: false, votes };
        }
        let election_id = RaiElectionId::Slot { slot, epoch };
        match processor.active_elections.insert(election_id) {
            Err(RaiElectionInsertError::Duplicate) => {
                return RaiActivation { activated: true, votes };
            },
            Err(RaiElectionInsertError::Stopped) => {
                return RaiActivation { activated: false, votes };
            },
            Ok(_) => {},
        }
        let ghost begun = processor@;
        proof {
            assert(begun =~= started(s, *block));
            assert forall|attempt: u64|
                !#[trigger] begun.active.elections.contains_key(close_election(true, u64::MAX, attempt)) by {
                assert(!s.active.elections.contains_key(close_election(true, u64::MAX, attempt)));
            }
        }
        for i in 0..voters.len()
            invariant
                processor@.has_room(),
                election_id is Slot,
                processor.admissibility == old(processor).admissibility,
                processor@ == after_first_votes(
                    begun,
                    election_id,
                    block.hash,
                    voters@.take(i as int),
                    P::fixing(live@),
                    &old(processor).admissibility,
                ),
                votes@ == counted_first_votes(
                    begun,
                    election_id,
                    block.hash,
                    voters@.take(i as int),
                    P::fixing(live@),
                    &old(processor).admissibility,
                ),
        {
            proof {
                assert(voters@.take(i + 1).drop_last() =~= voters@.take(i as int));
            }
            let vote = RaiVote::new_first(voters[i], election_id, RaiElectionValue::Block(block.hash));
            proof {
                assert(voters@.take(i + 1).last() == voters@[i as int]);
            }
            let report = processor.process(&vote, true, live);
            if report.result.is_ok() {
                votes.push(vote);
            }
        }
        proof {
            assert(voters@.take(voters@.len() as int) =~= voters@);
        }
        let activated = votes.len() > 0;
        RaiActivation { activated, votes }
    }

    /// The blocks among processed ones that start an election.
    pub fn activated_blocks(results: &Vec<RaiProcessedBlock>) -> (r: Vec<RaiSlotBlock>)
        ensures
            r@ == results@.filter(|result: RaiProcessedBlock| result.activates()).map_values(
                |result: RaiProcessedBlock| result.saved_block->0,
            ),
    {
        let ghost keep = |result: RaiProcessedBlock| result.activates();
        let ghost block_of = |result: RaiProcessedBlock| result.saved_block->0;
        let mut r: Vec<RaiSlotBlock> = Vec::new();
        proof {
            reveal(Seq::filter);
            assert(r@ =~= results@.take(0).filter(keep).map_values(block_of));
        }
        for i in 0..results.len()
            invariant
                keep == (|result: RaiProcessedBlock| result.activates()),
                block_of == (|result: RaiProcessedBlock| result.saved_block->0),
                r@ == results@.take(i as int).filter(keep).map_values(block_of),
        {
            proof {
                reveal(Seq::filter);
                assert(results@.take(i + 1).drop_last() =~= results@.take(i as int));
            }
            if results[i].source != RaiBlockSource::Other && results[i].accepted {
                if let Some(block) = results[i].saved_block {
                    r.push(block);
                }
            }
            proof {
                assert(r@ =~= results@.take(i + 1).filter(keep).map_values(block_of));
            }
        }
        proof {
            assert(results@.take(results@.len() as int) =~= results@);
        }
        r
    }
}

/// While the current epoch closes, new slots go to its successor.
pub proof fn closing_epoch_takes_no_new_slot(s: Chamber, block: RaiSlotBlock)
    requires
        s.close.epoch(s.close.current).phase != crate::close_state::RaiEpochPhase::Open,
        s.close.current < u64::MAX,
    ensures
        block_election(s, block).epoch_of() == s.close.current + 1,
{
}

/// A processed block starts an election exactly if it is new to the node, was accepted
/// and is in the ledger.
pub proof fn accepted_new_blocks_are_activated(block: RaiProcessedBlock)
    ensures
        block.activates() <==> block.accepted && block.saved_block is Some && (block.source is Local || block.source is Live
            || block.source is LiveOriginator),
{
}

/// A block is voted on in the slot of its account and height, in the current epoch while
/// that is open and else in the one after it; its election is started exactly if that
/// epoch votes on the slot, none is there yet, and elections are not stopped.
pub proof fn block_is_voted_on_in_the_open_epoch(s: Chamber, block: RaiSlotBlock)
    requires
        s.close.current < u64::MAX,
    ensures
        ({
            let open = s.close.epoch(s.close.current).phase is Open;
            let epoch = if open {
                s.close.current
            } else {
                (s.close.current + 1) as u64
            };
            let slot = RaiSlot { account: block.account, account_height: block.height };
            let id = RaiElectionId::Slot { slot, epoch };
            &&& block_election(s, block) == id
            &&& starts(s, block) <==> !s.active.stopped && !s.active.elections.contains_key(id) && s.close.epoch(epoch).enables(
                slot,
            )
            &&& started(s, block).active.elections.contains_key(id)
            &&& forall|other: RaiElectionId| #[trigger]
                s.active.elections.contains_key(other) && other != id ==> started(s, block).active.elections.contains_key(other)
                    && started(s, block).active.elections[other] == s.active.elections[other]
        }),
{
}

/// The votes that an activated block gets are first votes for it in its election, one each by
/// some of the voters in turn, and each was counted.
pub proof fn activated_block_gets_first_votes<A: RaiAdmissibilityValidator<RaiCloseRecord>>(
    s: Chamber,
    id: RaiElectionId,
    block: BlockHash,
    voters: Seq<PublicKey>,
    fixing: Option<Fixing>,
    validator: &A,
    i: int,
)
    requires
        0 <= i < counted_first_votes(s, id, block, voters, fixing, validator).len(),
    ensures
        ({
            let vote = counted_first_votes(s, id, block, voters, fixing, validator)[i];
            &&& vote.election_id == id
            &&& vote.kind == RaiVoteKind::First
            &&& vote.value == RaiElectionValue::Block(block)
            &&& voters.contains(vote.voter)
        }),
        counted_first_votes(s, id, block, voters, fixing, validator).len() <= voters.len(),
    decreases voters.len(),
{
    if voters.len() > 0 {
        let front = voters.drop_last();
        let earlier = counted_first_votes(s, id, block, front, fixing, validator);
        if earlier.len() > 0 {
            activated_block_gets_first_votes(
                s,
                id,
                block,
                front,
                fixing,
                validator,
                if i < earlier.len() {
                    i
                } else {
                    0
                },
            );
        }
        if i < earlier.len() {
            let voter = earlier[i].voter;
            let k = choose|k: int| 0 <= k < front.len() && front[k] == voter;
            assert(voters[k] == voter);
        } else {
            assert(voters[voters.len() - 1] == voters.last());
        }
    }
}

}
