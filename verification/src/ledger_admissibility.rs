//! Admissibility by what the ledger holds.
use vstd::prelude::*;

use crate::admissibility::{RaiAdmissibilityError, RaiAdmissibilityValidator};
use crate::close_state::{EpochRecord, RaiCloseAttempt};
use crate::close_values::{CloseRecordEntries, RaiClosedSlotState};
use crate::committee::RaiEpoch;
use crate::frontier_record::{
    close_frontiers, closed_frontiers, settled_block, FrontierRecord, RaiFrontierRecord, RaiFrontiers,
};
use crate::ordered::{ascending, lemma_ascending, Duplicate, SortedMap};
use crate::types::{Account, BlockHash, RaiSlot};

verus! {

/// What is looked at of a block of the ledger.
#[derive(Clone, Copy, Debug, PartialEq, Eq, Structural)]
pub struct LedgerBlock {
    pub account: Account,
    pub height: u64,
    pub previous: BlockHash,
}

impl DeepView for LedgerBlock {
    type V = LedgerBlock;

    open spec fn deep_view(&self) -> LedgerBlock {
        *self
    }
}

impl Duplicate for LedgerBlock {
    fn duplicate(&self) -> (r: Self) {
        *self
    }

    fn agrees(&self, other: &Self) -> (r: bool) {
        *self == *other
    }
}

/// Blocks by their hash.
pub type LedgerBlocks = SortedMap<BlockHash, LedgerBlock>;

/// Every block is higher than the one before it.
pub open spec fn descends(blocks: Map<BlockHash, LedgerBlock>) -> bool {
    forall|hash: BlockHash| #[trigger]
        blocks.contains_key(hash) && blocks.contains_key(blocks[hash].previous)
            ==> blocks[blocks[hash].previous].height < blocks[hash].height
}

/// Whether every block is higher than the one before it.
pub fn is_descending(blocks: &LedgerBlocks) -> (r: bool)
    ensures
        r == descends(blocks@),
{
    let n: usize = blocks.len();
    let ghost hashes = ascending(blocks@.dom());
    proof {
        lemma_ascending(blocks@.dom());
    }
    for i in 0..n
        invariant
            n == blocks@.len(),
            n == hashes.len(),
            hashes == ascending(blocks@.dom()),
            forall|j: int|
                0 <= j < i && blocks@.contains_key(blocks@[#[trigger] hashes[j]].previous)
                    ==> blocks@[blocks@[hashes[j]].previous].height < blocks@[hashes[j]].height,
    {
        let block = blocks.value_at(i);
        if let Some(previous) = blocks.get(&block.previous) {
            if previous.height >= block.height {
                proof {
                    assert(blocks@.contains_key(hashes[i as int]));
                }
                return false;
            }
        }
    }
    proof {
        assert forall|hash: BlockHash| #[trigger]
            blocks@.contains_key(hash) && blocks@.contains_key(blocks@[hash].previous)
            implies blocks@[blocks@[hash].previous].height < blocks@[hash].height by {
            assert(hashes.contains(hash));
            let j = choose|j: int| 0 <= j < hashes.len() && hashes[j] == hash;
            assert(blocks@.contains_key(blocks@[hashes[j]].previous));
        }
    }
    true
}

/// Where walking down a chain ends.
#[derive(Clone, Copy, Debug, PartialEq, Eq, Structural)]
pub enum Descent {
    /// At the first block that is not above the height.
    Reached(BlockHash),
    /// At a block above the height that has no block before it.
    Bottom,
    /// Before a block that the ledger does not have.
    Missing,
}

/// Walks down from a block until the height is reached.
pub open spec fn descent(blocks: Map<BlockHash, LedgerBlock>, hash: BlockHash, height: u64) -> Descent
    decreases blocks[hash].height,
{
    if !blocks.contains_key(hash) {
        Descent::Missing
    } else if blocks[hash].height <= height {
        Descent::Reached(hash)
    } else if blocks[hash].previous == (BlockHash { hi: 0, lo: 0 }) {
        Descent::Bottom
    } else if blocks.contains_key(blocks[hash].previous) && blocks[blocks[hash].previous].height < blocks[hash].height {
        descent(blocks, blocks[hash].previous, height)
    } else {
        Descent::Missing
    }
}

/// A block stands at its slot.
pub open spec fn holds(blocks: Map<BlockHash, LedgerBlock>, slot: RaiSlot, hash: BlockHash) -> bool {
    blocks.contains_key(hash) && blocks[hash].account == slot.account && blocks[hash].height == slot.account_height
}

/// The chain below the frontiers agrees with how a slot was closed: a settled
/// block is on it, and at a released slot it has no block.
pub open spec fn agrees_with(
    blocks: Map<BlockHash, LedgerBlock>,
    frontiers: Map<Account, BlockHash>,
    slot: RaiSlot,
    state: RaiClosedSlotState,
) -> bool {
    match settled_block(state) {
        Some(hash) => {
            &&& frontiers.contains_key(slot.account)
            &&& descent(blocks, frontiers[slot.account], slot.account_height) == Descent::Reached(hash)
            &&& blocks[hash].height == slot.account_height
        },
        None => {
            ||| !frontiers.contains_key(slot.account)
            ||| !blocks.contains_key(frontiers[slot.account])
            ||| match descent(blocks, frontiers[slot.account], slot.account_height) {
                Descent::Reached(hash) => blocks[hash].height != slot.account_height,
                Descent::Bottom => true,
                Descent::Missing => false,
            }
        },
    }
}

/// Judges by the blocks of the ledger. It holds every block on the chains that
/// it is asked about.
pub struct LedgerRaiAdmissibilityValidator {
    blocks: LedgerBlocks,
}

impl View for LedgerRaiAdmissibilityValidator {
    type V = Map<BlockHash, LedgerBlock>;

    closed spec fn view(&self) -> Map<BlockHash, LedgerBlock> {
        self.blocks@
    }
}

impl LedgerRaiAdmissibilityValidator {
    #[verifier::type_invariant]
    spec fn well_formed(&self) -> bool {
        descends(self.blocks@)
    }

    pub fn new(blocks: LedgerBlocks) -> (r: Self)
        requires
            descends(blocks@),
        ensures
            r@ == blocks@,
    {
        LedgerRaiAdmissibilityValidator { blocks }
    }

    fn descend(&self, start: BlockHash, height: u64) -> (r: Descent)
        requires
            self@.contains_key(start),
        ensures
            r == descent(self@, start, height),
    {
        proof {
            use_type_invariant(self);
        }
        let mut at = start;
        loop
            invariant
                descends(self@),
                self@.contains_key(at),
                descent(self@, start, height) == descent(self@, at, height),
            decreases self@[at].height,
        {
            match self.blocks.get(&at) {
                None => {
                    return Descent::Missing;
                },
                Some(block) => {
                    if block.height <= height {
                        return Descent::Reached(at);
                    }
                    if block.previous.is_zero() {
                        return Descent::Bottom;
                    }
                    if !self.blocks.contains_key(&block.previous) {
                        return Descent::Missing;
                    }
                    at = block.previous;
                },
            }
        }
    }

    fn block_stands(&self, slot: &RaiSlot, hash: &BlockHash) -> (r: bool)
        ensures
            r == holds(self@, *slot, *hash),
    {
        match self.blocks.get(hash) {
            Some(block) => block.account == slot.account && block.height == slot.account_height,
            None => false,
        }
    }

    fn entry_agrees(&self, frontiers: &RaiFrontiers, slot: &RaiSlot, state: &RaiClosedSlotState) -> (r: bool)
        ensures
            r == agrees_with(self@, frontiers@, *slot, *state),
    {
        let settled = match state {
            RaiClosedSlotState::Finalized(hash) => Some(*hash),
            RaiClosedSlotState::Carry(hash) => Some(*hash),
            RaiClosedSlotState::Released => None,
        };
        let frontier = match frontiers.get(&slot.account) {
            Some(frontier) => *frontier,
            None => return settled.is_none(),
        };
        if !self.blocks.contains_key(&frontier) {
            return settled.is_none();
        }
        let end = self.descend(frontier, slot.account_height);
        proof {
            lemma_descent(self@, frontier, slot.account_height);
        }
        match settled {
            Some(hash) => match end {
                Descent::Reached(reached) => match self.blocks.get(&reached) {
                    Some(block) => reached == hash && block.height == slot.account_height,
                    None => false,
                },
                _ => false,
            },
            None => match end {
                Descent::Reached(reached) => match self.blocks.get(&reached) {
                    Some(block) => block.height != slot.account_height,
                    None => true,
                },
                Descent::Bottom => true,
                Descent::Missing => false,
            },
        }
    }
}

proof fn lemma_descent(blocks: Map<BlockHash, LedgerBlock>, hash: BlockHash, height: u64)
    ensures
        descent(blocks, hash, height) matches Descent::Reached(end) ==> blocks.contains_key(end) && blocks[end].height
            <= height,
    decreases blocks[hash].height,
{
    if blocks.contains_key(hash) && blocks[hash].height > height && blocks.contains_key(blocks[hash].previous)
        && blocks[blocks[hash].previous].height < blocks[hash].height {
        lemma_descent(blocks, blocks[hash].previous, height);
    }
}

/// Every settled block of a close stands at its slot.
pub open spec fn settled_blocks_stand(
    blocks: Map<BlockHash, LedgerBlock>,
    entries: Map<RaiSlot, RaiClosedSlotState>,
) -> bool {
    forall|slot: RaiSlot| #[trigger]
        entries.contains_key(slot) && settled_block(entries[slot]) is Some ==> holds(
            blocks,
            slot,
            settled_block(entries[slot])->0,
        )
}

/// Every frontier is a block of its account.
pub open spec fn frontiers_stand(blocks: Map<BlockHash, LedgerBlock>, frontiers: Map<Account, BlockHash>) -> bool {
    forall|account: Account| #[trigger]
        frontiers.contains_key(account) ==> blocks.contains_key(frontiers[account]) && blocks[frontiers[account]].account
            == account
}

/// Every entry agrees with the chain below the frontiers.
pub open spec fn entries_agree(
    blocks: Map<BlockHash, LedgerBlock>,
    frontiers: Map<Account, BlockHash>,
    entries: Map<RaiSlot, RaiClosedSlotState>,
) -> bool {
    forall|slot: RaiSlot| #[trigger]
        entries.contains_key(slot) ==> agrees_with(blocks, frontiers, slot, entries[slot])
}

impl RaiAdmissibilityValidator<RaiFrontierRecord> for LedgerRaiAdmissibilityValidator {
    open spec fn slot_verdict(&self, slot: RaiSlot, epoch: RaiEpoch, block: BlockHash) -> Result<
        (),
        RaiAdmissibilityError,
    > {
        if holds(self@, slot, block) {
            Ok(())
        } else {
            Err(RaiAdmissibilityError::InadmissibleSlotBlock)
        }
    }

    open spec fn record_verdict(
        &self,
        record: FrontierRecord,
        entries: Map<RaiSlot, RaiClosedSlotState>,
        attempt: RaiCloseAttempt,
        hash: BlockHash,
    ) -> Result<(), RaiAdmissibilityError> {
        if RaiFrontierRecord::digest(record) == hash && frontiers_stand(self@, record.frontiers) && entries_agree(
            self@,
            record.frontiers,
            entries,
        ) {
            Ok(())
        } else {
            Err(RaiAdmissibilityError::MissingCloseRecordPackage)
        }
    }

    open spec fn frontiers_verdict(
        &self,
        epoch: RaiEpoch,
        previous: Map<Account, BlockHash>,
        entries: Map<RaiSlot, RaiClosedSlotState>,
    ) -> Result<Map<Account, BlockHash>, RaiAdmissibilityError> {
        if settled_blocks_stand(self@, entries) {
            Ok(closed_frontiers(previous, entries))
        } else {
            Err(RaiAdmissibilityError::InadmissibleSlotBlock)
        }
    }

    /// Derives the frontiers only from those before and the outcomes of the
    /// cut, so that no unrelated confirmation changes the close hash.
    fn derive_close_frontiers(
        &self,
        epoch: RaiEpoch,
        previous_frontiers: &RaiFrontiers,
        entries: &CloseRecordEntries,
    ) -> (r: Result<RaiFrontiers, RaiAdmissibilityError>) {
        let n: usize = entries.len();
        let ghost slots = ascending(entries@.dom());
        proof {
            lemma_ascending(entries@.dom());
        }
        for i in 0..n
            invariant
                n == entries@.len(),
                n == slots.len(),
                slots == ascending(entries@.dom()),
                forall|j: int|
                    0 <= j < i && settled_block(entries@[#[trigger] slots[j]]) is Some ==> holds(
                        self@,
                        slots[j],
                        settled_block(entries@[slots[j]])->0,
                    ),
        {
            let slot = entries.key_at(i);
            let settled = match *entries.value_at(i) {
                RaiClosedSlotState::Finalized(hash) => Some(hash),
                RaiClosedSlotState::Carry(hash) => Some(hash),
                RaiClosedSlotState::Released => None,
            };
            if let Some(hash) = settled {
                if let Err(error) = self.validate_slot_block(slot, epoch, &hash) {
                    proof {
                        assert(entries@.contains_key(slots[i as int]));
                    }
                    return Err(error);
                }
            }
        }
        proof {
            assert forall|slot: RaiSlot| #[trigger]
                entries@.contains_key(slot) && settled_block(entries@[slot]) is Some implies holds(
                self@,
                slot,
                settled_block(entries@[slot])->0,
            ) by {
                assert(slots.contains(slot));
                let j = choose|j: int| 0 <= j < slots.len() && slots[j] == slot;
                assert(settled_block(entries@[slots[j]]) is Some);
            }
        }
        Ok(close_frontiers(previous_frontiers, entries))
    }

    fn validate_slot_block(&self, slot: RaiSlot, epoch: RaiEpoch, block_hash: &BlockHash) -> (r: Result<
        (),
        RaiAdmissibilityError,
    >) {
        if self.block_stands(&slot, block_hash) {
            Ok(())
        } else {
            Err(RaiAdmissibilityError::InadmissibleSlotBlock)
        }
    }

    fn validate_close_record(
        &self,
        record: &RaiFrontierRecord,
        entries: &CloseRecordEntries,
        attempt: RaiCloseAttempt,
        hash: &BlockHash,
    ) -> (r: Result<(), RaiAdmissibilityError>) {
        if record.hash() != *hash {
            return Err(RaiAdmissibilityError::MissingCloseRecordPackage);
        }
        let n: usize = record.frontiers.len();
        let ghost accounts = ascending(record.frontiers@.dom());
        proof {
            lemma_ascending(record.frontiers@.dom());
        }
        for i in 0..n
            invariant
                n == record.frontiers@.len(),
                n == accounts.len(),
                accounts == ascending(record.frontiers@.dom()),
                forall|j: int|
                    0 <= j < i ==> self@.contains_key(record.frontiers@[#[trigger] accounts[j]])
                        && self@[record.frontiers@[accounts[j]]].account == accounts[j],
        {
            let account = record.frontiers.key_at(i);
            let stands = match self.blocks.get(record.frontiers.value_at(i)) {
                Some(block) => block.account == account,
                None => false,
            };
            if !stands {
                proof {
                    assert(record.frontiers@.contains_key(account));
                    assert(!frontiers_stand(self@, record.frontiers@));
                }
                return Err(RaiAdmissibilityError::MissingCloseRecordPackage);
            }
        }
        proof {
            assert forall|account: Account| #[trigger] record.frontiers@.contains_key(account) implies self@.contains_key(
                record.frontiers@[account],
            ) && self@[record.frontiers@[account]].account == account by {
                assert(accounts.contains(account));
                let j = choose|j: int| 0 <= j < accounts.len() && accounts[j] == account;
                assert(self@.contains_key(record.frontiers@[accounts[j]]));
            }
        }
        let m: usize = entries.len();
        let ghost slots = ascending(entries@.dom());
        proof {
            lemma_ascending(entries@.dom());
        }
        for i in 0..m
            invariant
                m == entries@.len(),
                m == slots.len(),
                slots == ascending(entries@.dom()),
                forall|j: int|
                    0 <= j < i ==> agrees_with(
                        self@,
                        record.frontiers@,
                        #[trigger] slots[j],
                        entries@[slots[j]],
                    ),
        {
            let slot = entries.key_at(i);
            if !self.entry_agrees(&record.frontiers, &slot, entries.value_at(i)) {
                proof {
                    assert(entries@.contains_key(slot));
                    assert(!entries_agree(self@, record.frontiers@, entries@));
                }
                return Err(RaiAdmissibilityError::MissingCloseRecordPackage);
            }
        }
        proof {
            assert forall|slot: RaiSlot| #[trigger] entries@.contains_key(slot) implies agrees_with(
                self@,
                record.frontiers@,
                slot,
                entries@[slot],
            ) by {
                assert(slots.contains(slot));
                let j = choose|j: int| 0 <= j < slots.len() && slots[j] == slot;
                assert(agrees_with(self@, record.frontiers@, slots[j], entries@[slots[j]]));
            }
        }
        Ok(())
    }
}

/// A chain of blocks of the ledger, each the predecessor of the one before it, and all
/// but the last above the height.
pub open spec fn leads_down(blocks: Map<BlockHash, LedgerBlock>, chain: Seq<BlockHash>, height: u64) -> bool {
    &&& chain.len() > 0
    &&& forall|i: int| 0 <= i < chain.len() ==> blocks.contains_key(#[trigger] chain[i])
    &&& forall|i: int|
        0 <= i < chain.len() - 1 ==> {
            &&& blocks[#[trigger] chain[i]].height > height
            &&& blocks[chain[i]].previous == chain[i + 1]
            &&& blocks[chain[i]].previous != (BlockHash { hi: 0, lo: 0 })
        }
}

/// Going down from a block ends at the first block that is not above the height; where
/// there is none, at the bottom, or at a block that the ledger does not have.
pub proof fn descent_follows_the_chain(blocks: Map<BlockHash, LedgerBlock>, chain: Seq<BlockHash>, height: u64)
    requires
        descends(blocks),
        leads_down(blocks, chain, height),
    ensures
        ({
            let last = blocks[chain.last()];
            &&& last.height <= height ==> descent(blocks, chain[0], height) == Descent::Reached(chain.last())
            &&& last.height > height && last.previous == (BlockHash { hi: 0, lo: 0 }) ==> descent(blocks, chain[0], height)
                == Descent::Bottom
            &&& last.height > height && last.previous != (BlockHash { hi: 0, lo: 0 }) && !blocks.contains_key(last.previous)
                ==> descent(blocks, chain[0], height) == Descent::Missing
        }),
    decreases chain.len(),
{
    if chain.len() > 1 {
        let rest = chain.drop_first();
        assert forall|i: int| 0 <= i < rest.len() implies blocks.contains_key(#[trigger] rest[i]) by {
            assert(rest[i] == chain[i + 1]);
        }
        assert forall|i: int| 0 <= i < rest.len() - 1 implies {
            &&& blocks[#[trigger] rest[i]].height > height
            &&& blocks[rest[i]].previous == rest[i + 1]
            &&& blocks[rest[i]].previous != (BlockHash { hi: 0, lo: 0 })
        } by {
            assert(rest[i] == chain[i + 1]);
        }
        descent_follows_the_chain(blocks, rest, height);
        assert(blocks.contains_key(chain[0]));
        assert(blocks[chain[0]].previous == chain[1]);
        assert(blocks.contains_key(chain[1]));
        assert(rest[0] == chain[1]);
        assert(rest.last() == chain.last());
    } else {
        assert(chain[0] == chain.last());
        assert(blocks.contains_key(chain[0]));
    }
}

/// A slot closed with a block agrees with the frontiers exactly if the chain below the
/// account's frontier has that very block at the slot's height; a slot closed as
/// released exactly if it has none there.
pub proof fn closed_slots_lie_below_the_frontier(
    blocks: Map<BlockHash, LedgerBlock>,
    frontiers: Map<Account, BlockHash>,
    slot: RaiSlot,
    chain: Seq<BlockHash>,
    hash: BlockHash,
)
    requires
        descends(blocks),
        leads_down(blocks, chain, slot.account_height),
        blocks[chain.last()].height <= slot.account_height,
        frontiers.contains_key(slot.account),
        frontiers[slot.account] == chain[0],
    ensures
        agrees_with(blocks, frontiers, slot, RaiClosedSlotState::Finalized(hash)) <==> hash == chain.last()
            && blocks[chain.last()].height == slot.account_height,
        agrees_with(blocks, frontiers, slot, RaiClosedSlotState::Carry(hash)) <==> hash == chain.last()
            && blocks[chain.last()].height == slot.account_height,
        agrees_with(blocks, frontiers, slot, RaiClosedSlotState::Released) <==> blocks[chain.last()].height
            != slot.account_height,
{
    descent_follows_the_chain(blocks, chain, slot.account_height);
    assert(blocks.contains_key(chain[0]));
}

/// An account without a frontier agrees with released slots only.
pub proof fn no_frontier_settles_nothing(
    blocks: Map<BlockHash, LedgerBlock>,
    frontiers: Map<Account, BlockHash>,
    slot: RaiSlot,
    hash: BlockHash,
)
    requires
        !frontiers.contains_key(slot.account),
    ensures
        agrees_with(blocks, frontiers, slot, RaiClosedSlotState::Released),
        !agrees_with(blocks, frontiers, slot, RaiClosedSlotState::Finalized(hash)),
        !agrees_with(blocks, frontiers, slot, RaiClosedSlotState::Carry(hash)),
{
}

}
