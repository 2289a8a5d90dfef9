//! The blocks that a finalization carries with it.
//!
//! Finalizing a block finalizes the blocks that it depends on. The dependency
//! closure of a set of blocks gathers them, and fails where two of them exclude
//! each other, where one lost against a finalized block, or where one is unknown.
use vstd::prelude::*;

use crate::ordered::{
    copy_all, sorted_map_is_finite, sorted_set_is_finite, Pair, SortedMap, SortedSet,
};
use crate::types::{Amount, BlockHash};
use crate::vote_gate::SlotRoot;

verus! {

broadcast use {sorted_map_is_finite, sorted_set_is_finite};

/// What a block depends on. The zero hash stands for no block.
#[derive(Clone, Copy, Debug, PartialEq, Eq, Structural)]
pub enum Dependencies {
    /// Two blocks.
    Listed { first: BlockHash, second: BlockHash },
    /// The block is not in the ledger, has a predecessor, and is no epoch block:
    /// its link names the block it receives from, unless it lowers the balance.
    State { previous: BlockHash, link: BlockHash, balance: Amount },
}

/// A block whose body is at hand.
#[derive(Clone, Copy, Debug, PartialEq, Eq, Structural)]
pub struct KnownBlock {
    pub slot: SlotRoot,
    pub previous: BlockHash,
    /// The height in its account chain, if the ledger has the block.
    pub height: Option<u64>,
    /// The balance after the block, if it is known.
    pub balance: Option<Amount>,
    pub dependencies: Dependencies,
}

impl DeepView for KnownBlock {
    type V = KnownBlock;

    open spec fn deep_view(&self) -> KnownBlock {
        *self
    }
}

/// The blocks at hand and what is already decided about their slots.
pub struct BlockGraph {
    pub genesis: BlockHash,
    pub blocks: SortedMap<BlockHash, KnownBlock>,
    /// The winners of elections.
    pub certified: SortedMap<SlotRoot, BlockHash>,
    /// The blocks that are cemented in the ledger.
    pub cemented: SortedMap<SlotRoot, BlockHash>,
    /// The epoch that a slot is assigned to, where that is not the epoch asked for.
    pub assigned: SortedMap<SlotRoot, u64>,
}

/// The model of the block graph.
#[verifier::ext_equal]
pub struct Graph {
    pub genesis: BlockHash,
    pub blocks: Map<BlockHash, KnownBlock>,
    pub certified: Map<SlotRoot, BlockHash>,
    pub cemented: Map<SlotRoot, BlockHash>,
    pub assigned: Map<SlotRoot, u64>,
}

impl View for BlockGraph {
    type V = Graph;

    open spec fn view(&self) -> Graph {
        Graph {
            genesis: self.genesis,
            blocks: self.blocks@,
            certified: self.certified@,
            cemented: self.cemented@,
            assigned: self.assigned@,
        }
    }
}

/// What is found at a hash.
#[derive(Clone, Copy, PartialEq, Eq, Structural)]
pub enum Visit {
    /// No block, or the first block of all.
    End,
    /// The body is unknown.
    Missing,
    /// Another block is finalized in the slot.
    Lost { winner: BlockHash },
    /// The slot belongs to another epoch.
    Elsewhere,
    Member,
}

/// What the closure came to.
pub enum ClosureError {
    MissingDependency,
    Conflict,
    FinalizedConflict { hash: BlockHash, winner: BlockHash },
}

/// The model of a closure: its members, or why there is none.
#[verifier::ext_equal]
pub enum Closure {
    Complete(Map<SlotRoot, BlockHash>),
    MissingDependency,
    Conflict,
    FinalizedConflict { hash: BlockHash, winner: BlockHash },
}

/// A closure and the blocks that were found to be missing for it.
#[verifier::ext_equal]
pub struct Explored {
    pub closure: Closure,
    pub missing: Set<BlockHash>,
}

/// The model of what an exploration returns.
pub open spec fn closure_of(r: Result<SortedMap<SlotRoot, BlockHash>, ClosureError>) -> Closure {
    match r {
        Ok(members) => Closure::Complete(members@),
        Err(ClosureError::MissingDependency) => Closure::MissingDependency,
        Err(ClosureError::Conflict) => Closure::Conflict,
        Err(ClosureError::FinalizedConflict { hash, winner }) => Closure::FinalizedConflict { hash, winner },
    }
}

/// The zero hash, which no block has.
pub open spec fn no_hash() -> BlockHash {
    BlockHash { hi: 0, lo: 0 }
}

impl Graph {
    /// The block that is finalized in a slot.
    pub open spec fn winner(self, slot: SlotRoot) -> Option<BlockHash> {
        if self.certified.contains_key(slot) {
            Some(self.certified[slot])
        } else if self.cemented.contains_key(slot) {
            Some(self.cemented[slot])
        } else {
            None
        }
    }

    /// The epoch in which a slot counts as finalized, asked for in `epoch`.
    pub open spec fn finalization_epoch(self, slot: SlotRoot, epoch: u64) -> u64 {
        if self.assigned.contains_key(slot) {
            self.assigned[slot]
        } else {
            epoch
        }
    }

    /// What is found at a hash.
    pub open spec fn visit(self, epoch: u64, hash: BlockHash) -> Visit {
        if hash == no_hash() || hash == self.genesis {
            Visit::End
        } else if !self.blocks.contains_key(hash) {
            Visit::Missing
        } else {
            let slot = self.blocks[hash].slot;
            if self.winner(slot) is Some && self.winner(slot) != Some(hash) {
                Visit::Lost { winner: self.winner(slot)->0 }
            } else if self.finalization_epoch(slot, epoch) != epoch {
                Visit::Elsewhere
            } else {
                Visit::Member
            }
        }
    }

    /// The balance after a block, if it is known.
    pub open spec fn balance(self, hash: BlockHash) -> Option<Amount> {
        if self.blocks.contains_key(hash) {
            self.blocks[hash].balance
        } else {
            None
        }
    }

    /// The block that must be asked for before the dependencies of `hash` are clear.
    pub open spec fn unclear(self, hash: BlockHash) -> Option<BlockHash> {
        match self.blocks[hash].dependencies {
            Dependencies::Listed { first, second } => None,
            Dependencies::State { previous, link, balance } => if self.balance(previous) is None {
                Some(previous)
            } else {
                None
            },
        }
    }

    /// The blocks that a known block depends on.
    pub open spec fn next(self, hash: BlockHash) -> Seq<BlockHash> {
        match self.blocks[hash].dependencies {
            Dependencies::Listed { first, second } => seq![first, second],
            Dependencies::State { previous, link, balance } => match self.balance(previous) {
                None => seq![previous],
                Some(before) => if balance.raw < before.raw {
                    seq![previous, no_hash()]
                } else {
                    seq![previous, link]
                },
            },
        }
    }

    /// `hashes` and what the members of the closure among them depend on.
    pub open spec fn widened(self, epoch: u64, hashes: Set<BlockHash>) -> Set<BlockHash> {
        Set::new(
            |h: BlockHash|
                hashes.contains(h) || exists|p: BlockHash| #[trigger]
                    hashes.contains(p) && self.visit(epoch, p) == Visit::Member && self.next(p).contains(h),
        )
    }

    /// What is within `n` steps from `roots`.
    pub open spec fn within(self, epoch: u64, roots: Set<BlockHash>, n: nat) -> Set<BlockHash>
        decreases n,
    {
        if n == 0 {
            roots
        } else {
            self.widened(epoch, self.within(epoch, roots, (n - 1) as nat))
        }
    }

    /// The exploration from `roots` comes to `hash`.
    pub open spec fn reaches(self, epoch: u64, roots: Set<BlockHash>, hash: BlockHash) -> bool {
        exists|n: nat| (#[trigger] self.within(epoch, roots, n)).contains(hash)
    }

    /// `hash` is finalized together with `roots`.
    pub open spec fn carries(self, epoch: u64, roots: Set<BlockHash>, hash: BlockHash) -> bool {
        self.reaches(epoch, roots, hash) && self.visit(epoch, hash) == Visit::Member
    }

    /// A block that must be asked for before the closure of `roots` is known.
    pub open spec fn lacks(self, epoch: u64, roots: Set<BlockHash>, hash: BlockHash) -> bool {
        ||| self.reaches(epoch, roots, hash) && self.visit(epoch, hash) == Visit::Missing
        ||| exists|p: BlockHash| #[trigger] self.carries(epoch, roots, p) && self.unclear(p) == Some(hash)
    }

    /// A block that `roots` depend on lost against a finalized one.
    pub open spec fn is_dead(self, epoch: u64, roots: Set<BlockHash>) -> bool {
        exists|h: BlockHash| #[trigger] self.reaches(epoch, roots, h) && self.visit(epoch, h) is Lost
    }

    /// Two blocks that `roots` depend on exclude each other.
    pub open spec fn is_split(self, epoch: u64, roots: Set<BlockHash>) -> bool {
        exists|a: BlockHash, b: BlockHash| #[trigger]
            self.carries(epoch, roots, a) && #[trigger] self.carries(epoch, roots, b) && a != b && self.blocks[a].slot
                == self.blocks[b].slot
    }

    /// Exactly the blocks that `roots` carry, by slot.
    pub open spec fn gathers(self, epoch: u64, roots: Set<BlockHash>, members: Map<SlotRoot, BlockHash>) -> bool {
        &&& forall|h: BlockHash| #[trigger]
            self.carries(epoch, roots, h) ==> members.contains_key(self.blocks[h].slot) && members[self.blocks[h].slot]
                == h
        &&& forall|slot: SlotRoot| #[trigger]
            members.contains_key(slot) ==> self.carries(epoch, roots, members[slot]) && self.blocks[members[slot]].slot
                == slot
    }

    /// What an exploration says of the blocks it starts from.
    pub open spec fn settles(self, epoch: u64, roots: Set<BlockHash>, e: Explored) -> bool {
        &&& forall|h: BlockHash| #[trigger] e.missing.contains(h) ==> self.lacks(epoch, roots, h)
        &&& match e.closure {
            Closure::Complete(members) => {
                &&& !self.is_dead(epoch, roots)
                &&& !self.is_split(epoch, roots)
                &&& forall|h: BlockHash| !self.lacks(epoch, roots, h)
                &&& self.gathers(epoch, roots, members)
            },
            Closure::MissingDependency => {
                &&& !self.is_dead(epoch, roots)
                &&& !self.is_split(epoch, roots)
                &&& e.missing != Set::<BlockHash>::empty()
                &&& forall|h: BlockHash| self.lacks(epoch, roots, h) ==> #[trigger] e.missing.contains(h)
            },
            Closure::Conflict => self.is_split(epoch, roots),
            Closure::FinalizedConflict { hash, winner } => {
                &&& self.reaches(epoch, roots, hash)
                &&& self.visit(epoch, hash) == (Visit::Lost { winner })
            },
        }
    }

    /// How the exploration goes on: the last pending hash is visited first, and
    /// the second of two dependencies before the first.
    pub open spec fn explored(
        self,
        epoch: u64,
        pending: Seq<BlockHash>,
        seen: Set<BlockHash>,
        members: Map<SlotRoot, BlockHash>,
        missing: Set<BlockHash>,
    ) -> Explored
        decreases pending.len() + 2 * self.blocks.dom().difference(seen).len(),
        when self.blocks.dom().finite()
    {
        if pending.len() == 0 {
            Explored {
                closure: if missing == Set::<BlockHash>::empty() {
                    Closure::Complete(members)
                } else {
                    Closure::MissingDependency
                },
                missing,
            }
        } else {
            let hash = pending.last();
            let rest = pending.drop_last();
            let slot = self.blocks[hash].slot;
            proof {
                self.lemma_shrinks(seen, hash);
            }
            match self.visit(epoch, hash) {
                Visit::End => self.explored(epoch, rest, seen, members, missing),
                _ if seen.contains(hash) => self.explored(epoch, rest, seen, members, missing),
                Visit::Missing => self.explored(epoch, rest, seen.insert(hash), members, missing.insert(hash)),
                Visit::Lost { winner } => Explored { closure: Closure::FinalizedConflict { hash, winner }, missing },
                Visit::Elsewhere => self.explored(epoch, rest, seen.insert(hash), members, missing),
                Visit::Member => if members.contains_key(slot) {
                    Explored { closure: Closure::Conflict, missing }
                } else {
                    self.explored(
                        epoch,
                        rest + self.next(hash),
                        seen.insert(hash),
                        members.insert(slot, hash),
                        match self.unclear(hash) {
                            Some(previous) => missing.insert(previous),
                            None => missing,
                        },
                    )
                },
            }
        }
    }

    /// The exploration from the blocks of a list.
    pub open spec fn closed(self, epoch: u64, roots: Seq<BlockHash>) -> Explored {
        self.explored(epoch, roots, Set::empty(), Map::empty(), Set::empty())
    }

    /// Visiting a block leaves fewer to visit.
    pub proof fn lemma_shrinks(self, seen: Set<BlockHash>, hash: BlockHash)
        requires
            self.blocks.dom().finite(),
        ensures
            self.blocks.dom().difference(seen.insert(hash)).len() <= self.blocks.dom().difference(seen).len(),
            self.blocks.contains_key(hash) && !seen.contains(hash) ==> self.blocks.dom().difference(
                seen.insert(hash),
            ).len() + 1 == self.blocks.dom().difference(seen).len(),
            self.next(hash).len() <= 2,
    {
        let a = self.blocks.dom().difference(seen);
        assert(self.blocks.dom().difference(seen.insert(hash)) =~= a.remove(hash));
        assert(a.finite());
    }

    /// What contains the roots and with each member of the closure what it
    /// depends on, contains all that is reached.
    proof fn lemma_closed(self, epoch: u64, roots: Set<BlockHash>, seen: Set<BlockHash>, n: nat, hash: BlockHash)
        requires
            roots.subset_of(seen),
            forall|p: BlockHash, h: BlockHash|
                #![trigger seen.contains(p), self.next(p).contains(h)]
                seen.contains(p) && self.visit(epoch, p) == Visit::Member && self.next(p).contains(h) ==> seen.contains(h),
            self.within(epoch, roots, n).contains(hash),
        ensures
            seen.contains(hash),
        decreases n,
    {
        if n > 0 {
            let before = self.within(epoch, roots, (n - 1) as nat);
            if before.contains(hash) {
                self.lemma_closed(epoch, roots, seen, (n - 1) as nat, hash);
            } else {
                let p = choose|p: BlockHash| #[trigger]
                    before.contains(p) && self.visit(epoch, p) == Visit::Member && self.next(p).contains(hash);
                self.lemma_closed(epoch, roots, seen, (n - 1) as nat, p);
            }
        }
    }

    proof fn lemma_root_is_reached(self, epoch: u64, roots: Set<BlockHash>, hash: BlockHash)
        requires
            roots.contains(hash),
        ensures
            self.reaches(epoch, roots, hash),
    {
        assert(self.within(epoch, roots, 0).contains(hash));
    }

    proof fn lemma_next_is_reached(self, epoch: u64, roots: Set<BlockHash>, p: BlockHash, hash: BlockHash)
        requires
            self.carries(epoch, roots, p),
            self.next(p).contains(hash),
        ensures
            self.reaches(epoch, roots, hash),
    {
        let n = choose|n: nat| (#[trigger] self.within(epoch, roots, n)).contains(p);
        let before = self.within(epoch, roots, n);
        assert(before.contains(p));
        assert(self.within(epoch, roots, n + 1).contains(hash));
    }

    /// What an exploration has established on its way.
    spec fn on_the_way(
        self,
        epoch: u64,
        roots: Set<BlockHash>,
        pending: Seq<BlockHash>,
        seen: Set<BlockHash>,
        members: Map<SlotRoot, BlockHash>,
        missing: Set<BlockHash>,
    ) -> bool {
        &&& forall|h: BlockHash| #[trigger] pending.contains(h) ==> self.reaches(epoch, roots, h)
        &&& forall|h: BlockHash| #[trigger]
            seen.contains(h) ==> self.reaches(epoch, roots, h) && self.visit(epoch, h) != Visit::End && !(self.visit(
                epoch,
                h,
            ) is Lost)
        &&& forall|h: BlockHash| #[trigger]
            roots.contains(h) ==> seen.contains(h) || pending.contains(h) || self.visit(epoch, h) == Visit::End
        &&& forall|p: BlockHash, h: BlockHash|
            #![trigger seen.contains(p), self.next(p).contains(h)]
            seen.contains(p) && self.visit(epoch, p) == Visit::Member && self.next(p).contains(h) ==> seen.contains(h)
                || pending.contains(h) || self.visit(epoch, h) == Visit::End
        &&& forall|h: BlockHash| #[trigger]
            seen.contains(h) && self.visit(epoch, h) == Visit::Member ==> members.contains_key(self.blocks[h].slot)
                && members[self.blocks[h].slot] == h
        &&& forall|slot: SlotRoot| #[trigger]
            members.contains_key(slot) ==> seen.contains(members[slot]) && self.visit(epoch, members[slot])
                == Visit::Member && self.blocks[members[slot]].slot == slot
        &&& forall|h: BlockHash| #[trigger] missing.contains(h) ==> self.lacks(epoch, roots, h)
        &&& forall|h: BlockHash| #[trigger]
            seen.contains(h) && self.visit(epoch, h) == Visit::Missing ==> missing.contains(h)
        &&& forall|h: BlockHash| #[trigger]
            seen.contains(h) && self.visit(epoch, h) == Visit::Member && self.unclear(h) is Some ==> missing.contains(
                self.unclear(h)->0,
            )
    }

    /// An exploration settles what it promises.
    proof fn lemma_explored(
        self,
        epoch: u64,
        roots: Set<BlockHash>,
        pending: Seq<BlockHash>,
        seen: Set<BlockHash>,
        members: Map<SlotRoot, BlockHash>,
        missing: Set<BlockHash>,
    )
        requires
            self.blocks.dom().finite(),
            self.on_the_way(epoch, roots, pending, seen, members, missing),
        ensures
            self.settles(epoch, roots, self.explored(epoch, pending, seen, members, missing)),
        decreases pending.len() + 2 * self.blocks.dom().difference(seen).len(),
    {
        if pending.len() == 0 {
            self.lemma_explored_all(epoch, roots, seen, members, missing, pending);
        } else {
            let hash = pending.last();
            let rest = pending.drop_last();
            let slot = self.blocks[hash].slot;
            self.lemma_shrinks(seen, hash);
            assert(pending.contains(hash));
            assert(rest.push(hash) =~= pending);
            assert forall|h: BlockHash| pending.contains(h) implies h == hash || rest.contains(h) by {
                let i = choose|i: int| 0 <= i < pending.len() && pending[i] == h;
                if i < rest.len() {
                    assert(rest[i] == h);
                }
            }
            assert forall|h: BlockHash| rest.contains(h) implies pending.contains(h) by {
                let i = choose|i: int| 0 <= i < rest.len() && rest[i] == h;
                assert(pending[i] == h);
            }
            match self.visit(epoch, hash) {
                Visit::End => {
                    self.lemma_explored(epoch, roots, rest, seen, members, missing);
                },
                _ if seen.contains(hash) => {
                    self.lemma_explored(epoch, roots, rest, seen, members, missing);
                },
                Visit::Missing => {
                    self.lemma_explored(epoch, roots, rest, seen.insert(hash), members, missing.insert(hash));
                },
                Visit::Lost { winner } => {},
                Visit::Elsewhere => {
                    self.lemma_explored(epoch, roots, rest, seen.insert(hash), members, missing);
                },
                Visit::Member => {
                    assert(self.carries(epoch, roots, hash));
                    if members.contains_key(slot) {
                        assert(seen.contains(members[slot]));
                        assert(self.carries(epoch, roots, members[slot]));
                    } else {
                        let more = self.next(hash);
                        let found = match self.unclear(hash) {
                            Some(previous) => missing.insert(previous),
                            None => missing,
                        };
                        let wider = rest + more;
                        assert forall|h: BlockHash| wider.contains(h) implies self.reaches(epoch, roots, h) by {
                            let i = choose|i: int| 0 <= i < wider.len() && wider[i] == h;
                            if i < rest.len() {
                                assert(pending[i] == h);
                                assert(pending.contains(h));
                            } else {
                                assert(more[i - rest.len()] == h);
                                assert(more.contains(h));
                                self.lemma_next_is_reached(epoch, roots, hash, h);
                            }
                        }
                        assert forall|h: BlockHash| rest.contains(h) || more.contains(h) implies wider.contains(h) by {
                            if rest.contains(h) {
                                let i = choose|i: int| 0 <= i < rest.len() && rest[i] == h;
                                assert(wider[i] == h);
                            } else {
                                let i = choose|i: int| 0 <= i < more.len() && more[i] == h;
                                assert(wider[rest.len() + i] == h);
                            }
                        }
                        assert(self.on_the_way(
                            epoch,
                            roots,
                            wider,
                            seen.insert(hash),
                            members.insert(slot, hash),
                            found,
                        ));
                        self.lemma_explored(epoch, roots, wider, seen.insert(hash), members.insert(slot, hash), found);
                    }
                },
            }
        }
    }

    proof fn lemma_explored_all(
        self,
        epoch: u64,
        roots: Set<BlockHash>,
        seen: Set<BlockHash>,
        members: Map<SlotRoot, BlockHash>,
        missing: Set<BlockHash>,
        pending: Seq<BlockHash>,
    )
        requires
            self.blocks.dom().finite(),
            pending.len() == 0,
            self.on_the_way(epoch, roots, pending, seen, members, missing),
        ensures
            self.settles(epoch, roots, self.explored(epoch, pending, seen, members, missing)),
    {
        let all = Set::new(|h: BlockHash| seen.contains(h) || self.visit(epoch, h) == Visit::End);
        assert forall|h: BlockHash| self.reaches(epoch, roots, h) implies all.contains(h) by {
            let n = choose|n: nat| (#[trigger] self.within(epoch, roots, n)).contains(h);
            assert(roots.subset_of(all));
            assert forall|p: BlockHash, q: BlockHash|
                #![trigger all.contains(p), self.next(p).contains(q)]
                all.contains(p) && self.visit(epoch, p) == Visit::Member && self.next(p).contains(q) implies all.contains(
                q,
            ) by {
                assert(seen.contains(p));
            }
            self.lemma_closed(epoch, roots, all, n, h);
        }
        assert forall|h: BlockHash| #[trigger] self.carries(epoch, roots, h) implies seen.contains(h) by {
            assert(all.contains(h));
        }
        assert forall|h: BlockHash| #[trigger] self.lacks(epoch, roots, h) implies missing.contains(h) by {
            if self.reaches(epoch, roots, h) && self.visit(epoch, h) == Visit::Missing {
                assert(all.contains(h));
                assert(seen.contains(h));
            } else {
                let p = choose|p: BlockHash| #[trigger] self.carries(epoch, roots, p) && self.unclear(p) == Some(h);
                assert(seen.contains(p));
            }
        }
        if self.is_dead(epoch, roots) {
            let h = choose|h: BlockHash| #[trigger] self.reaches(epoch, roots, h) && self.visit(epoch, h) is Lost;
            assert(all.contains(h));
            assert(seen.contains(h));
        }
        assert forall|slot: SlotRoot| #[trigger] members.contains_key(slot) implies self.carries(
            epoch,
            roots,
            members[slot],
        ) by {
            assert(seen.contains(members[slot]));
        }
    }

    /// Exploring from a list of blocks settles what they carry.
    pub proof fn lemma_closed_settles(self, epoch: u64, roots: Seq<BlockHash>)
        requires
            self.blocks.dom().finite(),
        ensures
            self.settles(epoch, roots.to_set(), self.closed(epoch, roots)),
    {
        assert forall|h: BlockHash| #[trigger] roots.contains(h) implies self.reaches(epoch, roots.to_set(), h) by {
            assert(roots.to_set().contains(h));
            self.lemma_root_is_reached(epoch, roots.to_set(), h);
        }
        self.lemma_explored(epoch, roots.to_set(), roots, Set::empty(), Map::empty(), Set::empty());
    }
}

impl BlockGraph {
    fn balance(&self, hash: &BlockHash) -> (r: Option<Amount>)
        ensures
            r == self@.balance(*hash),
    {
        match self.blocks.get(hash) {
            Some(block) => block.balance,
            None => None,
        }
    }

    /// The block that is finalized in a slot.
    pub fn winner(&self, slot: &SlotRoot) -> (r: Option<BlockHash>)
        ensures
            r == self@.winner(*slot),
    {
        match self.certified.get(slot) {
            Some(hash) => Some(*hash),
            None => match self.cemented.get(slot) {
                Some(hash) => Some(*hash),
                None => None,
            },
        }
    }

    /// The epoch in which a slot counts as finalized, asked for in `epoch`.
    pub fn finalization_epoch(&self, slot: &SlotRoot, epoch: u64) -> (r: u64)
        ensures
            r == self@.finalization_epoch(*slot, epoch),
    {
        match self.assigned.get(slot) {
            Some(other) => *other,
            None => epoch,
        }
    }

    fn visit(&self, epoch: u64, hash: &BlockHash) -> (r: Visit)
        ensures
            r == self@.visit(epoch, *hash),
    {
        if hash.is_zero() || *hash == self.genesis {
            return Visit::End;
        }
        let block = match self.blocks.get(hash) {
            Some(block) => block,
            None => return Visit::Missing,
        };
        match self.winner(&block.slot) {
            Some(winner) => {
                if winner != *hash {
                    return Visit::Lost { winner };
                }
            },
            None => {},
        }
        if self.finalization_epoch(&block.slot, epoch) != epoch {
            return Visit::Elsewhere;
        }
        Visit::Member
    }

    /// Adds what a known block depends on to `pending`. Returns the block that
    /// must be asked for before the dependencies are clear.
    fn push_next(&self, hash: &BlockHash, block: &KnownBlock, pending: &mut Vec<BlockHash>) -> (r: Option<BlockHash>)
        requires
            self@.blocks.contains_key(*hash),
            self@.blocks[*hash] == *block,
        ensures
            final(pending)@ == old(pending)@ + self@.next(*hash),
            r == self@.unclear(*hash),
    {
        match block.dependencies {
            Dependencies::Listed { first, second } => {
                pending.push(first);
                pending.push(second);
                proof {
                    assert(pending@ =~= old(pending)@ + self@.next(*hash));
                }
                None
            },
            Dependencies::State { previous, link, balance } => {
                pending.push(previous);
                match self.balance(&previous) {
                    None => {
                        proof {
                            assert(pending@ =~= old(pending)@ + self@.next(*hash));
                        }
                        Some(previous)
                    },
                    Some(before) => {
                        if balance.raw < before.raw {
                            pending.push(BlockHash::zero());
                        } else {
                            pending.push(link);
                        }
                        proof {
                            assert(pending@ =~= old(pending)@ + self@.next(*hash));
                        }
                        None
                    },
                }
            },
        }
    }

    /// The blocks that are finalized together with `roots` in an epoch, by slot.
    /// Adds the blocks that must be asked for to `missing`.
    pub fn checked_dependency_closure(
        &self,
        epoch: u64,
        roots: &Vec<BlockHash>,
        missing: &mut SortedSet<Pair<u64, BlockHash>>,
    ) -> (r: Result<SortedMap<SlotRoot, BlockHash>, ClosureError>)
        ensures
            closure_of(r) == self@.closed(epoch, roots@).closure,
            final(missing)@ == old(missing)@.union(asked_in(epoch, self@.closed(epoch, roots@).missing)),
            self@.settles(epoch, roots@.to_set(), self@.closed(epoch, roots@)),
    {
        proof {
            assert(self@.blocks.dom().finite());
            self@.lemma_closed_settles(epoch, roots@);
        }
        let mut pending: Vec<BlockHash> = copy_all(roots);
        let mut seen: SortedSet<BlockHash> = SortedSet::new();
        let mut closure: SortedMap<SlotRoot, BlockHash> = SortedMap::new();
        let mut complete: bool = true;
        let ghost mut found: Set<BlockHash> = Set::empty();
        proof {
            assert(asked_in(epoch, found) =~= Set::empty());
            assert(missing@ =~= old(missing)@.union(asked_in(epoch, found)));
        }
        while pending.len() > 0
            invariant
                self@.blocks.dom().finite(),
                self@.settles(epoch, roots@.to_set(), self@.closed(epoch, roots@)),
                missing@ == old(missing)@.union(asked_in(epoch, found)),
                complete == (found == Set::<BlockHash>::empty()),
                self@.closed(epoch, roots@) == self@.explored(epoch, pending@, seen@, closure@, found),
            decreases pending@.len() + 2 * self@.blocks.dom().difference(seen@).len(),
        {
            let ghost before = seen@;
            proof {
                self@.lemma_shrinks(seen@, pending@.last());
                assert(pending@.take(pending@.len() - 1) =~= pending@.drop_last());
            }
            let hash = match pending.pop() {
                Some(hash) => hash,
                None => BlockHash::zero(),
            };
            let visit = self.visit(epoch, &hash);
            if let Visit::End = visit {
                continue;
            }
            if !seen.insert(hash) {
                proof {
                    assert(seen@ =~= before);
                }
                continue;
            }
            match visit {
                Visit::End | Visit::Elsewhere => {},
                Visit::Missing => {
                    missing.insert(Pair(epoch, hash));
                    proof {
                        lemma_asked_in(old(missing)@, epoch, found, hash);
                        found = found.insert(hash);
                        assert(found.contains(hash));
                    }
                    complete = false;
                },
                Visit::Lost { winner } => {
                    return Err(ClosureError::FinalizedConflict { hash, winner });
                },
                Visit::Member => {
                    if let Some(block) = self.blocks.get(&hash) {
                        if closure.contains_key(&block.slot) {
                            return Err(ClosureError::Conflict);
                        }
                        closure.insert(block.slot, hash);
                        if let Some(previous) = self.push_next(&hash, block, &mut pending) {
                            missing.insert(Pair(epoch, previous));
                            proof {
                                lemma_asked_in(old(missing)@, epoch, found, previous);
                                found = found.insert(previous);
                                assert(found.contains(previous));
                            }
                            complete = false;
                        }
                    }
                },
            }
        }
        if complete {
            Ok(closure)
        } else {
            Err(ClosureError::MissingDependency)
        }
    }

    /// The blocks that are finalized together with `roots`, if all are known and compatible.
    pub fn dependency_closure(
        &self,
        epoch: u64,
        roots: &Vec<BlockHash>,
        missing: &mut SortedSet<Pair<u64, BlockHash>>,
    ) -> (r: Option<SortedMap<SlotRoot, BlockHash>>)
        ensures
            match r {
                Some(members) => self@.closed(epoch, roots@).closure == Closure::Complete(members@),
                None => !(self@.closed(epoch, roots@).closure is Complete),
            },
            final(missing)@ == old(missing)@.union(asked_in(epoch, self@.closed(epoch, roots@).missing)),
    {
        match self.checked_dependency_closure(epoch, roots, missing) {
            Ok(closure) => Some(closure),
            Err(_) => None,
        }
    }
}

/// The blocks to ask for, each with the epoch that needs it.
pub open spec fn asked_in(epoch: u64, hashes: Set<BlockHash>) -> Set<Pair<u64, BlockHash>> {
    Set::new(|p: Pair<u64, BlockHash>| p.0 == epoch && hashes.contains(p.1))
}

proof fn lemma_asked_in(base: Set<Pair<u64, BlockHash>>, epoch: u64, hashes: Set<BlockHash>, hash: BlockHash)
    ensures
        base.union(asked_in(epoch, hashes)).insert(Pair(epoch, hash)) == base.union(
            asked_in(epoch, hashes.insert(hash)),
        ),
{
    assert(base.union(asked_in(epoch, hashes)).insert(Pair(epoch, hash)) =~= base.union(
        asked_in(epoch, hashes.insert(hash)),
    ));
}

/// What two explorations from the same blocks find does not hang on the order
/// in which they go: if neither meets a conflict, they gather the same blocks or
/// ask for the same ones.
pub proof fn closure_ignores_order(g: Graph, epoch: u64, a: Seq<BlockHash>, b: Seq<BlockHash>)
    requires
        g.blocks.dom().finite(),
        a.to_set() == b.to_set(),
    ensures
        g.closed(epoch, a).closure is Complete ==> g.closed(epoch, b).closure == g.closed(epoch, a).closure,
        g.closed(epoch, a).closure is MissingDependency ==> g.closed(epoch, b) == g.closed(epoch, a),
{
    let roots = a.to_set();
    g.lemma_closed_settles(epoch, a);
    g.lemma_closed_settles(epoch, b);
    let x = g.closed(epoch, a);
    let y = g.closed(epoch, b);
    if y.closure is FinalizedConflict {
        assert(g.reaches(epoch, roots, y.closure->hash));
        assert(g.is_dead(epoch, roots));
    }
    if x.closure is Complete {
        if y.closure is MissingDependency {
            let h = choose|h: BlockHash| y.missing.contains(h);
            assert(y.missing =~= Set::empty()) by {
                assert forall|h: BlockHash| !y.missing.contains(h) by {
                    assert(!g.lacks(epoch, roots, h));
                }
            }
        }
        let p = x.closure->Complete_0;
        let q = y.closure->Complete_0;
        assert forall|slot: SlotRoot| #[trigger] p.contains_key(slot) implies q.contains_key(slot) && q[slot] == p[slot] by {
            assert(g.carries(epoch, roots, p[slot]));
        }
        assert forall|slot: SlotRoot| #[trigger] q.contains_key(slot) implies p.contains_key(slot) by {
            assert(g.carries(epoch, roots, q[slot]));
        }
        assert(p =~= q);
    }
    if x.closure is MissingDependency {
        if y.closure is Complete {
            assert(x.missing =~= Set::empty()) by {
                assert forall|h: BlockHash| !x.missing.contains(h) by {
                    assert(!g.lacks(epoch, roots, h));
                }
            }
        }
        assert(x.missing =~= y.missing);
    }
}

/// A finalized block that is in the graph and counts for the epoch is part of
/// its own closure, and with it each dependency that is no end of a chain.
pub proof fn closure_is_closed(g: Graph, epoch: u64, roots: Seq<BlockHash>, hash: BlockHash, dependency: BlockHash)
    requires
        g.blocks.dom().finite(),
        g.closed(epoch, roots).closure is Complete,
        g.carries(epoch, roots.to_set(), hash),
        g.next(hash).contains(dependency),
        g.visit(epoch, dependency) == Visit::Member,
    ensures
        ({
            let members = g.closed(epoch, roots).closure->Complete_0;
            &&& members.contains_key(g.blocks[hash].slot)
            &&& members[g.blocks[hash].slot] == hash
            &&& members.contains_key(g.blocks[dependency].slot)
            &&& members[g.blocks[dependency].slot] == dependency
        }),
{
    g.lemma_closed_settles(epoch, roots);
    g.lemma_next_is_reached(epoch, roots.to_set(), hash, dependency);
    assert(g.carries(epoch, roots.to_set(), dependency));
}

/// No closure holds a block that lost against a finalized one.
pub proof fn closure_keeps_finalized_blocks(g: Graph, epoch: u64, roots: Seq<BlockHash>, slot: SlotRoot)
    requires
        g.blocks.dom().finite(),
        g.closed(epoch, roots).closure is Complete,
        g.closed(epoch, roots).closure->Complete_0.contains_key(slot),
        g.winner(slot) is Some,
    ensures
        g.closed(epoch, roots).closure->Complete_0[slot] == g.winner(slot)->0,
{
    g.lemma_closed_settles(epoch, roots);
    let members = g.closed(epoch, roots).closure->Complete_0;
    assert(g.carries(epoch, roots.to_set(), members[slot]));
}

/// A block that a block at hand depends on: either of the two it lists, the one
/// before it, or what it receives from, unless it lowers the balance.
pub open spec fn depends_on(g: Graph, hash: BlockHash, dependency: BlockHash) -> bool {
    match g.blocks[hash].dependencies {
        Dependencies::Listed { first, second } => dependency == first || dependency == second,
        Dependencies::State { previous, link, balance } => {
            ||| dependency == previous
            ||| dependency == link && g.blocks.contains_key(previous) && g.blocks[previous].balance is Some && balance.raw
                >= g.blocks[previous].balance->0.raw
        },
    }
}

/// There is nothing to gather behind the zero hash and the genesis block.
pub open spec fn is_bottom(g: Graph, hash: BlockHash) -> bool {
    hash == (BlockHash { hi: 0, lo: 0 }) || hash == g.genesis
}

/// The block is finalized by another epoch than this one.
pub open spec fn is_elsewhere(g: Graph, epoch: u64, hash: BlockHash) -> bool {
    g.assigned.contains_key(g.blocks[hash].slot) && g.assigned[g.blocks[hash].slot] != epoch
}

/// The finalized block of a slot: the certified one before the cemented one.
pub open spec fn finalized_block(g: Graph, slot: SlotRoot) -> Option<BlockHash> {
    if g.certified.contains_key(slot) {
        Some(g.certified[slot])
    } else {
        g.cemented.get(slot)
    }
}

/// What a complete closure says of a block that it was asked about or that one of
/// its members depends on: the block is at hand, none other is finalized in its slot,
/// and it is a member itself, unless another epoch finalizes it.
pub open spec fn is_accounted_for(g: Graph, epoch: u64, members: Map<SlotRoot, BlockHash>, hash: BlockHash) -> bool {
    is_bottom(g, hash) || {
        let slot = g.blocks[hash].slot;
        &&& g.blocks.contains_key(hash)
        &&& finalized_block(g, slot) is None || finalized_block(g, slot) == Some(hash)
        &&& is_elsewhere(g, epoch, hash) || (members.contains_key(slot) && members[slot] == hash)
    }
}

proof fn lemma_accounted(g: Graph, epoch: u64, roots: Seq<BlockHash>, hash: BlockHash)
    requires
        g.blocks.dom().finite(),
        g.closed(epoch, roots).closure is Complete,
        g.reaches(epoch, roots.to_set(), hash),
    ensures
        is_accounted_for(g, epoch, g.closed(epoch, roots).closure->Complete_0, hash),
{
    g.lemma_closed_settles(epoch, roots);
    let set = roots.to_set();
    if !is_bottom(g, hash) {
        assert(!g.lacks(epoch, set, hash));
        assert(!(g.visit(epoch, hash) is Lost)) by {
            assert(!g.is_dead(epoch, set));
        }
        if g.visit(epoch, hash) == Visit::Member {
            assert(g.carries(epoch, set, hash));
        }
    }
}

/// A complete closure accounts for every block it was asked about, and for every
/// block that one of its members depends on; each member stands in its own slot, is
/// not finalized by another epoch, and its predecessor's balance is known where what
/// it depends on turns on that.
pub proof fn complete_closure_accounts_for_everything(
    g: Graph,
    epoch: u64,
    roots: Seq<BlockHash>,
    root: BlockHash,
    slot: SlotRoot,
    dependency: BlockHash,
)
    requires
        g.blocks.dom().finite(),
        g.closed(epoch, roots).closure is Complete,
    ensures
        ({
            let members = g.closed(epoch, roots).closure->Complete_0;
            &&& roots.contains(root) ==> is_accounted_for(g, epoch, members, root)
            &&& members.contains_key(slot) ==> {
                let hash = members[slot];
                &&& g.blocks.contains_key(hash)
                &&& !is_bottom(g, hash)
                &&& g.blocks[hash].slot == slot
                &&& !is_elsewhere(g, epoch, hash)
                &&& is_accounted_for(g, epoch, members, hash)
                &&& depends_on(g, hash, dependency) ==> is_accounted_for(g, epoch, members, dependency)
                &&& g.blocks[hash].dependencies matches Dependencies::State { previous, link, balance }
                    ==> g.blocks.contains_key(previous) && g.blocks[previous].balance is Some
            }
        }),
{
    g.lemma_closed_settles(epoch, roots);
    let set = roots.to_set();
    let members = g.closed(epoch, roots).closure->Complete_0;
    if roots.contains(root) {
        g.lemma_root_is_reached(epoch, set, root);
        lemma_accounted(g, epoch, roots, root);
    }
    if members.contains_key(slot) {
        let hash = members[slot];
        assert(g.carries(epoch, set, hash));
        lemma_accounted(g, epoch, roots, hash);
        if let Dependencies::State { previous, link, balance } = g.blocks[hash].dependencies {
            if g.unclear(hash) is Some {
                assert(g.lacks(epoch, set, previous));
            }
        }
        if depends_on(g, hash, dependency) {
            let next = g.next(hash);
            assert(next.contains(dependency)) by {
                if next[0] != dependency {
                    assert(next[1] == dependency);
                }
            }
            g.lemma_next_is_reached(epoch, set, hash, dependency);
            lemma_accounted(g, epoch, roots, dependency);
        }
    }
}

/// A complete closure holds nothing that it need not: its members are in every set
/// that holds the blocks it was asked about, and with a block of this epoch the
/// blocks that it depends on.
pub proof fn complete_closure_is_the_least(
    g: Graph,
    epoch: u64,
    roots: Seq<BlockHash>,
    enough: Set<BlockHash>,
    slot: SlotRoot,
)
    requires
        g.blocks.dom().finite(),
        g.closed(epoch, roots).closure is Complete,
        g.closed(epoch, roots).closure->Complete_0.contains_key(slot),
        forall|root: BlockHash| #[trigger] roots.contains(root) ==> enough.contains(root),
        forall|hash: BlockHash, dependency: BlockHash|
            #![trigger depends_on(g, hash, dependency)]
            enough.contains(hash) && g.blocks.contains_key(hash) && !is_bottom(g, hash) && !is_elsewhere(g, epoch, hash)
                && depends_on(g, hash, dependency) ==> enough.contains(dependency),
        enough.contains(BlockHash { hi: 0, lo: 0 }),
    ensures
        enough.contains(g.closed(epoch, roots).closure->Complete_0[slot]),
{
    g.lemma_closed_settles(epoch, roots);
    let set = roots.to_set();
    let hash = g.closed(epoch, roots).closure->Complete_0[slot];
    assert(g.carries(epoch, set, hash));
    let n = choose|n: nat| (#[trigger] g.within(epoch, set, n)).contains(hash);
    assert forall|p: BlockHash, h: BlockHash|
        #![trigger enough.contains(p), g.next(p).contains(h)]
        enough.contains(p) && g.visit(epoch, p) == Visit::Member && g.next(p).contains(h) implies enough.contains(h) by {
        if h != no_hash() {
            assert(depends_on(g, p, h));
        }
    }
    assert forall|root: BlockHash| set.contains(root) implies enough.contains(root) by {
        assert(roots.contains(root));
    }
    g.lemma_closed(epoch, set, enough, n, hash);
}

/// Where no closure is complete, there is a reason at hand: a block that is not, or
/// whose predecessor's balance is not known, a block that lost its slot to a finalized
/// one, or two blocks in one slot. A block that is asked about and not at hand always
/// stands in the way.
pub proof fn incomplete_closure_has_a_reason(g: Graph, epoch: u64, roots: Seq<BlockHash>, root: BlockHash)
    requires
        g.blocks.dom().finite(),
    ensures
        match g.closed(epoch, roots).closure {
            Closure::Complete(members) => roots.contains(root) ==> is_bottom(g, root) || g.blocks.contains_key(root),
            Closure::MissingDependency => {
                &&& exists|h: BlockHash| #[trigger] g.closed(epoch, roots).missing.contains(h)
                &&& forall|h: BlockHash| #[trigger]
                    g.closed(epoch, roots).missing.contains(h) ==> !g.blocks.contains_key(h) || g.blocks[h].balance is None
                &&& roots.contains(root) && !is_bottom(g, root) && !g.blocks.contains_key(root) ==> g.closed(
                    epoch,
                    roots,
                ).missing.contains(root)
            },
            Closure::Conflict => exists|a: BlockHash, b: BlockHash| #[trigger]
                g.blocks.contains_key(a) && #[trigger] g.blocks.contains_key(b) && a != b && g.blocks[a].slot
                    == g.blocks[b].slot,
            Closure::FinalizedConflict { hash, winner } => {
                &&& g.blocks.contains_key(hash)
                &&& finalized_block(g, g.blocks[hash].slot) == Some(winner)
                &&& winner != hash
            },
        },
{
    g.lemma_closed_settles(epoch, roots);
    let set = roots.to_set();
    let found = g.closed(epoch, roots);
    if roots.contains(root) {
        g.lemma_root_is_reached(epoch, set, root);
    }
    match found.closure {
        Closure::Complete(members) => {
            assert(!g.lacks(epoch, set, root));
        },
        Closure::MissingDependency => {
            if forall|h: BlockHash| !#[trigger] found.missing.contains(h) {
                assert(found.missing =~= Set::empty());
            }
            assert forall|h: BlockHash| #[trigger] found.missing.contains(h) implies !g.blocks.contains_key(h)
                || g.blocks[h].balance is None by {
                assert(g.lacks(epoch, set, h));
            }
            if roots.contains(root) && !is_bottom(g, root) && !g.blocks.contains_key(root) {
                assert(g.lacks(epoch, set, root));
            }
        },
        Closure::Conflict => {
            let (a, b) = choose|a: BlockHash, b: BlockHash| #[trigger]
                g.carries(epoch, set, a) && #[trigger] g.carries(epoch, set, b) && a != b && g.blocks[a].slot
                    == g.blocks[b].slot;
            assert(g.blocks.contains_key(a) && g.blocks.contains_key(b));
        },
        Closure::FinalizedConflict { hash, winner } => {},
    }
}

/// A block that lost its slot to a finalized one completes no closure that is asked
/// about it.
pub proof fn lost_block_completes_nothing(g: Graph, epoch: u64, roots: Seq<BlockHash>, root: BlockHash)
    requires
        g.blocks.dom().finite(),
        roots.contains(root),
        !is_bottom(g, root),
        g.blocks.contains_key(root),
        finalized_block(g, g.blocks[root].slot) is Some,
        finalized_block(g, g.blocks[root].slot) != Some(root),
    ensures
        g.closed(epoch, roots).closure is FinalizedConflict || g.closed(epoch, roots).closure is Conflict,
{
    g.lemma_closed_settles(epoch, roots);
    let set = roots.to_set();
    g.lemma_root_is_reached(epoch, set, root);
    assert(g.is_dead(epoch, set));
}

}
