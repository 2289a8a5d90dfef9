//! Which votes may be produced while an epoch closes.
use vstd::prelude::*;

use crate::ordered::{Duplicate, Key, Pair, SortedMap, SortedSet};
use crate::types::{BlockHash, Root};

verus! {

/// What an election decides about, in whichever epoch.
#[derive(Clone, Copy, Debug, PartialEq, Eq, PartialOrd, Ord, Hash, Structural)]
pub struct SlotRoot {
    pub root: Root,
    pub previous: BlockHash,
}

impl SlotRoot {
    /// The election about the slot in an epoch.
    pub fn with_epoch(self, epoch: u64) -> (r: EpochRoot)
        ensures
            r == (EpochRoot { slot: self, epoch }),
    {
        EpochRoot { slot: self, epoch }
    }
}

impl DeepView for SlotRoot {
    type V = SlotRoot;

    open spec fn deep_view(&self) -> SlotRoot {
        *self
    }
}

impl Duplicate for SlotRoot {
    fn duplicate(&self) -> (r: Self) {
        *self
    }

    fn agrees(&self, other: &Self) -> (r: bool) {
        *self == *other
    }
}

impl Key for SlotRoot {
    open spec fn rank(self) -> int {
        Pair(self.root, self.previous).rank()
    }

    open spec fn span() -> int {
        Pair::<Root, BlockHash>::span()
    }

    proof fn rank_in_span(self) {
        Pair(self.root, self.previous).rank_in_span();
    }

    proof fn rank_is_injective(a: Self, b: Self) {
        Pair::<Root, BlockHash>::rank_is_injective(Pair(a.root, a.previous), Pair(b.root, b.previous));
    }

    fn precedes(&self, other: &Self) -> (r: bool) {
        Pair(self.root, self.previous).precedes(&Pair(other.root, other.previous))
    }
}

/// An election about a slot in an epoch.
#[derive(Clone, Copy, Debug, PartialEq, Eq, PartialOrd, Ord, Hash, Structural)]
pub struct EpochRoot {
    pub slot: SlotRoot,
    pub epoch: u64,
}

/// Which votes may be produced.
pub enum VoteGateState {
    Open,
    Paused,
    /// The reports about the closing epoch are collected.
    Collecting { closing_epoch: u64, open_epoch: Option<u64> },
    /// The elections of the cut run to their end.
    Draining { closing_epoch: u64, open_epoch: Option<u64>, cut_elections: SortedSet<SlotRoot> },
}

/// The model of the policy.
#[verifier::ext_equal]
pub enum Policy {
    Open,
    Paused,
    Collecting { closing_epoch: u64, open_epoch: Option<u64> },
    Draining { closing_epoch: u64, open_epoch: Option<u64>, cut: Set<SlotRoot> },
}

impl VoteGateState {
    pub open spec fn model(&self) -> Policy {
        match self {
            VoteGateState::Open => Policy::Open,
            VoteGateState::Paused => Policy::Paused,
            VoteGateState::Collecting { closing_epoch, open_epoch } => Policy::Collecting {
                closing_epoch: *closing_epoch,
                open_epoch: *open_epoch,
            },
            VoteGateState::Draining { closing_epoch, open_epoch, cut_elections } => Policy::Draining {
                closing_epoch: *closing_epoch,
                open_epoch: *open_epoch,
                cut: cut_elections@,
            },
        }
    }
}

impl Policy {
    /// A vote in the election may be produced.
    pub open spec fn allows(self, root: EpochRoot) -> bool {
        match self {
            Policy::Open => true,
            Policy::Paused => false,
            Policy::Collecting { closing_epoch, open_epoch } => open_epoch == Some(root.epoch),
            Policy::Draining { closing_epoch, open_epoch, cut } => open_epoch == Some(root.epoch) || (root.epoch
                == closing_epoch && cut.contains(root.slot)),
        }
    }

    /// The epoch that closes.
    pub open spec fn closing(self) -> Option<u64> {
        match self {
            Policy::Collecting { closing_epoch, open_epoch } => Some(closing_epoch),
            Policy::Draining { closing_epoch, open_epoch, cut } => Some(closing_epoch),
            _ => None,
        }
    }
}

/// Lets votes pass or holds them back.
pub struct VoteGate {
    policy: VoteGateState,
    in_flight: usize,
    finalized: SortedMap<u64, SortedMap<SlotRoot, BlockHash>>,
    cut_generation: u64,
}

/// The model of the vote gate.
#[verifier::ext_equal]
pub struct Gate {
    pub policy: Policy,
    pub in_flight: usize,
    pub finalized: Map<u64, Map<SlotRoot, BlockHash>>,
    pub cut_generation: u64,
}

impl View for VoteGate {
    type V = Gate;

    closed spec fn view(&self) -> Gate {
        Gate {
            policy: self.policy.model(),
            in_flight: self.in_flight,
            finalized: self.finalized@,
            cut_generation: self.cut_generation,
        }
    }
}

impl Gate {
    /// The node may answer with its final vote for a block that it finalized in the closing epoch.
    pub open spec fn recovers(self, root: EpochRoot, hash: BlockHash) -> bool {
        &&& self.policy.closing() == Some(root.epoch)
        &&& self.finalized.contains_key(root.epoch)
        &&& self.finalized[root.epoch].contains_key(root.slot)
        &&& self.finalized[root.epoch][root.slot] == hash
    }
}

impl Default for VoteGate {
    fn default() -> (r: Self)
        ensures
            r@ == (Gate { policy: Policy::Open, in_flight: 0, finalized: Map::empty(), cut_generation: 0 }),
    {
        let finalized: SortedMap<u64, SortedMap<SlotRoot, BlockHash>> = SortedMap::new();
        VoteGate { policy: VoteGateState::Open, in_flight: 0, finalized, cut_generation: 0 }
    }
}

impl VoteGate {
    fn allows(policy: &VoteGateState, root: &EpochRoot) -> (r: bool)
        ensures
            r == policy.model().allows(*root),
    {
        match policy {
            VoteGateState::Open => true,
            VoteGateState::Paused => false,
            VoteGateState::Collecting { closing_epoch: _, open_epoch } => match open_epoch {
                Some(epoch) => root.epoch == *epoch,
                None => false,
            },
            VoteGateState::Draining { closing_epoch, open_epoch, cut_elections } => {
                let open = match open_epoch {
                    Some(epoch) => root.epoch == *epoch,
                    None => false,
                };
                open || (root.epoch == *closing_epoch && cut_elections.contains(&root.slot))
            },
        }
    }

    /// Lets a vote pass, if it may be produced. It is in flight until it leaves.
    pub fn enter(&mut self, root: &EpochRoot) -> (r: bool)
        requires
            old(self)@.in_flight < usize::MAX,
        ensures
            r == old(self)@.policy.allows(*root),
            final(self)@ == if r {
                Gate { in_flight: (old(self)@.in_flight + 1) as usize, ..old(self)@ }
            } else {
                old(self)@
            },
    {
        if !Self::allows(&self.policy, root) {
            return false;
        }
        self.in_flight = self.in_flight + 1;
        true
    }

    /// A vote that had passed is done; reports whether it was the last one.
    pub fn leave(&mut self) -> (r: bool)
        requires
            old(self)@.in_flight > 0,
        ensures
            final(self)@ == (Gate { in_flight: (old(self)@.in_flight - 1) as usize, ..old(self)@ }),
            r == (old(self)@.in_flight == 1),
    {
        self.in_flight = self.in_flight - 1;
        self.in_flight == 0
    }

    /// Whether no vote is in flight.
    pub fn is_drained(&self) -> (r: bool)
        ensures
            r == (self@.in_flight == 0),
    {
        self.in_flight == 0
    }

    /// Authorizes only a solicited final-vote recovery response for a winner
    /// that this node already finalized in the closing epoch. It does not
    /// authorize the generation of first or non-final votes.
    pub fn allows_final_recovery(&self, root: &EpochRoot, hash: &BlockHash) -> (r: bool)
        ensures
            r == self@.recovers(*root, *hash),
    {
        let closing = match &self.policy {
            VoteGateState::Collecting { closing_epoch, open_epoch: _ } => root.epoch == *closing_epoch,
            VoteGateState::Draining { closing_epoch, open_epoch: _, cut_elections: _ } => root.epoch == *closing_epoch,
            _ => false,
        };
        if !closing {
            return false;
        }
        match self.finalized.get(&root.epoch) {
            Some(finalized) => match finalized.get(&root.slot) {
                Some(winner) => *winner == *hash,
                None => false,
            },
            None => false,
        }
    }

    pub fn set_finalized(&mut self, epoch: u64, finalized: SortedMap<SlotRoot, BlockHash>)
        ensures
            final(self)@ == (Gate { finalized: old(self)@.finalized.insert(epoch, finalized@), ..old(self)@ }),
    {
        self.finalized.insert(epoch, finalized);
    }

    pub fn clear_finalized(&mut self, epoch: u64)
        ensures
            final(self)@ == (Gate { finalized: old(self)@.finalized.remove(epoch), ..old(self)@ }),
    {
        self.finalized.remove(&epoch);
    }

    pub fn open(&mut self)
        ensures
            final(self)@ == (Gate { policy: Policy::Open, ..old(self)@ }),
    {
        self.policy = VoteGateState::Open;
    }

    /// Lets no more votes pass. Whoever pauses waits until the vote gate is drained.
    pub fn pause(&mut self)
        ensures
            final(self)@ == (Gate { policy: Policy::Paused, ..old(self)@ }),
    {
        self.policy = VoteGateState::Paused;
    }

    /// Opens the next scheduled epoch while the reports about the closing
    /// epoch's pending elections are collected. New votes in the closing epoch
    /// remain blocked.
    pub fn start_collecting(&mut self, closing_epoch: u64, open_epoch: Option<u64>)
        ensures
            final(self)@ == (Gate { policy: Policy::Collecting { closing_epoch, open_epoch }, ..old(self)@ }),
    {
        self.policy = VoteGateState::Collecting { closing_epoch, open_epoch };
    }

    pub fn install_cut(&mut self, epoch: u64, open_epoch: Option<u64>, cut_elections: SortedSet<SlotRoot>)
        ensures
            final(self)@ == (Gate {
                policy: Policy::Draining { closing_epoch: epoch, open_epoch, cut: cut_elections@ },
                cut_generation: if old(self)@.cut_generation == u64::MAX {
                    0
                } else {
                    (old(self)@.cut_generation + 1) as u64
                },
                ..old(self)@
            }),
    {
        self.policy = VoteGateState::Draining { closing_epoch: epoch, open_epoch, cut_elections };
        self.cut_generation = if self.cut_generation == u64::MAX {
            0
        } else {
            self.cut_generation + 1
        };
    }

    /// How many cuts were installed.
    pub fn cut_generation(&self) -> (r: u64)
        ensures
            r == self@.cut_generation,
    {
        self.cut_generation
    }
}

/// While the cut drains, of the closing epoch only elections of the cut pass,
/// of the open epoch all, and of other epochs none.
pub proof fn draining_passes_the_cut_and_the_open_epoch(closing: u64, open: u64, cut: Set<SlotRoot>, root: EpochRoot)
    requires
        closing != open,
    ensures
        ({
            let policy = Policy::Draining { closing_epoch: closing, open_epoch: Some(open), cut };
            &&& root.epoch == closing ==> policy.allows(root) == cut.contains(root.slot)
            &&& root.epoch == open ==> policy.allows(root)
            &&& root.epoch != closing && root.epoch != open ==> !policy.allows(root)
        }),
{
}

/// Final recovery passes at most one block of an election, and only in the
/// epoch that closes.
pub proof fn recovery_is_exact(g: Gate, root: EpochRoot, a: BlockHash, b: BlockHash)
    requires
        g.recovers(root, a),
        g.recovers(root, b),
    ensures
        a == b,
        g.policy.closing() == Some(root.epoch),
{
}

/// An open policy passes every root and a paused one none; while an epoch closes the
/// roots of the open epoch pass, and once its cut drains those of the cut too. Nothing
/// else of the closing epoch does, nor anything of other epochs.
pub proof fn policies_pass_the_open_epoch(root: EpochRoot, closing_epoch: u64, open_epoch: Option<u64>, cut: Set<SlotRoot>)
    ensures
        Policy::Open.allows(root),
        !Policy::Paused.allows(root),
        (Policy::Collecting { closing_epoch, open_epoch }).allows(root) <==> open_epoch is Some && open_epoch->0 == root.epoch,
        (Policy::Draining { closing_epoch, open_epoch, cut }).allows(root) <==> (open_epoch is Some && open_epoch->0
            == root.epoch) || (root.epoch == closing_epoch && cut.contains(root.slot)),
{
}

/// A block passes for recovery exactly if its epoch closes and the block is the one finalized
/// in its slot there.
pub proof fn recovery_passes_the_finalized_block(g: Gate, root: EpochRoot, hash: BlockHash)
    ensures
        g.recovers(root, hash) <==> {
            &&& g.policy matches Policy::Collecting { closing_epoch, open_epoch } ==> closing_epoch == root.epoch
            &&& g.policy matches Policy::Draining { closing_epoch, open_epoch, cut } ==> closing_epoch == root.epoch
            &&& g.policy is Collecting || g.policy is Draining
            &&& g.finalized.contains_key(root.epoch) && g.finalized[root.epoch].contains_key(root.slot)
            &&& g.finalized[root.epoch][root.slot] == hash
        },
{
}

}
