//! Which candidates an epoch takes in besides what is finalized.
use vstd::prelude::*;

use crate::dependency_closure::{
    asked_in, closure_keeps_finalized_blocks, no_hash, BlockGraph, Closure, ClosureError, Dependencies, Graph,
};
use crate::ordered::{
    ascending, copy_all, lemma_ascending, sorted_map_is_finite, sorted_set_is_finite, Key, Pair, SortedMap, SortedSet,
};
use crate::types::BlockHash;
use crate::vote_gate::SlotRoot;

verus! {

broadcast use {sorted_map_is_finite, sorted_set_is_finite};

/// Candidates are ordered by the height in their account chain, then by hash.
#[derive(Clone, Copy, Debug, PartialEq, Eq, PartialOrd, Ord, Structural)]
pub struct Rank {
    pub height: u64,
    pub hash: BlockHash,
}

impl Key for Rank {
    open spec fn rank(self) -> int {
        Pair(self.height, self.hash).rank()
    }

    open spec fn span() -> int {
        Pair::<u64, BlockHash>::span()
    }

    proof fn rank_in_span(self) {
        Pair(self.height, self.hash).rank_in_span();
    }

    proof fn rank_is_injective(a: Self, b: Self) {
        Pair::<u64, BlockHash>::rank_is_injective(Pair(a.height, a.hash), Pair(b.height, b.hash));
    }

    fn precedes(&self, other: &Self) -> (r: bool) {
        Pair(self.height, self.hash).precedes(&Pair(other.height, other.hash))
    }
}

impl Graph {
    /// The heights leave room for blocks on top that the ledger does not have.
    pub open spec fn heights_fit(self) -> bool {
        forall|h: BlockHash| #[trigger]
            self.blocks.contains_key(h) ==> match self.blocks[h].height {
                Some(height) => height + self.blocks.dom().len() <= u64::MAX,
                None => true,
            }
    }

    /// The height of a block in its account chain: that of the nearest
    /// predecessor that the ledger has, and one more for each block after it.
    pub open spec fn chain_height(self, cursor: BlockHash, passed: Set<BlockHash>) -> Option<nat>
        decreases self.blocks.dom().difference(passed).len(),
        when self.blocks.dom().finite()
    {
        if cursor == no_hash() || passed.contains(cursor) {
            Some(0)
        } else if !self.blocks.contains_key(cursor) {
            None
        } else {
            proof {
                self.lemma_shrinks(passed, cursor);
            }
            match self.blocks[cursor].height {
                Some(height) => Some(height as nat),
                None => match self.chain_height(self.blocks[cursor].previous, passed.insert(cursor)) {
                    Some(height) => Some((height + 1) as nat),
                    None => None,
                },
            }
        }
    }

    /// The unknown block that hides the height of a block, if there is one.
    pub open spec fn chain_gap(self, cursor: BlockHash, passed: Set<BlockHash>) -> Set<BlockHash>
        decreases self.blocks.dom().difference(passed).len(),
        when self.blocks.dom().finite()
    {
        if cursor == no_hash() || passed.contains(cursor) {
            Set::empty()
        } else if !self.blocks.contains_key(cursor) {
            set![cursor]
        } else {
            proof {
                self.lemma_shrinks(passed, cursor);
            }
            match self.blocks[cursor].height {
                Some(height) => Set::empty(),
                None => self.chain_gap(self.blocks[cursor].previous, passed.insert(cursor)),
            }
        }
    }

    /// The blocks that a single candidate carries.
    pub open spec fn load(self, epoch: u64, hash: BlockHash) -> Closure {
        self.closed(epoch, seq![hash]).closure
    }

    /// What is known does not tell whether the candidate can be taken in.
    pub open spec fn is_open(self, epoch: u64, hash: BlockHash) -> bool {
        ||| !self.blocks.contains_key(hash)
        ||| self.load(epoch, hash) is MissingDependency
        ||| self.load(epoch, hash) is Complete && self.chain_height(hash, Set::empty()) is None
    }

    /// The blocks to ask for on account of one candidate.
    pub open spec fn asked_for(self, epoch: u64, hash: BlockHash) -> Set<BlockHash> {
        if !self.blocks.contains_key(hash) {
            set![hash]
        } else if self.load(epoch, hash) is Complete {
            self.chain_gap(hash, Set::empty())
        } else {
            self.closed(epoch, seq![hash]).missing
        }
    }

    /// The blocks to ask for on account of the candidates, up to the first one
    /// of which what is known does not tell.
    pub open spec fn asked_for_all(self, epoch: u64, candidates: Seq<BlockHash>) -> Set<BlockHash>
        decreases candidates.len(),
    {
        if candidates.len() == 0 {
            Set::empty()
        } else {
            let before = self.asked_for_all(epoch, candidates.drop_last());
            if self.is_undecided(epoch, candidates.drop_last()) {
                before
            } else {
                before.union(self.asked_for(epoch, candidates.last()))
            }
        }
    }

    /// What is known does not tell of some candidate whether it can be taken in.
    pub open spec fn is_undecided(self, epoch: u64, candidates: Seq<BlockHash>) -> bool {
        exists|i: int| 0 <= i < candidates.len() && self.is_open(epoch, #[trigger] candidates[i])
    }

    /// The candidate and all it depends on are known and compatible.
    pub open spec fn is_eligible(self, epoch: u64, hash: BlockHash) -> bool {
        &&& self.blocks.contains_key(hash)
        &&& self.load(epoch, hash) is Complete
        &&& self.chain_height(hash, Set::empty()) is Some
    }

    /// The eligible ones of the candidates, with their places.
    pub open spec fn ranks(self, epoch: u64, candidates: Seq<BlockHash>) -> Set<Rank> {
        Set::new(
            |r: Rank|
                candidates.contains(r.hash) && self.is_eligible(epoch, r.hash) && self.chain_height(
                    r.hash,
                    Set::empty(),
                ) == Some(r.height as nat),
        )
    }

    /// The blocks contradict neither what is selected nor the winner of an election.
    pub open spec fn fits(self, selected: Map<SlotRoot, BlockHash>, members: Map<SlotRoot, BlockHash>) -> bool {
        forall|slot: SlotRoot| #[trigger]
            members.contains_key(slot) ==> {
                &&& selected.contains_key(slot) ==> selected[slot] == members[slot]
                &&& self.certified.contains_key(slot) ==> self.certified[slot] == members[slot]
            }
    }

    /// The selection after one more candidate: it is taken with all that it
    /// carries, or not at all.
    pub open spec fn taken(self, epoch: u64, selected: Map<SlotRoot, BlockHash>, hash: BlockHash) -> Map<
        SlotRoot,
        BlockHash,
    > {
        let members = self.load(epoch, hash)->Complete_0;
        if self.fits(selected, members) {
            selected.union_prefer_right(members)
        } else {
            selected
        }
    }

    /// The selection after the candidates, the highest first.
    pub open spec fn chosen(self, epoch: u64, order: Seq<Rank>, selected: Map<SlotRoot, BlockHash>) -> Map<
        SlotRoot,
        BlockHash,
    >
        decreases order.len(),
    {
        if order.len() == 0 {
            selected
        } else {
            self.chosen(epoch, order.drop_last(), self.taken(epoch, selected, order.last().hash))
        }
    }

    /// What is selected among the candidates, on top of what is finalized.
    pub open spec fn selection(self, epoch: u64, finalized: Map<SlotRoot, BlockHash>, candidates: Seq<BlockHash>) -> Option<
        Map<SlotRoot, BlockHash>,
    > {
        if self.is_undecided(epoch, candidates) {
            None
        } else {
            Some(self.chosen(epoch, ascending(self.ranks(epoch, candidates)), finalized))
        }
    }

    /// The ledger has the block.
    pub open spec fn is_saved(self, hash: BlockHash) -> bool {
        hash != no_hash() && self.blocks.contains_key(hash) && self.blocks[hash].height is Some
    }

    /// The dependencies that are listed for a block.
    pub open spec fn listed(self, hash: BlockHash) -> Seq<BlockHash> {
        match self.blocks[hash].dependencies {
            Dependencies::Listed { first, second } => seq![first, second],
            Dependencies::State { previous, link, balance } => Seq::empty(),
        }
    }

    /// `hashes` and what the saved blocks among them depend on.
    pub open spec fn deepened(self, hashes: Set<BlockHash>) -> Set<BlockHash> {
        Set::new(
            |h: BlockHash|
                hashes.contains(h) || exists|p: BlockHash| #[trigger]
                    hashes.contains(p) && self.is_saved(p) && self.listed(p).contains(h),
        )
    }

    /// What is at most `n` dependencies below `start` in the ledger.
    pub open spec fn below(self, start: Set<BlockHash>, n: nat) -> Set<BlockHash>
        decreases n,
    {
        if n == 0 {
            start
        } else {
            self.deepened(self.below(start, (n - 1) as nat))
        }
    }

    /// The block is in the ledger, and is one of `start` or what they depend on.
    pub open spec fn is_ancestor(self, start: Set<BlockHash>, hash: BlockHash) -> bool {
        self.is_saved(hash) && exists|n: nat| (#[trigger] self.below(start, n)).contains(hash)
    }

    /// The slots of the ledger blocks that are among `start` or that they depend on.
    pub open spec fn ancestor_slots(self, start: Set<BlockHash>) -> Set<SlotRoot> {
        Set::new(
            |slot: SlotRoot|
                exists|h: BlockHash| #[trigger] self.is_ancestor(start, h) && self.blocks[h].slot == slot,
        )
    }

    /// A complete closure lacks nothing.
    proof fn lemma_complete_lacks_nothing(self, epoch: u64, hash: BlockHash)
        requires
            self.blocks.dom().finite(),
        ensures
            self.load(epoch, hash) is Complete ==> self.closed(epoch, seq![hash]).missing == Set::<BlockHash>::empty(),
    {
        self.lemma_closed_settles(epoch, seq![hash]);
        if self.load(epoch, hash) is Complete {
            let e = self.closed(epoch, seq![hash]);
            assert forall|h: BlockHash| !e.missing.contains(h) by {
                assert(!self.lacks(epoch, seq![hash].to_set(), h));
            }
            assert(e.missing =~= Set::empty());
        }
    }

    proof fn lemma_asked_for_all(self, epoch: u64, candidates: Seq<BlockHash>, i: int)
        requires
            0 <= i < candidates.len(),
            forall|j: int| 0 <= j < i ==> !self.is_open(epoch, #[trigger] candidates[j]),
        ensures
            self.asked_for_all(epoch, candidates.take(i + 1)) == self.asked_for_all(epoch, candidates.take(i)).union(
                self.asked_for(epoch, candidates[i]),
            ),
    {
        assert(candidates.take(i + 1).drop_last() =~= candidates.take(i));
        assert(!self.is_undecided(epoch, candidates.take(i)));
    }

    proof fn lemma_asked_stays(self, epoch: u64, candidates: Seq<BlockHash>, n: int)
        requires
            0 <= n <= candidates.len(),
            self.is_undecided(epoch, candidates.take(n)),
        ensures
            self.asked_for_all(epoch, candidates) == self.asked_for_all(epoch, candidates.take(n)),
            self.is_undecided(epoch, candidates),
        decreases candidates.len(),
    {
        let k = choose|k: int| 0 <= k < n && self.is_open(epoch, #[trigger] candidates.take(n)[k]);
        assert(self.is_open(epoch, candidates[k]));
        if n < candidates.len() {
            let less = candidates.drop_last();
            assert(less.take(n) =~= candidates.take(n));
            self.lemma_asked_stays(epoch, less, n);
        } else {
            assert(candidates.take(n) =~= candidates);
        }
    }

    proof fn lemma_below_next(self, start: Set<BlockHash>, p: BlockHash, hash: BlockHash)
        requires
            self.is_ancestor(start, p),
            self.listed(p).contains(hash),
        ensures
            exists|n: nat| (#[trigger] self.below(start, n)).contains(hash),
    {
        let n = choose|n: nat| (#[trigger] self.below(start, n)).contains(p);
        let before = self.below(start, n);
        assert(before.contains(p));
        assert(self.below(start, n + 1).contains(hash));
    }

    proof fn lemma_below_closed(self, start: Set<BlockHash>, seen: Set<BlockHash>, n: nat, hash: BlockHash)
        requires
            start.subset_of(seen),
            forall|p: BlockHash, h: BlockHash|
                #![trigger seen.contains(p), self.listed(p).contains(h)]
                seen.contains(p) && self.is_saved(p) && self.listed(p).contains(h) ==> seen.contains(h),
            self.below(start, n).contains(hash),
        ensures
            seen.contains(hash),
        decreases n,
    {
        if n > 0 {
            let before = self.below(start, (n - 1) as nat);
            if before.contains(hash) {
                self.lemma_below_closed(start, seen, (n - 1) as nat, hash);
            } else {
                let p = choose|p: BlockHash| #[trigger]
                    before.contains(p) && self.is_saved(p) && self.listed(p).contains(hash);
                self.lemma_below_closed(start, seen, (n - 1) as nat, p);
            }
        }
    }
}

impl BlockGraph {
    /// The height of a block in its account chain; `None` if a predecessor is unknown.
    pub fn account_height(&self, epoch: u64, hash: &BlockHash, missing: &mut SortedSet<Pair<u64, BlockHash>>) -> (r: Option<
        u64,
    >)
        requires
            self@.heights_fit(),
        ensures
            match r {
                Some(height) => self@.chain_height(*hash, Set::empty()) == Some(height as nat),
                None => self@.chain_height(*hash, Set::empty()) is None,
            },
            final(missing)@ == old(missing)@.union(asked_in(epoch, self@.chain_gap(*hash, Set::empty()))),
    {
        let mut height: u64 = 0;
        let mut cursor: BlockHash = *hash;
        let mut seen: SortedSet<BlockHash> = SortedSet::new();
        let bound: usize = self.blocks.len();
        while !cursor.is_zero() && !seen.contains(&cursor)
            invariant
                bound == self@.blocks.dom().len(),
                self@.blocks.dom().finite(),
                self@.heights_fit(),
                missing@ == old(missing)@,
                seen@.subset_of(self@.blocks.dom()),
                height == seen@.len(),
                self@.chain_gap(*hash, Set::empty()) == self@.chain_gap(cursor, seen@),
                self@.chain_height(*hash, Set::empty()) == match self@.chain_height(cursor, seen@) {
                    Some(rest) => Some((rest + height) as nat),
                    None => None,
                },
            decreases self@.blocks.dom().difference(seen@).len(),
        {
            proof {
                self@.lemma_shrinks(seen@, cursor);
                vstd::set_lib::lemma_len_subset(seen@, self@.blocks.dom());
            }
            match self.blocks.get(&cursor) {
                None => {
                    missing.insert(Pair(epoch, cursor));
                    proof {
                        assert(missing@ =~= old(missing)@.union(asked_in(epoch, set![cursor])));
                    }
                    return None;
                },
                Some(block) => {
                    if let Some(saved) = block.height {
                        proof {
                            assert(missing@ =~= old(missing)@.union(asked_in(epoch, Set::empty())));
                        }
                        return Some(height + saved);
                    }
                    proof {
                        vstd::set_lib::lemma_len_subset(seen@.insert(cursor), self@.blocks.dom());
                    }
                    seen.insert(cursor);
                    height = height + 1;
                    cursor = block.previous;
                },
            }
        }
        proof {
            assert(missing@ =~= old(missing)@.union(asked_in(epoch, Set::empty())));
        }
        Some(height)
    }

    fn fits(&self, selected: &SortedMap<SlotRoot, BlockHash>, members: &SortedMap<SlotRoot, BlockHash>) -> (r: bool)
        ensures
            r == self@.fits(selected@, members@),
    {
        let count: usize = members.len();
        for i in 0..count
            invariant
                count == members@.len(),
                count == ascending(members@.dom()).len(),
                forall|j: int|
                    0 <= j < i ==> {
                        let slot = #[trigger] ascending(members@.dom())[j];
                        &&& selected@.contains_key(slot) ==> selected@[slot] == members@[slot]
                        &&& self@.certified.contains_key(slot) ==> self@.certified[slot] == members@[slot]
                    },
        {
            let slot = members.key_at(i);
            let hash = *members.value_at(i);
            if let Some(other) = selected.get(&slot) {
                if *other != hash {
                    return false;
                }
            }
            if let Some(other) = self.certified.get(&slot) {
                if *other != hash {
                    return false;
                }
            }
        }
        proof {
            lemma_ascending(members@.dom());
            let q = ascending(members@.dom());
            assert forall|slot: SlotRoot| #[trigger] members@.contains_key(slot) implies {
                &&& selected@.contains_key(slot) ==> selected@[slot] == members@[slot]
                &&& self@.certified.contains_key(slot) ==> self@.certified[slot] == members@[slot]
            } by {
                assert(q.contains(slot));
                let j = choose|j: int| 0 <= j < q.len() && q[j] == slot;
                assert(q[j] == slot);
            }
        }
        true
    }

    /// Ranks the candidates by height in the account chain, then by hash, and
    /// takes each with all that it depends on, the highest first, unless it
    /// contradicts what is taken already. `None` if what is known does not tell.
    pub fn select_compatible_candidates(
        &self,
        epoch: u64,
        selected: SortedMap<SlotRoot, BlockHash>,
        candidates: &Vec<BlockHash>,
        missing: &mut SortedSet<Pair<u64, BlockHash>>,
    ) -> (r: Option<SortedMap<SlotRoot, BlockHash>>)
        requires
            self@.heights_fit(),
        ensures
            match r {
                Some(chosen) => self@.selection(epoch, selected@, candidates@) == Some(chosen@),
                None => self@.selection(epoch, selected@, candidates@) is None,
            },
            final(missing)@ == old(missing)@.union(asked_in(epoch, self@.asked_for_all(epoch, candidates@))),
    {
        proof {
            assert(missing@ =~= old(missing)@.union(asked_in(epoch, self@.asked_for_all(epoch, candidates@.take(0)))));
        }
        let mut ranked: SortedMap<Rank, SortedMap<SlotRoot, BlockHash>> = SortedMap::new();
        for i in 0..candidates.len()
            invariant
                self@.heights_fit(),
                missing@ == old(missing)@.union(asked_in(epoch, self@.asked_for_all(epoch, candidates@.take(i as int)))),
                forall|j: int| 0 <= j < i ==> !self@.is_open(epoch, #[trigger] candidates@[j]),
                forall|k: Rank| #[trigger]
                    ranked@.contains_key(k) == (self@.is_eligible(epoch, k.hash) && self@.chain_height(
                        k.hash,
                        Set::empty(),
                    ) == Some(k.height as nat) && exists|j: int| 0 <= j < i && candidates@[j] == k.hash),
                forall|k: Rank| #[trigger]
                    ranked@.contains_key(k) ==> self@.load(epoch, k.hash) == Closure::Complete(ranked@[k]),
        {
            let hash = candidates[i];
            let ghost before = ranked@;
            let ghost asked = missing@;
            let ghost own = self@.asked_for(epoch, hash);
            proof {
                assert(candidates@[i as int] == hash);
                self@.lemma_asked_for_all(epoch, candidates@, i as int);
                lemma_asked_union(old(missing)@, epoch, self@.asked_for_all(epoch, candidates@.take(i as int)), own);
            }
            if !self.blocks.contains_key(&hash) {
                missing.insert(Pair(epoch, hash));
                proof {
                    assert(self@.is_open(epoch, candidates@[i as int]));
                    assert(missing@ =~= asked.union(asked_in(epoch, set![hash])));
                    self@.lemma_asked_stays(epoch, candidates@, i + 1);
                }
                return None;
            }
            let mut single: Vec<BlockHash> = Vec::new();
            single.push(hash);
            proof {
                assert(single@ =~= seq![hash]);
                self@.lemma_closed_settles(epoch, seq![hash]);
                self@.lemma_complete_lacks_nothing(epoch, hash);
            }
            match self.checked_dependency_closure(epoch, &single, missing) {
                Ok(closure) => {
                    match self.account_height(epoch, &hash, missing) {
                        None => {
                            proof {
                                assert(self@.is_open(epoch, candidates@[i as int]));
                                assert(missing@ =~= asked.union(asked_in(epoch, own)));
                                self@.lemma_asked_stays(epoch, candidates@, i + 1);
                            }
                            return None;
                        },
                        Some(height) => {
                            ranked.insert(Rank { height, hash }, closure);
                            proof {
                                assert(missing@ =~= asked.union(asked_in(epoch, own)));
                                assert forall|k: Rank| #[trigger]
                                    ranked@.contains_key(k) == (self@.is_eligible(epoch, k.hash) && self@.chain_height(
                                        k.hash,
                                        Set::empty(),
                                    ) == Some(k.height as nat) && exists|j: int|
                                        0 <= j < i + 1 && candidates@[j] == k.hash) by {
                                    if k == (Rank { height, hash }) {
                                        assert(candidates@[i as int] == k.hash);
                                    } else {
                                        assert(ranked@.contains_key(k) == before.contains_key(k));
                                    }
                                }
                            }
                        },
                    }
                },
                Err(ClosureError::MissingDependency) => {
                    proof {
                        assert(missing@ =~= asked.union(asked_in(epoch, own)));
                        assert(self@.is_open(epoch, candidates@[i as int]));
                        self@.lemma_asked_stays(epoch, candidates@, i + 1);
                    }
                    return None;
                },
                Err(_) => {},
            }
        }
        proof {
            assert(candidates@.take(candidates@.len() as int) =~= candidates@);
        }
        let ghost order = ascending(self@.ranks(epoch, candidates@));
        proof {
            assert forall|k: Rank| ranked@.dom().contains(k) == self@.ranks(epoch, candidates@).contains(k) by {
                assert(ranked@.contains_key(k) == ranked@.dom().contains(k));
            }
            assert(ranked@.dom() =~= self@.ranks(epoch, candidates@));
            lemma_ascending(ranked@.dom());
        }
        let ghost start = selected@;
        let mut chosen = selected;
        let mut left: usize = ranked.len();
        proof {
            assert(order.take(left as int) =~= order);
        }
        while left > 0
            invariant
                left <= ranked@.len(),
                order == ascending(ranked@.dom()),
                order.len() == ranked@.len(),
                forall|k: Rank| #[trigger]
                    ranked@.contains_key(k) ==> self@.load(epoch, k.hash) == Closure::Complete(ranked@[k]),
                self@.chosen(epoch, order, start) == self@.chosen(epoch, order.take(left as int), chosen@),
            decreases left,
        {
            left = left - 1;
            let closure = ranked.value_at(left);
            let ghost mid = chosen@;
            proof {
                assert(order.take(left + 1).drop_last() =~= order.take(left as int));
                assert(ranked@.contains_key(order[left as int]));
            }
            if self.fits(&chosen, closure) {
                merge(&mut chosen, closure);
            }
            proof {
                assert(chosen@ == self@.taken(epoch, mid, order[left as int].hash));
            }
        }
        Some(chosen)
    }

    /// The slots of the ledger blocks that are among `start` or that they depend on.
    pub fn ancestor_slots(&self, start: &Vec<BlockHash>) -> (r: SortedSet<SlotRoot>)
        ensures
            r@ == self@.ancestor_slots(start@.to_set()),
    {
        let ghost roots = start@.to_set();
        let mut pending: Vec<BlockHash> = copy_all(start);
        let mut seen: SortedSet<BlockHash> = SortedSet::new();
        let mut slots: SortedSet<SlotRoot> = SortedSet::new();
        proof {
            assert forall|h: BlockHash| #[trigger] pending@.contains(h) implies exists|n: nat|
                (#[trigger] self@.below(roots, n)).contains(h) by {
                assert(self@.below(roots, 0).contains(h));
            }
        }
        while pending.len() > 0
            invariant
                self@.blocks.dom().finite(),
                forall|h: BlockHash| #[trigger]
                    pending@.contains(h) ==> exists|n: nat| (#[trigger] self@.below(roots, n)).contains(h),
                forall|h: BlockHash| #[trigger] seen@.contains(h) ==> self@.is_ancestor(roots, h),
                forall|h: BlockHash| #[trigger]
                    roots.contains(h) ==> seen@.contains(h) || pending@.contains(h) || !self@.is_saved(h),
                forall|p: BlockHash, h: BlockHash|
                    #![trigger seen@.contains(p), self@.listed(p).contains(h)]
                    seen@.contains(p) && self@.listed(p).contains(h) ==> seen@.contains(h) || pending@.contains(h)
                        || !self@.is_saved(h),
                forall|h: BlockHash| #[trigger] seen@.contains(h) ==> slots@.contains(self@.blocks[h].slot),
                forall|slot: SlotRoot| #[trigger]
                    slots@.contains(slot) ==> exists|h: BlockHash| #[trigger]
                        seen@.contains(h) && self@.blocks[h].slot == slot,
            decreases pending@.len() + 2 * self@.blocks.dom().difference(seen@).len(),
        {
            let ghost before = pending@;
            let ghost visited = seen@;
            let ghost had = slots@;
            let ghost hash0 = pending@.last();
            proof {
                self@.lemma_shrinks(seen@, pending@.last());
                assert(before.contains(hash0));
            }
            let hash = match pending.pop() {
                Some(hash) => hash,
                None => BlockHash::zero(),
            };
            let ghost rest = pending@;
            proof {
                assert forall|h: BlockHash| before.contains(h) implies h == hash || rest.contains(h) by {
                    let i = choose|i: int| 0 <= i < before.len() && before[i] == h;
                    if i < rest.len() {
                        assert(rest[i] == h);
                    }
                }
                assert forall|h: BlockHash| rest.contains(h) implies before.contains(h) by {
                    let i = choose|i: int| 0 <= i < rest.len() && rest[i] == h;
                    assert(before[i] == h);
                }
            }
            if hash.is_zero() || seen.contains(&hash) {
                continue;
            }
            let block = match self.blocks.get(&hash) {
                Some(block) => block,
                None => {
                    continue;
                },
            };
            if block.height.is_none() {
                continue;
            }
            seen.insert(hash);
            slots.insert(block.slot);
            proof {
                assert(self@.is_ancestor(roots, hash));
            }
            if let Dependencies::Listed { first, second } = block.dependencies {
                pending.push(first);
                pending.push(second);
                proof {
                    assert(self@.listed(hash)[0] == first);
                    assert(self@.listed(hash)[1] == second);
                    assert(self@.listed(hash).contains(first));
                    assert(self@.listed(hash).contains(second));
                    self@.lemma_below_next(roots, hash, first);
                    self@.lemma_below_next(roots, hash, second);
                }
            }
            proof {
                let more = self@.listed(hash);
                assert(pending@ =~= rest + more);
                assert forall|h: BlockHash| #[trigger] pending@.contains(h) implies rest.contains(h) || more.contains(h) by {
                    let i = choose|i: int| 0 <= i < pending@.len() && pending@[i] == h;
                    if i < rest.len() {
                        assert(rest[i] == h);
                    } else {
                        assert(more[i - rest.len()] == h);
                    }
                }
                assert forall|h: BlockHash| rest.contains(h) || more.contains(h) implies #[trigger] pending@.contains(
                    h,
                ) by {
                    if rest.contains(h) {
                        let i = choose|i: int| 0 <= i < rest.len() && rest[i] == h;
                        assert(pending@[i] == h);
                    } else {
                        let i = choose|i: int| 0 <= i < more.len() && more[i] == h;
                        assert(pending@[rest.len() + i] == h);
                    }
                }
                assert forall|slot: SlotRoot| #[trigger] slots@.contains(slot) implies exists|h: BlockHash| #[trigger]
                    seen@.contains(h) && self@.blocks[h].slot == slot by {
                    if had.contains(slot) {
                        let h = choose|h: BlockHash| #[trigger] visited.contains(h) && self@.blocks[h].slot == slot;
                        assert(seen@.contains(h));
                    } else {
                        assert(seen@.contains(hash));
                    }
                }
            }
        }
        proof {
            let all = Set::new(|h: BlockHash| seen@.contains(h) || !self@.is_saved(h));
            assert forall|h: BlockHash| #[trigger] self@.is_ancestor(roots, h) implies seen@.contains(h) by {
                let n = choose|n: nat| (#[trigger] self@.below(roots, n)).contains(h);
                assert(roots.subset_of(all));
                assert forall|p: BlockHash, q: BlockHash|
                    #![trigger all.contains(p), self@.listed(p).contains(q)]
                    all.contains(p) && self@.is_saved(p) && self@.listed(p).contains(q) implies all.contains(q) by {
                    assert(seen@.contains(p));
                }
                self@.lemma_below_closed(roots, all, n, h);
            }
            assert(slots@ =~= self@.ancestor_slots(roots));
        }
        slots
    }
}

proof fn lemma_asked_union(base: Set<Pair<u64, BlockHash>>, epoch: u64, a: Set<BlockHash>, b: Set<BlockHash>)
    ensures
        base.union(asked_in(epoch, a)).union(asked_in(epoch, b)) == base.union(asked_in(epoch, a.union(b))),
{
    assert(base.union(asked_in(epoch, a)).union(asked_in(epoch, b)) =~= base.union(asked_in(epoch, a.union(b))));
}

/// Adds all bindings of `more`.
pub fn merge(into: &mut SortedMap<SlotRoot, BlockHash>, more: &SortedMap<SlotRoot, BlockHash>)
    ensures
        final(into)@ == old(into)@.union_prefer_right(more@),
{
    let count: usize = more.len();
    let ghost q = ascending(more@.dom());
    proof {
        lemma_ascending(more@.dom());
    }
    for i in 0..count
        invariant
            count == more@.len(),
            q == ascending(more@.dom()),
            q.len() == count,
            into@.dom() == old(into)@.dom().union(q.take(i as int).to_set()),
            forall|slot: SlotRoot| #[trigger]
                into@.contains_key(slot) ==> into@[slot] == if q.take(i as int).contains(slot) {
                    more@[slot]
                } else {
                    old(into)@[slot]
                },
    {
        let slot = more.key_at(i);
        let hash = *more.value_at(i);
        let ghost before = into@;
        into.insert(slot, hash);
        proof {
            crate::ordered::lemma_take_set(q, i as int);
            assert(q.take(i + 1).contains(slot)) by {
                assert(q.take(i + 1)[i as int] == slot);
            }
            assert forall|k: SlotRoot| #[trigger] into@.contains_key(k) implies into@[k] == if q.take(i + 1).contains(k) {
                more@[k]
            } else {
                old(into)@[k]
            } by {
                assert(q.take(i + 1).to_set().contains(k) == (q.take(i as int).to_set().contains(k) || k == slot));
                if k != slot {
                    assert(before.contains_key(k));
                }
            }
            assert(into@.dom() =~= old(into)@.dom().union(q.take(i + 1).to_set()));
        }
    }
    proof {
        assert(q.take(count as int) =~= q);
        assert forall|slot: SlotRoot| q.contains(slot) == #[trigger] more@.contains_key(slot) by {
            assert(q.to_set().contains(slot) == more@.dom().contains(slot));
        }
        assert(into@ =~= old(into)@.union_prefer_right(more@));
    }
}

/// The selection does not hang on the order in which the candidates come.
pub proof fn selection_ignores_order(
    g: Graph,
    epoch: u64,
    finalized: Map<SlotRoot, BlockHash>,
    a: Seq<BlockHash>,
    b: Seq<BlockHash>,
)
    requires
        a.to_set() == b.to_set(),
    ensures
        g.selection(epoch, finalized, a) == g.selection(epoch, finalized, b),
{
    assert forall|h: BlockHash| a.contains(h) == b.contains(h) by {
        assert(a.to_set().contains(h) == a.contains(h));
        assert(b.to_set().contains(h) == b.contains(h));
    }
    assert(g.ranks(epoch, a) =~= g.ranks(epoch, b));
    if g.is_undecided(epoch, a) {
        let i = choose|i: int| 0 <= i < a.len() && g.is_open(epoch, #[trigger] a[i]);
        assert(a.contains(a[i]));
        assert(b.contains(a[i]));
        let j = choose|j: int| 0 <= j < b.len() && b[j] == a[i];
        assert(g.is_open(epoch, b[j]));
    }
    if g.is_undecided(epoch, b) {
        let i = choose|i: int| 0 <= i < b.len() && g.is_open(epoch, #[trigger] b[i]);
        assert(b.contains(b[i]));
        assert(a.contains(b[i]));
        let j = choose|j: int| 0 <= j < a.len() && a[j] == b[i];
        assert(g.is_open(epoch, a[j]));
    }
}

proof fn lemma_chosen_keeps(g: Graph, epoch: u64, order: Seq<Rank>, selected: Map<SlotRoot, BlockHash>, slot: SlotRoot)
    requires
        selected.contains_key(slot),
    ensures
        g.chosen(epoch, order, selected).contains_key(slot),
        g.chosen(epoch, order, selected)[slot] == selected[slot],
    decreases order.len(),
{
    if order.len() > 0 {
        lemma_chosen_keeps(g, epoch, order.drop_last(), g.taken(epoch, selected, order.last().hash), slot);
    }
}

/// What is finalized stays in the selection: no candidate replaces it.
pub proof fn selection_keeps_what_is_finalized(
    g: Graph,
    epoch: u64,
    finalized: Map<SlotRoot, BlockHash>,
    candidates: Seq<BlockHash>,
    slot: SlotRoot,
)
    requires
        finalized.contains_key(slot),
        g.selection(epoch, finalized, candidates) is Some,
    ensures
        g.selection(epoch, finalized, candidates)->0.contains_key(slot),
        g.selection(epoch, finalized, candidates)->0[slot] == finalized[slot],
{
    lemma_chosen_keeps(g, epoch, ascending(g.ranks(epoch, candidates)), finalized, slot);
}

impl Graph {
    /// The blocks contradict no finalized one.
    pub open spec fn keeps_winners(self, members: Map<SlotRoot, BlockHash>) -> bool {
        forall|slot: SlotRoot| #[trigger]
            members.contains_key(slot) && self.winner(slot) is Some ==> self.winner(slot) == Some(members[slot])
    }
}

proof fn lemma_chosen_keeps_winners(g: Graph, epoch: u64, order: Seq<Rank>, selected: Map<SlotRoot, BlockHash>)
    requires
        g.blocks.dom().finite(),
        g.keeps_winners(selected),
        forall|i: int| 0 <= i < order.len() ==> g.is_eligible(epoch, (#[trigger] order[i]).hash),
    ensures
        g.keeps_winners(g.chosen(epoch, order, selected)),
    decreases order.len(),
{
    if order.len() > 0 {
        let last = order[order.len() - 1];
        let next = g.taken(epoch, selected, last.hash);
        let members = g.load(epoch, last.hash)->Complete_0;
        assert(g.is_eligible(epoch, last.hash));
        assert(g.keeps_winners(next)) by {
            assert forall|slot: SlotRoot| #[trigger] next.contains_key(slot) && g.winner(slot) is Some implies g.winner(
                slot,
            ) == Some(next[slot]) by {
                if g.fits(selected, members) && members.contains_key(slot) {
                    closure_keeps_finalized_blocks(g, epoch, seq![last.hash], slot);
                } else {
                    assert(selected.contains_key(slot));
                }
            }
        }
        let less = order.drop_last();
        assert forall|i: int| 0 <= i < less.len() implies g.is_eligible(epoch, (#[trigger] less[i]).hash) by {
            assert(less[i] == order[i]);
        }
        lemma_chosen_keeps_winners(g, epoch, less, next);
    }
}

proof fn lemma_ranks_finite(g: Graph, epoch: u64, candidates: Seq<BlockHash>)
    ensures
        g.ranks(epoch, candidates).finite(),
{
    let place = |h: BlockHash| Rank { height: g.chain_height(h, Set::empty())->0 as u64, hash: h };
    vstd::seq_lib::seq_to_set_is_finite(candidates);
    let all = candidates.to_set();
    all.lemma_map_finite(place);
    assert forall|r: Rank| g.ranks(epoch, candidates).contains(r) implies all.map(place).contains(r) by {
        assert(all.contains(r.hash) && place(r.hash) == r);
    }
    vstd::set_lib::lemma_set_subset_finite(all.map(place), g.ranks(epoch, candidates));
}

/// A selection on top of finalized blocks contradicts no finalized block, be it
/// the winner of an election or cemented in the ledger.
pub proof fn selection_contradicts_no_winner(
    g: Graph,
    epoch: u64,
    finalized: Map<SlotRoot, BlockHash>,
    candidates: Seq<BlockHash>,
    slot: SlotRoot,
)
    requires
        g.blocks.dom().finite(),
        g.keeps_winners(finalized),
        g.selection(epoch, finalized, candidates) is Some,
        g.selection(epoch, finalized, candidates)->0.contains_key(slot),
        g.winner(slot) is Some,
    ensures
        g.selection(epoch, finalized, candidates)->0[slot] == g.winner(slot)->0,
{
    let ranks = g.ranks(epoch, candidates);
    let order = ascending(ranks);
    lemma_ranks_finite(g, epoch, candidates);
    lemma_ascending(ranks);
    assert forall|i: int| 0 <= i < order.len() implies g.is_eligible(epoch, (#[trigger] order[i]).hash) by {
        assert(order.to_set().contains(order[i]));
        assert(ranks.contains(order[i]));
    }
    lemma_chosen_keeps_winners(g, epoch, order, finalized);
}

impl Rank {
    /// The candidate is considered before the other one.
    pub open spec fn outranks(self, other: Rank) -> bool {
        self.height > other.height || (self.height == other.height && self.hash.rank() > other.hash.rank())
    }
}

/// Of two places the one that is considered first is the greater one.
proof fn lemma_outranks(a: Rank, b: Rank)
    ensures
        a.outranks(b) == (a.rank() > b.rank()),
{
    let span = BlockHash::span();
    a.hash.rank_in_span();
    b.hash.rank_in_span();
    let (x, y) = (a.height as int, b.height as int);
    if x > y {
        assert(x * span >= y * span + span) by (nonlinear_arith)
            requires
                x >= y + 1,
                span >= 0,
        ;
    } else if x < y {
        assert(y * span >= x * span + span) by (nonlinear_arith)
            requires
                y >= x + 1,
                span >= 0,
        ;
    }
}

/// The two agree on every slot that both have.
pub open spec fn agree(a: Map<SlotRoot, BlockHash>, b: Map<SlotRoot, BlockHash>) -> bool {
    forall|slot: SlotRoot| #[trigger] a.contains_key(slot) && b.contains_key(slot) ==> a[slot] == b[slot]
}

impl Graph {
    /// The blocks that an eligible candidate carries.
    pub open spec fn carried(self, epoch: u64, candidate: Rank) -> Map<SlotRoot, BlockHash> {
        self.load(epoch, candidate.hash)->Complete_0
    }
}

proof fn lemma_chosen_takes(g: Graph, epoch: u64, order: Seq<Rank>, selected: Map<SlotRoot, BlockHash>, k: int, slot: SlotRoot)
    requires
        0 <= k < order.len(),
        g.fits(selected, g.carried(epoch, order[k])),
        forall|j: int|
            k < j < order.len() ==> agree(g.carried(epoch, #[trigger] order[j]), g.carried(epoch, order[k])),
        g.carried(epoch, order[k]).contains_key(slot),
    ensures
        g.chosen(epoch, order, selected).contains_key(slot),
        g.chosen(epoch, order, selected)[slot] == g.carried(epoch, order[k])[slot],
    decreases order.len(),
{
    let last = order.last();
    let next = g.taken(epoch, selected, last.hash);
    if k == order.len() - 1 {
        lemma_chosen_keeps(g, epoch, order.drop_last(), next, slot);
    } else {
        let less = order.drop_last();
        let members = g.carried(epoch, order[k]);
        let others = g.carried(epoch, last);
        assert(last == order[order.len() - 1]);
        assert(agree(others, members));
        assert forall|s: SlotRoot| #[trigger] members.contains_key(s) implies (next.contains_key(s) ==> next[s]
            == members[s]) by {
            if next.contains_key(s) && others.contains_key(s) {
                assert(others[s] == members[s]);
            }
        }
        assert(g.fits(next, members));
        assert(less[k] == order[k]);
        assert forall|j: int| k < j < less.len() implies agree(
            g.carried(epoch, #[trigger] less[j]),
            g.carried(epoch, less[k]),
        ) by {
            assert(less[j] == order[j]);
        }
        lemma_chosen_takes(g, epoch, less, next, k, slot);
    }
}

/// The greatest of rivals wins, with all that it carries: an eligible candidate
/// that contradicts nothing finalized and no candidate that outranks it is in
/// the selection with its whole closure, and of a rival that it contradicts the
/// contested block is not.
pub proof fn greatest_rival_wins(
    g: Graph,
    epoch: u64,
    finalized: Map<SlotRoot, BlockHash>,
    candidates: Seq<BlockHash>,
    winner: Rank,
    slot: SlotRoot,
)
    requires
        g.selection(epoch, finalized, candidates) is Some,
        g.ranks(epoch, candidates).contains(winner),
        g.fits(finalized, g.carried(epoch, winner)),
        forall|other: Rank| #[trigger]
            g.ranks(epoch, candidates).contains(other) && other.outranks(winner) ==> agree(
                g.carried(epoch, other),
                g.carried(epoch, winner),
            ),
        g.carried(epoch, winner).contains_key(slot),
    ensures
        g.selection(epoch, finalized, candidates)->0.contains_key(slot),
        g.selection(epoch, finalized, candidates)->0[slot] == g.carried(epoch, winner)[slot],
        forall|rival: Rank|
            g.carried(epoch, rival)[slot] != g.carried(epoch, winner)[slot] ==> #[trigger] g.carried(epoch, rival)[slot]
                != g.selection(epoch, finalized, candidates)->0[slot],
{
    let ranks = g.ranks(epoch, candidates);
    let order = ascending(ranks);
    lemma_ranks_finite(g, epoch, candidates);
    lemma_ascending(ranks);
    assert(order.to_set().contains(winner));
    let k = choose|k: int| 0 <= k < order.len() && order[k] == winner;
    assert forall|j: int| k < j < order.len() implies agree(
        g.carried(epoch, #[trigger] order[j]),
        g.carried(epoch, order[k]),
    ) by {
        assert(order[k].rank() < order[j].rank());
        lemma_outranks(order[j], order[k]);
        assert(order.to_set().contains(order[j]));
        assert(ranks.contains(order[j]));
    }
    lemma_chosen_takes(g, epoch, order, finalized, k, slot);
}

proof fn lemma_gap_is_unknown(g: Graph, cursor: BlockHash, passed: Set<BlockHash>, hash: BlockHash)
    requires
        g.blocks.dom().finite(),
        g.chain_gap(cursor, passed).contains(hash),
    ensures
        !g.blocks.contains_key(hash),
    decreases g.blocks.dom().difference(passed).len(),
{
    if cursor != no_hash() && !passed.contains(cursor) && g.blocks.contains_key(cursor) {
        g.lemma_shrinks(passed, cursor);
        lemma_gap_is_unknown(g, g.blocks[cursor].previous, passed.insert(cursor), hash);
    }
}

/// Only blocks that are unknown, or whose balance is, are asked for.
pub proof fn only_unknown_blocks_are_asked_for(g: Graph, epoch: u64, candidates: Seq<BlockHash>, hash: BlockHash)
    requires
        g.blocks.dom().finite(),
        g.asked_for_all(epoch, candidates).contains(hash),
    ensures
        g.balance(hash) is None,
    decreases candidates.len(),
{
    if candidates.len() > 0 {
        if g.asked_for_all(epoch, candidates.drop_last()).contains(hash) {
            only_unknown_blocks_are_asked_for(g, epoch, candidates.drop_last(), hash);
        } else {
            let last = candidates.last();
            if g.blocks.contains_key(last) {
                if g.load(epoch, last) is Complete {
                    lemma_gap_is_unknown(g, last, Set::empty(), hash);
                } else {
                    g.lemma_closed_settles(epoch, seq![last]);
                    assert(g.lacks(epoch, seq![last].to_set(), hash));
                }
            }
        }
    }
}

proof fn lemma_unknown_height_has_a_gap(g: Graph, cursor: BlockHash, passed: Set<BlockHash>)
    requires
        g.blocks.dom().finite(),
        g.chain_height(cursor, passed) is None,
    ensures
        exists|h: BlockHash| g.chain_gap(cursor, passed).contains(h),
    decreases g.blocks.dom().difference(passed).len(),
{
    if !g.blocks.contains_key(cursor) {
        assert(g.chain_gap(cursor, passed).contains(cursor));
    } else {
        g.lemma_shrinks(passed, cursor);
        let rest = g.chain_gap(g.blocks[cursor].previous, passed.insert(cursor));
        lemma_unknown_height_has_a_gap(g, g.blocks[cursor].previous, passed.insert(cursor));
        let h = choose|h: BlockHash| rest.contains(h);
        assert(g.chain_gap(cursor, passed).contains(h));
    }
}

/// Where a candidate cannot be judged, some block is asked for on its account.
pub proof fn an_open_candidate_asks_for_a_block(g: Graph, epoch: u64, hash: BlockHash)
    requires
        g.blocks.dom().finite(),
        g.is_open(epoch, hash),
    ensures
        exists|h: BlockHash| g.asked_for(epoch, hash).contains(h),
{
    if !g.blocks.contains_key(hash) {
        assert(g.asked_for(epoch, hash).contains(hash));
    } else if g.load(epoch, hash) is Complete {
        lemma_unknown_height_has_a_gap(g, hash, Set::empty());
        let h = choose|h: BlockHash| g.chain_gap(hash, Set::empty()).contains(h);
        assert(g.asked_for(epoch, hash).contains(h));
    } else {
        g.lemma_closed_settles(epoch, seq![hash]);
        let missing = g.closed(epoch, seq![hash]).missing;
        if forall|h: BlockHash| !missing.contains(h) {
            assert(missing =~= Set::empty());
        }
        let h = choose|h: BlockHash| missing.contains(h);
        assert(g.asked_for(epoch, hash).contains(h));
    }
}

proof fn lemma_chain_height(g: Graph, chain: Seq<BlockHash>, base: nat, passed: Set<BlockHash>)
    requires
        g.blocks.dom().finite(),
        chain.len() > 0,
        chain.no_duplicates(),
        forall|i: int| 0 <= i < chain.len() ==> !passed.contains(#[trigger] chain[i]),
        forall|i: int|
            0 <= i < chain.len() - 1 ==> {
                &&& #[trigger] chain[i] != no_hash()
                &&& g.blocks.contains_key(chain[i])
                &&& g.blocks[chain[i]].height is None
                &&& g.blocks[chain[i]].previous == chain[i + 1]
            },
        (chain.last() == no_hash() && base == 0) || (chain.last() != no_hash() && g.blocks.contains_key(chain.last())
            && g.blocks[chain.last()].height == Some(base as u64) && base <= u64::MAX),
    ensures
        g.chain_height(chain[0], passed) == Some((base + chain.len() - 1) as nat),
    decreases chain.len(),
{
    if chain.len() > 1 {
        let rest = chain.drop_first();
        let more = passed.insert(chain[0]);
        assert forall|i: int| 0 <= i < rest.len() implies !more.contains(#[trigger] rest[i]) by {
            assert(rest[i] == chain[i + 1]);
            assert(chain[0] != chain[i + 1]);
        }
        assert forall|i: int| 0 <= i < rest.len() - 1 implies {
            &&& #[trigger] rest[i] != no_hash()
            &&& g.blocks.contains_key(rest[i])
            &&& g.blocks[rest[i]].height is None
            &&& g.blocks[rest[i]].previous == rest[i + 1]
        } by {
            assert(rest[i] == chain[i + 1]);
        }
        assert(rest.no_duplicates()) by {
            assert forall|i: int, j: int| 0 <= i < rest.len() && 0 <= j < rest.len() && i != j implies rest[i] != rest[j] by {
                assert(chain[i + 1] != chain[j + 1]);
            }
        }
        assert(rest.last() == chain.last());
        lemma_chain_height(g, rest, base, more);
        assert(chain[0] != no_hash());
    }
}

/// A block's height counts the blocks from it down to one whose height the ledger
/// knows, on top of that height, or down to the beginning of the account.
pub proof fn height_counts_the_chain(g: Graph, chain: Seq<BlockHash>, base: nat)
    requires
        g.blocks.dom().finite(),
        chain.len() > 0,
        chain.no_duplicates(),
        forall|i: int|
            0 <= i < chain.len() - 1 ==> {
                &&& #[trigger] chain[i] != (BlockHash { hi: 0, lo: 0 })
                &&& g.blocks.contains_key(chain[i])
                &&& g.blocks[chain[i]].height is None
                &&& g.blocks[chain[i]].previous == chain[i + 1]
            },
        (chain.last() == (BlockHash { hi: 0, lo: 0 }) && base == 0) || (chain.last() != (BlockHash { hi: 0, lo: 0 })
            && g.blocks.contains_key(chain.last()) && g.blocks[chain.last()].height == Some(base as u64) && base
            <= u64::MAX),
    ensures
        g.chain_height(chain[0], Set::empty()) == Some((base + chain.len() - 1) as nat),
{
    lemma_chain_height(g, chain, base, Set::empty());
}

/// Where the chain breaks off at a block that is not at hand, the height is not known.
pub proof fn broken_chain_has_no_height(g: Graph, hash: BlockHash)
    requires
        g.blocks.dom().finite(),
        g.blocks.contains_key(hash),
        hash != (BlockHash { hi: 0, lo: 0 }),
        g.blocks[hash].height is None,
        g.blocks[hash].previous != (BlockHash { hi: 0, lo: 0 }),
        !g.blocks.contains_key(g.blocks[hash].previous),
    ensures
        g.chain_height(hash, Set::empty()) is None,
        g.chain_gap(hash, Set::empty()) == set![g.blocks[hash].previous],
{
    reveal_with_fuel(Graph::chain_height, 2);
    reveal_with_fuel(Graph::chain_gap, 2);
}

proof fn lemma_chosen_whole(g: Graph, epoch: u64, order: Seq<Rank>, selected: Map<SlotRoot, BlockHash>, slot: SlotRoot)
    requires
        g.chosen(epoch, order, selected).contains_key(slot),
        !selected.contains_key(slot),
    ensures
        exists|i: int|
            0 <= i < order.len() && is_taken_whole(
                g.carried(epoch, #[trigger] order[i]),
                g.chosen(epoch, order, selected),
                slot,
            ),
    decreases order.len(),
{
    if order.len() > 0 {
        let front = order.drop_last();
        let next = g.taken(epoch, selected, order.last().hash);
        let end = g.chosen(epoch, order, selected);
        let members = g.carried(epoch, order.last());
        if next.contains_key(slot) {
            assert forall|s: SlotRoot| #[trigger] members.contains_key(s) implies end.contains_key(s) && end[s] == members[s] by {
                lemma_chosen_keeps(g, epoch, front, next, s);
            }
            lemma_chosen_keeps(g, epoch, front, next, slot);
            assert(is_taken_whole(g.carried(epoch, order[order.len() - 1]), end, slot));
        } else {
            lemma_chosen_whole(g, epoch, front, next, slot);
            let i = choose|i: int|
                0 <= i < front.len() && is_taken_whole(
                    g.carried(epoch, #[trigger] front[i]),
                    g.chosen(epoch, front, next),
                    slot,
                );
            assert(order[i] == front[i]);
        }
    }
}

/// The slot is selected with this closure, of which nothing is left out.
pub open spec fn is_taken_whole(members: Map<SlotRoot, BlockHash>, selected: Map<SlotRoot, BlockHash>, slot: SlotRoot) -> bool {
    &&& members.contains_key(slot)
    &&& forall|s: SlotRoot| #[trigger] members.contains_key(s) ==> selected.contains_key(s) && selected[s] == members[s]
}

/// What is selected beyond the finalized blocks comes from a candidate whose closure is
/// complete and whose height is known, and is selected together with that whole closure.
pub proof fn candidates_are_taken_whole(
    g: Graph,
    epoch: u64,
    finalized: Map<SlotRoot, BlockHash>,
    candidates: Seq<BlockHash>,
    slot: SlotRoot,
)
    requires
        g.blocks.dom().finite(),
        g.selection(epoch, finalized, candidates) is Some,
        g.selection(epoch, finalized, candidates)->0.contains_key(slot),
        !finalized.contains_key(slot),
    ensures
        exists|hash: BlockHash| #[trigger]
            candidates.contains(hash) && g.blocks.contains_key(hash) && g.chain_height(hash, Set::empty()) is Some
                && (g.closed(epoch, seq![hash]).closure matches Closure::Complete(members) && is_taken_whole(
                members,
                g.selection(epoch, finalized, candidates)->0,
                slot,
            )),
{
    let ranks = g.ranks(epoch, candidates);
    let order = ascending(ranks);
    lemma_ranks_finite(g, epoch, candidates);
    lemma_ascending(ranks);
    lemma_chosen_whole(g, epoch, order, finalized, slot);
    let i = choose|i: int|
        0 <= i < order.len() && is_taken_whole(
            g.carried(epoch, #[trigger] order[i]),
            g.chosen(epoch, order, finalized),
            slot,
        );
    assert(ranks.contains(order[i]));
    assert(candidates.contains(order[i].hash));
}

/// A candidate that is not at hand, or whose closure lacks a block, leaves the
/// selection open; nothing is selected before all candidates can be judged.
pub proof fn selection_waits_for_every_candidate(
    g: Graph,
    epoch: u64,
    finalized: Map<SlotRoot, BlockHash>,
    candidates: Seq<BlockHash>,
    hash: BlockHash,
)
    requires
        candidates.contains(hash),
    ensures
        !g.blocks.contains_key(hash) || g.closed(epoch, seq![hash]).closure is MissingDependency ==> g.selection(
            epoch,
            finalized,
            candidates,
        ) is None,
        g.closed(epoch, seq![hash]).closure is Complete && g.chain_height(hash, Set::empty()) is None ==> g.selection(
            epoch,
            finalized,
            candidates,
        ) is None,
{
    let i = choose|i: int| 0 <= i < candidates.len() && candidates[i] == hash;
    assert(g.is_open(epoch, candidates[i]) || !g.is_open(epoch, hash));
}

/// The ledger has the block.
pub open spec fn in_ledger(g: Graph, hash: BlockHash) -> bool {
    hash != (BlockHash { hi: 0, lo: 0 }) && g.blocks.contains_key(hash) && g.blocks[hash].height is Some
}

/// The slots of ancestors are those of the blocks started from that the ledger has, and
/// with a block those of the blocks it lists and the ledger has.
pub proof fn ancestors_are_followed_down(
    g: Graph,
    start: Set<BlockHash>,
    hash: BlockHash,
    dependency: BlockHash,
)
    ensures
        start.contains(hash) && in_ledger(g, hash) ==> g.is_ancestor(start, hash) && g.ancestor_slots(start).contains(
            g.blocks[hash].slot,
        ),
        g.is_ancestor(start, hash) && (g.blocks[hash].dependencies matches Dependencies::Listed { first, second } && (dependency
            == first || dependency == second)) && in_ledger(g, dependency) ==> g.is_ancestor(start, dependency)
            && g.ancestor_slots(start).contains(g.blocks[dependency].slot),
        g.is_ancestor(start, hash) ==> in_ledger(g, hash),
{
    if start.contains(hash) && in_ledger(g, hash) {
        assert(g.below(start, 0).contains(hash));
        assert(g.is_ancestor(start, hash));
    }
    if g.is_ancestor(start, hash) && in_ledger(g, dependency) {
        if let Dependencies::Listed { first, second } = g.blocks[hash].dependencies {
            if dependency == first || dependency == second {
                assert(g.listed(hash)[0] == first && g.listed(hash)[1] == second);
                assert(g.listed(hash).contains(dependency));
                g.lemma_below_next(start, hash, dependency);
                assert(g.is_ancestor(start, dependency));
            }
        }
    }
}

/// No other slots are those of ancestors: every ancestor is in each set that holds the
/// blocks started from, and with a block of the ledger the blocks it lists.
pub proof fn ancestors_are_the_least(g: Graph, start: Set<BlockHash>, enough: Set<BlockHash>, slot: SlotRoot)
    requires
        start.subset_of(enough),
        forall|h: BlockHash| #[trigger]
            enough.contains(h) && in_ledger(g, h) ==> (g.blocks[h].dependencies matches Dependencies::Listed { first, second }
                ==> enough.contains(first) && enough.contains(second)),
        g.ancestor_slots(start).contains(slot),
    ensures
        exists|h: BlockHash| #[trigger] enough.contains(h) && in_ledger(g, h) && g.blocks[h].slot == slot,
{
    let h = choose|h: BlockHash| #[trigger] g.is_ancestor(start, h) && g.blocks[h].slot == slot;
    let n = choose|n: nat| (#[trigger] g.below(start, n)).contains(h);
    assert forall|p: BlockHash, x: BlockHash|
        #![trigger enough.contains(p), g.listed(p).contains(x)]
        enough.contains(p) && g.is_saved(p) && g.listed(p).contains(x) implies enough.contains(x) by {
        assert(in_ledger(g, p));
    }
    g.lemma_below_closed(start, enough, n, h);
}

}
