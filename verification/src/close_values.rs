//! The values that close elections decide about, and their hashes.
use vstd::prelude::*;

use crate::bytes::{
    be_bytes, lemma_be_bytes_injective, lemma_be_bytes_len, lemma_byte_spans, push_be, push_text, text_bytes,
};
use crate::digest::{blake2b_256, digest_hash};
use crate::ordered::{
    ascending, lemma_ascending, lemma_take_distinct, lemma_map_of_pairs, lemma_set_values_are_finite, map_of, pairs_of, sorted_map_is_finite,
    sorted_set_is_finite, Duplicate, SortedMap, SortedSet,
};
use crate::types::{BlockHash, RaiSlot};

verus! {

broadcast use {sorted_set_is_finite, sorted_map_is_finite};

/// Slots that a quorum has seen.
pub type VisibleSlots = SortedSet<RaiSlot>;

/// The state in which each slot of a cut was closed.
pub type CloseRecordEntries = SortedMap<RaiSlot, RaiClosedSlotState>;

/// How a slot ended in a closed epoch.
#[derive(Clone, Copy, Debug, PartialEq, Eq, Structural)]
pub enum RaiClosedSlotState {
    Finalized(BlockHash),
    Carry(BlockHash),
    Released,
}

impl DeepView for RaiClosedSlotState {
    type V = RaiClosedSlotState;

    open spec fn deep_view(&self) -> RaiClosedSlotState {
        *self
    }
}

impl Duplicate for RaiClosedSlotState {
    fn duplicate(&self) -> (r: Self) {
        *self
    }

    fn agrees(&self, other: &Self) -> (r: bool) {
        *self == *other
    }
}

/// The slots, one after the other.
pub open spec fn slots_bytes(slots: Seq<RaiSlot>) -> Seq<u8>
    decreases slots.len(),
{
    if slots.len() == 0 {
        Seq::empty()
    } else {
        slots_bytes(slots.drop_last()) + slots.last().bytes()
    }
}

/// The encoding that names a set of visible slots.
pub open spec fn visible_bytes(slots: Set<RaiSlot>) -> Seq<u8> {
    text_bytes("rai close value ") + be_bytes(slots.len(), 8) + slots_bytes(ascending(slots))
}

/// The hash that names a set of visible slots.
pub open spec fn visible_hash(slots: Set<RaiSlot>) -> BlockHash {
    BlockHash::of_bytes(blake2b_256(visible_bytes(slots)))
}

proof fn lemma_slots_bytes(a: Seq<RaiSlot>, b: Seq<RaiSlot>)
    requires
        a.len() == b.len(),
        slots_bytes(a) == slots_bytes(b),
    ensures
        a == b,
    decreases a.len(),
{
    if a.len() > 0 {
        let p = slots_bytes(a);
        let q = slots_bytes(b);
        RaiSlot::bytes_identify(a.last(), b.last());
        RaiSlot::bytes_identify(b.last(), a.last());
        let k = p.len() - 40;
        assert(p.subrange(0, k) =~= slots_bytes(a.drop_last()));
        assert(q.subrange(0, k) =~= slots_bytes(b.drop_last()));
        assert(p.subrange(k, p.len() as int) =~= a.last().bytes());
        assert(q.subrange(k, q.len() as int) =~= b.last().bytes());
        lemma_slots_bytes(a.drop_last(), b.drop_last());
        assert(a =~= a.drop_last().push(a.last()));
        assert(b =~= b.drop_last().push(b.last()));
    } else {
        assert(a =~= b);
    }
}

/// The encoding of visible slots is canonical: different sets have different
/// bytes, as long as their size fits its field.
pub proof fn visible_bytes_identify_slots(a: Set<RaiSlot>, b: Set<RaiSlot>)
    requires
        a.finite(),
        b.finite(),
        a.len() <= u64::MAX,
        b.len() <= u64::MAX,
        visible_bytes(a) == visible_bytes(b),
    ensures
        a == b,
{
    let p = visible_bytes(a);
    let q = visible_bytes(b);
    let d = text_bytes("rai close value ").len() as int;
    lemma_byte_spans();
    lemma_be_bytes_len(a.len(), 8);
    lemma_be_bytes_len(b.len(), 8);
    lemma_ascending(a);
    lemma_ascending(b);
    assert(p.subrange(d, d + 8) =~= be_bytes(a.len(), 8));
    assert(q.subrange(d, d + 8) =~= be_bytes(b.len(), 8));
    lemma_be_bytes_injective(a.len(), b.len(), 8);
    assert(p.subrange(d + 8, p.len() as int) =~= slots_bytes(ascending(a)));
    assert(q.subrange(d + 8, q.len() as int) =~= slots_bytes(ascending(b)));
    lemma_slots_bytes(ascending(a), ascending(b));
}

/// The finalized slots with their blocks.
pub open spec fn finalized_blocks(entries: Map<RaiSlot, RaiClosedSlotState>) -> Map<RaiSlot, BlockHash> {
    Map::new(
        |slot: RaiSlot| entries.contains_key(slot) && entries[slot] is Finalized,
        |slot: RaiSlot| entries[slot]->Finalized_0,
    )
}

/// The carried slots with their blocks.
pub open spec fn carried_blocks(entries: Map<RaiSlot, RaiClosedSlotState>) -> Map<RaiSlot, BlockHash> {
    Map::new(
        |slot: RaiSlot| entries.contains_key(slot) && entries[slot] is Carry,
        |slot: RaiSlot| entries[slot]->Carry_0,
    )
}

/// These slots with their blocks, one after the other.
pub open spec fn blocks_bytes(slots: Seq<RaiSlot>, blocks: Map<RaiSlot, BlockHash>) -> Seq<u8>
    decreases slots.len(),
{
    if slots.len() == 0 {
        Seq::empty()
    } else {
        blocks_bytes(slots.drop_last(), blocks) + slots.last().bytes() + blocks[slots.last()].bytes()
    }
}

/// The root over slots and blocks under a domain.
pub open spec fn blocks_hash(domain: &str, blocks: Map<RaiSlot, BlockHash>) -> BlockHash {
    BlockHash::of_bytes(
        blake2b_256(
            text_bytes(domain) + be_bytes(blocks.len(), 8) + blocks_bytes(ascending(blocks.dom()), blocks),
        ),
    )
}

pub open spec fn finalized_root(entries: Map<RaiSlot, RaiClosedSlotState>) -> BlockHash {
    blocks_hash("rai close record finalized ", finalized_blocks(entries))
}

pub open spec fn carry_root(entries: Map<RaiSlot, RaiClosedSlotState>) -> BlockHash {
    blocks_hash("rai close record carry ", carried_blocks(entries))
}

/// A tag and a block; released slots have the zero block.
pub open spec fn closed_state_bytes(state: RaiClosedSlotState) -> Seq<u8> {
    match state {
        RaiClosedSlotState::Finalized(block) => seq![0u8] + block.bytes(),
        RaiClosedSlotState::Carry(block) => seq![1u8] + block.bytes(),
        RaiClosedSlotState::Released => seq![2u8] + (BlockHash { hi: 0, lo: 0 }).bytes(),
    }
}

pub open spec fn closed_bytes(slots: Seq<RaiSlot>, entries: Map<RaiSlot, RaiClosedSlotState>) -> Seq<u8>
    decreases slots.len(),
{
    if slots.len() == 0 {
        Seq::empty()
    } else {
        closed_bytes(slots.drop_last(), entries) + slots.last().bytes() + closed_state_bytes(entries[slots.last()])
    }
}

/// The hash over all entries of a close record.
pub open spec fn entries_hash(entries: Map<RaiSlot, RaiClosedSlotState>) -> BlockHash {
    BlockHash::of_bytes(
        blake2b_256(
            text_bytes("rai close record value ") + be_bytes(entries.len(), 8) + closed_bytes(
                ascending(entries.dom()),
                entries,
            ),
        ),
    )
}

fn hash_blocks(domain: &str, blocks: &SortedMap<RaiSlot, BlockHash>) -> (r: BlockHash)
    ensures
        r == blocks_hash(domain, blocks@),
{
    let n: usize = blocks.len();
    let ghost slots = ascending(blocks@.dom());
    let mut bytes: Vec<u8> = Vec::new();
    push_text(&mut bytes, domain);
    push_be(&mut bytes, n as u128, 8);
    let ghost head = bytes@;
    proof {
        assert(head =~= text_bytes(domain) + be_bytes(blocks@.len(), 8));
    }
    for i in 0..n
        invariant
            n == blocks@.len(),
            n == slots.len(),
            slots == ascending(blocks@.dom()),
            bytes@ == head + blocks_bytes(slots.take(i as int), blocks@),
    {
        blocks.key_at(i).push_bytes(&mut bytes);
        blocks.value_at(i).push_bytes(&mut bytes);
        proof {
            assert(slots.take(i + 1).drop_last() =~= slots.take(i as int));
            assert(bytes@ =~= head + blocks_bytes(slots.take(i + 1), blocks@));
        }
    }
    proof {
        assert(slots.take(n as int) =~= slots);
    }
    digest_hash(&bytes)
}

/// The entries of one kind: finalized or carried ones.
fn select_blocks(entries: &CloseRecordEntries, finalized: bool) -> (r: SortedMap<RaiSlot, BlockHash>)
    ensures
        r@ == if finalized {
            finalized_blocks(entries@)
        } else {
            carried_blocks(entries@)
        },
{
    let n: usize = entries.len();
    let ghost slots = ascending(entries@.dom());
    let ghost all = if finalized {
        finalized_blocks(entries@)
    } else {
        carried_blocks(entries@)
    };
    proof {
        lemma_ascending(entries@.dom());
        assert(all.restrict(slots.take(0).to_set()) =~= Map::<RaiSlot, BlockHash>::empty());
    }
    let mut r: SortedMap<RaiSlot, BlockHash> = SortedMap::new();
    for i in 0..n
        invariant
            n == entries@.len(),
            n == slots.len(),
            slots == ascending(entries@.dom()),
            slots.no_duplicates(),
            all == if finalized {
                finalized_blocks(entries@)
            } else {
                carried_blocks(entries@)
            },
            r@ == all.restrict(slots.take(i as int).to_set()),
    {
        let slot = entries.key_at(i);
        let state = *entries.value_at(i);
        proof {
            lemma_take_distinct(slots, i as int);
        }
        match state {
            RaiClosedSlotState::Finalized(block) => {
                if finalized {
                    r.insert(slot, block);
                }
            },
            RaiClosedSlotState::Carry(block) => {
                if !finalized {
                    r.insert(slot, block);
                }
            },
            RaiClosedSlotState::Released => {},
        }
        proof {
            assert(r@ =~= all.restrict(slots.take(i + 1).to_set()));
        }
    }
    proof {
        assert(slots.take(n as int) =~= slots);
        assert(all.restrict(slots.to_set()) =~= all);
    }
    r
}

/// The root over the finalized entries.
pub fn hash_finalized_entries(entries: &CloseRecordEntries) -> (r: BlockHash)
    ensures
        r == finalized_root(entries@),
{
    hash_blocks("rai close record finalized ", &select_blocks(entries, true))
}

/// The root over the carried entries.
pub fn hash_carry_entries(entries: &CloseRecordEntries) -> (r: BlockHash)
    ensures
        r == carry_root(entries@),
{
    hash_blocks("rai close record carry ", &select_blocks(entries, false))
}

fn push_closed_state(bytes: &mut Vec<u8>, state: &RaiClosedSlotState)
    ensures
        final(bytes)@ == old(bytes)@ + closed_state_bytes(*state),
{
    let ghost before = bytes@;
    match state {
        RaiClosedSlotState::Finalized(block) => {
            bytes.push(0);
            block.push_bytes(bytes);
        },
        RaiClosedSlotState::Carry(block) => {
            bytes.push(1);
            block.push_bytes(bytes);
        },
        RaiClosedSlotState::Released => {
            bytes.push(2);
            BlockHash::zero().push_bytes(bytes);
        },
    }
    proof {
        assert(bytes@ =~= before + closed_state_bytes(*state));
    }
}

/// The hash over all entries of a close record.
pub fn hash_entries(entries: &CloseRecordEntries) -> (r: BlockHash)
    ensures
        r == entries_hash(entries@),
{
    let n: usize = entries.len();
    let ghost slots = ascending(entries@.dom());
    let mut bytes: Vec<u8> = Vec::new();
    push_text(&mut bytes, "rai close record value ");
    push_be(&mut bytes, n as u128, 8);
    let ghost head = bytes@;
    proof {
        assert(head =~= text_bytes("rai close record value ") + be_bytes(entries@.len(), 8));
    }
    for i in 0..n
        invariant
            n == entries@.len(),
            n == slots.len(),
            slots == ascending(entries@.dom()),
            bytes@ == head + closed_bytes(slots.take(i as int), entries@),
    {
        entries.key_at(i).push_bytes(&mut bytes);
        push_closed_state(&mut bytes, entries.value_at(i));
        proof {
            assert(slots.take(i + 1).drop_last() =~= slots.take(i as int));
            assert(bytes@ =~= head + closed_bytes(slots.take(i + 1), entries@));
        }
    }
    proof {
        assert(slots.take(n as int) =~= slots);
    }
    digest_hash(&bytes)
}

/// A recorded set of visible slots as it is stored.
#[derive(Debug, PartialEq, Eq)]
pub struct RaiCloseValueSnapshot {
    pub hash: BlockHash,
    pub slots: Vec<RaiSlot>,
}

/// The model of a stored set of visible slots.
#[verifier::ext_equal]
pub struct StoredCloseValue {
    pub hash: BlockHash,
    pub slots: Seq<RaiSlot>,
}

impl DeepView for RaiCloseValueSnapshot {
    type V = StoredCloseValue;

    open spec fn deep_view(&self) -> StoredCloseValue {
        StoredCloseValue { hash: self.hash, slots: self.slots@ }
    }
}

pub open spec fn stored_close_values(values: Map<BlockHash, Set<RaiSlot>>) -> Seq<StoredCloseValue> {
    let pairs = pairs_of(values);
    Seq::new(pairs.len(), |i: int| StoredCloseValue { hash: pairs[i].0, slots: ascending(pairs[i].1) })
}

pub open spec fn close_value_pairs(stored: Seq<StoredCloseValue>) -> Seq<(BlockHash, Set<RaiSlot>)> {
    Seq::new(stored.len(), |i: int| (stored[i].hash, stored[i].slots.to_set()))
}

/// Stored close values are read back as they were.
pub proof fn stored_close_values_round_trip(values: Map<BlockHash, Set<RaiSlot>>)
    requires
        values.dom().finite(),
        forall|hash: BlockHash| #[trigger] values.contains_key(hash) ==> values[hash].finite(),
    ensures
        map_of(close_value_pairs(stored_close_values(values))) == values,
{
    let pairs = pairs_of(values);
    lemma_ascending(values.dom());
    assert forall|i: int| 0 <= i < pairs.len() implies close_value_pairs(stored_close_values(values))[i]
        == #[trigger] pairs[i] by {
        assert(values.contains_key(ascending(values.dom())[i]));
        lemma_ascending(pairs[i].1);
    }
    assert(close_value_pairs(stored_close_values(values)) =~= pairs);
    lemma_map_of_pairs(values);
}

/// Which slots are visible, and which sets of visible slots were put to a vote.
pub struct RaiVisibilityTracker {
    pub visible_slots: VisibleSlots,
    pub close_values: SortedMap<BlockHash, VisibleSlots>,
}

/// The model of the visibility of an epoch.
#[verifier::ext_equal]
pub struct Visibility {
    pub visible: Set<RaiSlot>,
    pub close_values: Map<BlockHash, Set<RaiSlot>>,
}

/// Every set stands under its own hash.
pub open spec fn names_sets(values: Map<BlockHash, Set<RaiSlot>>) -> bool {
    forall|hash: BlockHash| #[trigger] values.contains_key(hash) ==> visible_hash(values[hash]) == hash
}

impl Visibility {
    pub open spec fn empty() -> Visibility {
        Visibility { visible: Set::empty(), close_values: Map::empty() }
    }

    pub open spec fn well_formed(self) -> bool {
        &&& self.visible.finite()
        &&& self.close_values.dom().finite()
        &&& forall|hash: BlockHash| #[trigger]
            self.close_values.contains_key(hash) ==> self.close_values[hash].finite()
    }

    /// The visible slots are kept under their hash, unless the hash is taken.
    pub open spec fn recorded(self) -> Visibility {
        let hash = visible_hash(self.visible);
        if self.close_values.contains_key(hash) {
            self
        } else {
            Visibility { close_values: self.close_values.insert(hash, self.visible), ..self }
        }
    }

    /// Slots became visible. Once a set was put to a vote, each larger set is kept too.
    pub open spec fn marked(self, slots: Set<RaiSlot>) -> Visibility {
        let grown = Visibility { visible: self.visible.union(slots), ..self };
        if slots.subset_of(self.visible) || self.close_values == Map::<BlockHash, Set<RaiSlot>>::empty() {
            grown
        } else {
            grown.recorded()
        }
    }

    /// Every kept set stands under its own hash.
    pub open spec fn is_canonical(self) -> bool {
        names_sets(self.close_values)
    }
}

impl View for RaiVisibilityTracker {
    type V = Visibility;

    open spec fn view(&self) -> Visibility {
        Visibility { visible: self.visible_slots@, close_values: self.close_values@ }
    }
}

impl DeepView for RaiVisibilityTracker {
    type V = Visibility;

    open spec fn deep_view(&self) -> Visibility {
        self.view()
    }
}

impl Duplicate for RaiVisibilityTracker {
    fn duplicate(&self) -> (r: Self) {
        RaiVisibilityTracker {
            visible_slots: self.visible_slots.duplicate(),
            close_values: self.close_values.duplicate(),
        }
    }

    fn agrees(&self, other: &Self) -> (r: bool) {
        self.visible_slots.agrees(&other.visible_slots) && self.close_values.agrees(&other.close_values)
    }
}

impl RaiVisibilityTracker {
    pub fn new() -> (r: Self)
        ensures
            r@ == Visibility::empty(),
    {
        let close_values: SortedMap<BlockHash, VisibleSlots> = SortedMap::new();
        RaiVisibilityTracker { visible_slots: SortedSet::new(), close_values }
    }

    pub fn from_snapshot(visible_slots: &Vec<RaiSlot>, close_values: &Vec<RaiCloseValueSnapshot>) -> (r: Self)
        ensures
            r@ == (Visibility {
                visible: visible_slots@.to_set(),
                close_values: map_of(close_value_pairs(close_values.deep_view())),
            }),
    {
        let mut values: SortedMap<BlockHash, VisibleSlots> = SortedMap::new();
        let ghost pairs = close_value_pairs(close_values.deep_view());
        for i in 0..close_values.len()
            invariant
                pairs == close_value_pairs(close_values.deep_view()),
                values@ == map_of(pairs.take(i as int)),
        {
            proof {
                assert(pairs.take(i + 1).drop_last() =~= pairs.take(i as int));
                assert(pairs[i as int].0 == close_values@[i as int].hash);
            }
            let slots = SortedSet::from_vec(&close_values[i].slots);
            values.insert(close_values[i].hash, slots);
        }
        proof {
            assert(pairs.take(pairs.len() as int) =~= pairs);
        }
        RaiVisibilityTracker { visible_slots: SortedSet::from_vec(visible_slots), close_values: values }
    }

    /// All parts of the model are finite.
    pub proof fn lemma_well_formed(&self)
        ensures
            self@.well_formed(),
    {
        lemma_set_values_are_finite(self.close_values);
    }

    /// Makes a slot visible; reports whether it was not.
    pub fn mark_visible(&mut self, slot: RaiSlot) -> (r: bool)
        ensures
            final(self)@ == old(self)@.marked(set![slot]),
            r == !old(self)@.visible.contains(slot),
    {
        let mut slots: VisibleSlots = SortedSet::new();
        slots.insert(slot);
        let r = self.mark_set(&slots);
        r
    }

    fn mark_set(&mut self, slots: &VisibleSlots) -> (r: bool)
        ensures
            final(self)@ == old(self)@.marked(slots@),
            r == !slots@.subset_of(old(self)@.visible),
    {
        let changed = self.visible_slots.extend(slots);
        if changed {
            self.record_current_close_value_if_started();
        }
        changed
    }

    /// Makes slots visible; reports whether any was not.
    pub fn mark_visible_slots(&mut self, slots: &Vec<RaiSlot>) -> (r: bool)
        ensures
            final(self)@ == old(self)@.marked(slots@.to_set()),
            r == !slots@.to_set().subset_of(old(self)@.visible),
    {
        self.mark_set(&SortedSet::from_vec(slots))
    }

    pub fn is_visible(&self, slot: &RaiSlot) -> (r: bool)
        ensures
            r == self@.visible.contains(*slot),
    {
        self.visible_slots.contains(slot)
    }

    pub fn visible_slots(&self) -> (r: &VisibleSlots)
        ensures
            r@ == self@.visible,
    {
        &self.visible_slots
    }

    /// The hash of the visible slots.
    pub fn current_close_hash(&self) -> (r: BlockHash)
        ensures
            r == visible_hash(self@.visible),
    {
        Self::hash_visible_slots(&self.visible_slots)
    }

    /// Keeps the visible slots under their hash.
    pub fn record_current_close_value(&mut self) -> (r: BlockHash)
        ensures
            final(self)@ == old(self)@.recorded(),
            r == visible_hash(old(self)@.visible),
    {
        let hash = self.current_close_hash();
        if !self.close_values.contains_key(&hash) {
            let slots = self.visible_slots.duplicate();
            self.close_values.insert(hash, slots);
        }
        hash
    }

    /// Keeps a set under a hash, unless the hash is taken; reports whether it was free.
    pub fn cache_close_value(&mut self, hash: BlockHash, slots: VisibleSlots) -> (r: bool)
        ensures
            r == !old(self)@.close_values.contains_key(hash),
            final(self)@ == if r {
                Visibility { close_values: old(self)@.close_values.insert(hash, slots@), ..old(self)@ }
            } else {
                old(self)@
            },
    {
        if self.close_values.contains_key(&hash) {
            return false;
        }
        self.close_values.insert(hash, slots);
        true
    }

    pub fn close_value(&self, hash: &BlockHash) -> (r: Option<&VisibleSlots>)
        ensures
            match r {
                Some(slots) => self@.close_values.contains_key(*hash) && slots@ == self@.close_values[*hash],
                None => !self@.close_values.contains_key(*hash),
            },
    {
        self.close_values.get(hash)
    }

    pub fn close_values(&self) -> (r: &SortedMap<BlockHash, VisibleSlots>)
        ensures
            r@ == self@.close_values,
    {
        &self.close_values
    }

    /// The kept sets in the order of their hashes.
    pub fn close_value_snapshots(&self) -> (r: Vec<RaiCloseValueSnapshot>)
        ensures
            r.deep_view() == stored_close_values(self@.close_values),
    {
        let mut r: Vec<RaiCloseValueSnapshot> = Vec::new();
        let n: usize = self.close_values.len();
        let ghost stored = stored_close_values(self.close_values@);
        for i in 0..n
            invariant
                n == self.close_values@.len(),
                n == stored.len(),
                stored == stored_close_values(self.close_values@),
                r@.len() == i,
                forall|j: int| 0 <= j < i ==> (#[trigger] r@[j]).deep_view() == stored[j],
        {
            r.push(
                RaiCloseValueSnapshot {
                    hash: self.close_values.key_at(i),
                    slots: self.close_values.value_at(i).to_vec(),
                },
            );
        }
        proof {
            assert(r.deep_view() =~= stored);
        }
        r
    }

    /// The hash that names a set of visible slots.
    pub fn hash_visible_slots(slots: &VisibleSlots) -> (r: BlockHash)
        ensures
            r == visible_hash(slots@),
    {
        let n: usize = slots.len();
        let ghost all = ascending(slots@);
        let mut bytes: Vec<u8> = Vec::new();
        push_text(&mut bytes, "rai close value ");
        push_be(&mut bytes, n as u128, 8);
        let ghost head = bytes@;
        proof {
            assert(head =~= text_bytes("rai close value ") + be_bytes(slots@.len(), 8));
        }
        for i in 0..n
            invariant
                n == slots@.len(),
                n == all.len(),
                all == ascending(slots@),
                bytes@ == head + slots_bytes(all.take(i as int)),
        {
            slots.at(i).push_bytes(&mut bytes);
            proof {
                assert(all.take(i + 1).drop_last() =~= all.take(i as int));
                assert(bytes@ =~= head + slots_bytes(all.take(i + 1)));
            }
        }
        proof {
            assert(all.take(n as int) =~= all);
        }
        digest_hash(&bytes)
    }

    fn record_current_close_value_if_started(&mut self)
        ensures
            final(self)@ == if old(self)@.close_values == Map::<BlockHash, Set<RaiSlot>>::empty() {
                old(self)@
            } else {
                old(self)@.recorded()
            },
    {
        if !self.close_values.is_empty() {
            self.record_current_close_value();
        }
    }
}

impl Default for RaiVisibilityTracker {
    fn default() -> (r: Self)
        ensures
            r@ == Visibility::empty(),
    {
        RaiVisibilityTracker::new()
    }
}

/// The close hash does not depend on the order in which slots became visible.
pub proof fn close_hash_ignores_order(v: Visibility, a: Seq<RaiSlot>, b: Seq<RaiSlot>)
    requires
        a.to_set() == b.to_set(),
    ensures
        visible_hash(v.marked(a.to_set()).visible) == visible_hash(v.marked(b.to_set()).visible),
        v.marked(a.to_set()) == v.marked(b.to_set()),
{
}

/// Marking and recording keep every set under its own hash, and lose none.
pub proof fn close_values_stay_canonical(v: Visibility, slots: Set<RaiSlot>)
    requires
        v.is_canonical(),
    ensures
        v.recorded().is_canonical(),
        v.marked(slots).is_canonical(),
        v.close_values.submap_of(v.recorded().close_values),
        v.close_values.submap_of(v.marked(slots).close_values),
{
}

/// Once a set of visible slots was recorded, the current set is always found
/// under the current close hash, however the visible slots grow. Two sets with
/// the same hash count as the same value here.
pub proof fn current_close_value_is_kept(v: Visibility, slots: Set<RaiSlot>)
    requires
        v.close_values.contains_key(visible_hash(v.visible)),
    ensures
        v.recorded() == v,
        v.marked(slots).close_values.contains_key(visible_hash(v.marked(slots).visible)),
{
    if slots.subset_of(v.visible) {
        assert(v.visible.union(slots) =~= v.visible);
    } else {
        assert(v.close_values.contains_key(visible_hash(v.visible)));
        assert(v.close_values != Map::<BlockHash, Set<RaiSlot>>::empty());
    }
}

/// Of the closed slots the finalized blocks and the carried ones are told apart: each
/// block is in the one list or the other, as its slot was closed, and a released slot is
/// in neither.
pub proof fn closed_slots_fall_apart(entries: Map<RaiSlot, RaiClosedSlotState>, slot: RaiSlot, block: BlockHash)
    ensures
        ({
            let finalized = finalized_blocks(entries);
            let carried = carried_blocks(entries);
            &&& finalized.contains_key(slot) && finalized[slot] == block <==> entries.contains_key(slot) && entries[slot]
                == RaiClosedSlotState::Finalized(block)
            &&& carried.contains_key(slot) && carried[slot] == block <==> entries.contains_key(slot) && entries[slot]
                == RaiClosedSlotState::Carry(block)
            &&& entries.contains_key(slot) && entries[slot] == RaiClosedSlotState::Released ==> !finalized.contains_key(slot)
                && !carried.contains_key(slot)
        }),
{
}

/// Visible slots only grow, by exactly the ones that are marked.
pub proof fn marked_slots_are_visible(v: Visibility, slots: Set<RaiSlot>, slot: RaiSlot, hash: BlockHash)
    ensures
        v.marked(slots).visible.contains(slot) <==> v.visible.contains(slot) || slots.contains(slot),
        v.close_values.contains_key(hash) ==> v.marked(slots).close_values.contains_key(hash) && v.marked(slots).close_values[hash]
            == v.close_values[hash],
        v.recorded().visible == v.visible,
        v.recorded().close_values.contains_key(visible_hash(v.visible)),
{
}

proof fn lemma_slots_layout(q: Seq<RaiSlot>, i: int)
    ensures
        slots_bytes(q).len() == 40 * q.len(),
        0 <= i < q.len() ==> slots_bytes(q).subrange(40 * i, 40 * i + 40) == q[i].bytes(),
    decreases q.len(),
{
    if q.len() > 0 {
        let front = q.drop_last();
        lemma_slots_layout(front, i);
        RaiSlot::bytes_identify(q.last(), q.last());
        let all = slots_bytes(q);
        if 0 <= i < q.len() - 1 {
            assert(all.subrange(40 * i, 40 * i + 40) =~= slots_bytes(front).subrange(40 * i, 40 * i + 40));
        } else if i == q.len() - 1 {
            assert(all.subrange(40 * i, 40 * i + 40) =~= q.last().bytes());
        }
    }
}

/// The bytes of a set of slots: its tag, eight bytes with the number of slots, then 40 bytes
/// for each slot in ascending order.
pub proof fn visible_bytes_layout(slots: Set<RaiSlot>, i: int)
    requires
        slots.finite(),
    ensures
        ({
            let m = visible_bytes(slots);
            let t = text_bytes("rai close value ");
            let n = t.len() as int;
            &&& m.len() == n + 8 + 40 * slots.len()
            &&& m.subrange(0, n) == t
            &&& m.subrange(n, n + 8) == be_bytes(slots.len(), 8)
            &&& 0 <= i < slots.len() ==> m.subrange(n + 8 + 40 * i, n + 48 + 40 * i) == ascending(slots)[i].bytes()
        }),
{
    let m = visible_bytes(slots);
    let t = text_bytes("rai close value ");
    let n = t.len() as int;
    let q = ascending(slots);
    lemma_ascending(slots);
    lemma_slots_layout(q, i);
    lemma_be_bytes_len(slots.len(), 8);
    assert(m.subrange(0, n) =~= t);
    assert(m.subrange(n, n + 8) =~= be_bytes(slots.len(), 8));
    if 0 <= i < slots.len() {
        assert(m.subrange(n + 8 + 40 * i, n + 48 + 40 * i) =~= slots_bytes(q).subrange(40 * i, 40 * i + 40));
    }
}

proof fn lemma_blocks_layout(q: Seq<RaiSlot>, blocks: Map<RaiSlot, BlockHash>, i: int)
    ensures
        blocks_bytes(q, blocks).len() == 72 * q.len(),
        0 <= i < q.len() ==> {
            &&& blocks_bytes(q, blocks).subrange(72 * i, 72 * i + 40) == q[i].bytes()
            &&& blocks_bytes(q, blocks).subrange(72 * i + 40, 72 * i + 72) == blocks[q[i]].bytes()
        },
    decreases q.len(),
{
    if q.len() > 0 {
        let front = q.drop_last();
        lemma_blocks_layout(front, blocks, i);
        RaiSlot::bytes_identify(q.last(), q.last());
        blocks[q.last()].bytes_round_trip();
        let all = blocks_bytes(q, blocks);
        let before = blocks_bytes(front, blocks);
        if 0 <= i < q.len() - 1 {
            assert(all.subrange(72 * i, 72 * i + 40) =~= before.subrange(72 * i, 72 * i + 40));
            assert(all.subrange(72 * i + 40, 72 * i + 72) =~= before.subrange(72 * i + 40, 72 * i + 72));
        } else if i == q.len() - 1 {
            assert(all.subrange(72 * i, 72 * i + 40) =~= q.last().bytes());
            assert(all.subrange(72 * i + 40, 72 * i + 72) =~= blocks[q.last()].bytes());
        }
    }
}

/// What a root is the digest of: its tag, eight bytes with the number of blocks, then each
/// slot in ascending order with its block.
pub open spec fn is_root_message(m: Seq<u8>, tag: Seq<u8>, blocks: Map<RaiSlot, BlockHash>) -> bool {
    let n = tag.len() as int;
    let q = ascending(blocks.dom());
    &&& m.len() == n + 8 + 72 * blocks.len()
    &&& m.subrange(0, n) == tag
    &&& m.subrange(n, n + 8) == be_bytes(blocks.len(), 8)
    &&& forall|i: int|
        0 <= i < blocks.len() ==> {
            &&& m.subrange(n + 8 + 72 * i, n + 48 + 72 * i) == (#[trigger] q[i]).bytes()
            &&& m.subrange(n + 48 + 72 * i, n + 80 + 72 * i) == blocks[q[i]].bytes()
        }
}

proof fn lemma_root_message(tag: &str, blocks: Map<RaiSlot, BlockHash>)
    requires
        blocks.dom().finite(),
    ensures
        exists|m: Seq<u8>| #[trigger]
            is_root_message(m, text_bytes(tag), blocks) && blocks_hash(tag, blocks) == BlockHash::of_bytes(blake2b_256(m)),
{
    let t = text_bytes(tag);
    let n = t.len() as int;
    let q = ascending(blocks.dom());
    let all = blocks_bytes(q, blocks);
    let m = t + be_bytes(blocks.len(), 8) + all;
    lemma_ascending(blocks.dom());
    lemma_be_bytes_len(blocks.len(), 8);
    lemma_blocks_layout(q, blocks, 0);
    assert(m.subrange(0, n) =~= t);
    assert(m.subrange(n, n + 8) =~= be_bytes(blocks.len(), 8));
    assert forall|i: int| 0 <= i < blocks.len() implies {
        &&& m.subrange(n + 8 + 72 * i, n + 48 + 72 * i) == (#[trigger] q[i]).bytes()
        &&& m.subrange(n + 48 + 72 * i, n + 80 + 72 * i) == blocks[q[i]].bytes()
    } by {
        lemma_blocks_layout(q, blocks, i);
        assert(m.subrange(n + 8 + 72 * i, n + 48 + 72 * i) =~= all.subrange(72 * i, 72 * i + 40));
        assert(m.subrange(n + 48 + 72 * i, n + 80 + 72 * i) =~= all.subrange(72 * i + 40, 72 * i + 72));
    }
    assert(is_root_message(m, t, blocks));
}

/// The roots of a record are digests of its finalized and of its carried blocks, each behind
/// a tag of its own.
pub proof fn roots_digest_their_blocks(
    entries: Map<RaiSlot, RaiClosedSlotState>,
    finalized: Map<RaiSlot, BlockHash>,
    carried: Map<RaiSlot, BlockHash>,
)
    requires
        entries.dom().finite(),
        forall|slot: RaiSlot| #[trigger]
            finalized.contains_key(slot) <==> entries.contains_key(slot) && entries[slot] is Finalized,
        forall|slot: RaiSlot| #[trigger]
            finalized.contains_key(slot) ==> entries[slot] == RaiClosedSlotState::Finalized(finalized[slot]),
        forall|slot: RaiSlot| #[trigger]
            carried.contains_key(slot) <==> entries.contains_key(slot) && entries[slot] is Carry,
        forall|slot: RaiSlot| #[trigger]
            carried.contains_key(slot) ==> entries[slot] == RaiClosedSlotState::Carry(carried[slot]),
    ensures
        exists|m: Seq<u8>| #[trigger]
            is_root_message(m, text_bytes("rai close record finalized "), finalized) && finalized_root(entries)
                == BlockHash::of_bytes(blake2b_256(m)),
        exists|m: Seq<u8>| #[trigger]
            is_root_message(m, text_bytes("rai close record carry "), carried) && carry_root(entries) == BlockHash::of_bytes(
                blake2b_256(m),
            ),
{
    assert(finalized_blocks(entries) =~= finalized);
    assert(carried_blocks(entries) =~= carried);
    assert(finalized.dom().subset_of(entries.dom()));
    assert(carried.dom().subset_of(entries.dom()));
    vstd::set_lib::lemma_set_subset_finite(entries.dom(), finalized.dom());
    vstd::set_lib::lemma_set_subset_finite(entries.dom(), carried.dom());
    lemma_root_message("rai close record finalized ", finalized);
    lemma_root_message("rai close record carry ", carried);
}

proof fn lemma_closed_layout(q: Seq<RaiSlot>, entries: Map<RaiSlot, RaiClosedSlotState>, i: int)
    ensures
        closed_bytes(q, entries).len() == 73 * q.len(),
        0 <= i < q.len() ==> {
            let all = closed_bytes(q, entries);
            let block = match entries[q[i]] {
                RaiClosedSlotState::Finalized(block) => block,
                RaiClosedSlotState::Carry(block) => block,
                RaiClosedSlotState::Released => BlockHash { hi: 0, lo: 0 },
            };
            &&& all.subrange(73 * i, 73 * i + 40) == q[i].bytes()
            &&& all[73 * i + 40] == if entries[q[i]] is Finalized {
                0u8
            } else if entries[q[i]] is Carry {
                1u8
            } else {
                2u8
            }
            &&& all.subrange(73 * i + 41, 73 * i + 73) == block.bytes()
        },
    decreases q.len(),
{
    if q.len() > 0 {
        let front = q.drop_last();
        let last = q.last();
        lemma_closed_layout(front, entries, i);
        RaiSlot::bytes_identify(last, last);
        let block = match entries[last] {
            RaiClosedSlotState::Finalized(block) => block,
            RaiClosedSlotState::Carry(block) => block,
            RaiClosedSlotState::Released => BlockHash { hi: 0, lo: 0 },
        };
        block.bytes_round_trip();
        let all = closed_bytes(q, entries);
        let before = closed_bytes(front, entries);
        assert(closed_state_bytes(entries[last]).len() == 33);
        if 0 <= i < q.len() - 1 {
            assert(all.subrange(73 * i, 73 * i + 40) =~= before.subrange(73 * i, 73 * i + 40));
            assert(all[73 * i + 40] == before[73 * i + 40]);
            assert(all.subrange(73 * i + 41, 73 * i + 73) =~= before.subrange(73 * i + 41, 73 * i + 73));
        } else if i == q.len() - 1 {
            assert(all.subrange(73 * i, 73 * i + 40) =~= last.bytes());
            assert(all.subrange(73 * i + 41, 73 * i + 73) =~= block.bytes());
        }
    }
}

/// What the hash of closed slots digests: its tag, eight bytes with their number, then each slot in
/// ascending order with one byte for how it closed, zero for finalized, one for carried and two for
/// released, and its block, or zeros.
pub proof fn closed_slots_layout(entries: Map<RaiSlot, RaiClosedSlotState>, i: int)
    requires
        entries.dom().finite(),
        0 <= i < entries.len(),
    ensures
        exists|m: Seq<u8>|
            entries_hash(entries) == BlockHash::of_bytes(#[trigger] blake2b_256(m)) && {
                let t = text_bytes("rai close record value ");
                let n = t.len() as int;
                let slot = ascending(entries.dom())[i];
                let at = n + 8 + 73 * i;
                &&& m.len() == n + 8 + 73 * entries.len()
                &&& m.subrange(0, n) == t
                &&& m.subrange(n, n + 8) == be_bytes(entries.len(), 8)
                &&& m.subrange(at, at + 40) == slot.bytes()
                &&& entries[slot] is Finalized ==> m[at + 40] == 0
                &&& entries[slot] is Carry ==> m[at + 40] == 1
                &&& entries[slot] is Released ==> m[at + 40] == 2
                &&& entries[slot] matches RaiClosedSlotState::Finalized(block) ==> m.subrange(at + 41, at + 73)
                    == block.bytes()
                &&& entries[slot] matches RaiClosedSlotState::Carry(block) ==> m.subrange(at + 41, at + 73) == block.bytes()
            },
{
    let t = text_bytes("rai close record value ");
    let n = t.len() as int;
    let q = ascending(entries.dom());
    let all = closed_bytes(q, entries);
    let m = t + be_bytes(entries.len(), 8) + all;
    let at = n + 8 + 73 * i;
    lemma_ascending(entries.dom());
    lemma_be_bytes_len(entries.len(), 8);
    lemma_closed_layout(q, entries, i);
    assert(m.subrange(0, n) =~= t);
    assert(m.subrange(n, n + 8) =~= be_bytes(entries.len(), 8));
    assert(m.subrange(at, at + 40) =~= all.subrange(73 * i, 73 * i + 40));
    assert(m[at + 40] == all[73 * i + 40]);
    assert(m.subrange(at + 41, at + 73) =~= all.subrange(73 * i + 41, 73 * i + 73));
    assert(entries_hash(entries) == BlockHash::of_bytes(blake2b_256(m)));
}

}
