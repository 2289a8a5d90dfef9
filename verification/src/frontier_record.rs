//! Close records that hold the frontier of every account.
use vstd::prelude::*;

use crate::bytes::{
    be_bytes, lemma_be_bytes_injective, lemma_be_bytes_len, lemma_byte_spans, push_be, push_text, text_bytes,
};
use crate::close_state::{
    CloseState, EpochRecord, Package, RaiCloseState, RaiEpochTransitionError,
};
use crate::close_values::{visible_hash, CloseRecordEntries, RaiClosedSlotState, RaiVisibilityTracker, VisibleSlots};
use crate::committee::RaiEpoch;
use crate::digest::{blake2b_256, digest_hash};
use crate::ordered::{
    ascending, lemma_ascending, sorted_map_is_finite, sorted_set_is_finite, Duplicate, Key, SortedMap,
};
use crate::types::{Account, BlockHash, RaiSlot};

verus! {

broadcast use {sorted_set_is_finite, sorted_map_is_finite};

/// The frontier block of each account.
pub type RaiFrontiers = SortedMap<Account, BlockHash>;

/// A close record that holds the frontier of every account.
#[derive(Debug, PartialEq, Eq)]
pub struct RaiFrontierRecord {
    pub epoch: RaiEpoch,
    pub previous_close_hash: BlockHash,
    pub frontiers: RaiFrontiers,
}

/// The model of such a record.
#[verifier::ext_equal]
pub struct FrontierRecord {
    pub epoch: RaiEpoch,
    pub previous_close_hash: BlockHash,
    pub frontiers: Map<Account, BlockHash>,
}

/// These accounts with their frontiers, one after the other.
pub open spec fn account_bytes(accounts: Seq<Account>, frontiers: Map<Account, BlockHash>) -> Seq<u8>
    decreases accounts.len(),
{
    if accounts.len() == 0 {
        Seq::empty()
    } else {
        account_bytes(accounts.drop_last(), frontiers) + accounts.last().bytes() + frontiers[accounts.last()].bytes()
    }
}

impl FrontierRecord {
    /// The encoding that names the record.
    pub open spec fn bytes(self) -> Seq<u8> {
        text_bytes("rai close frontiers ") + be_bytes(self.epoch as nat, 8) + self.previous_close_hash.bytes()
            + be_bytes(self.frontiers.len(), 8) + account_bytes(ascending(self.frontiers.dom()), self.frontiers)
    }
}

impl DeepView for RaiFrontierRecord {
    type V = FrontierRecord;

    open spec fn deep_view(&self) -> FrontierRecord {
        FrontierRecord {
            epoch: self.epoch,
            previous_close_hash: self.previous_close_hash,
            frontiers: self.frontiers@,
        }
    }
}

impl Duplicate for RaiFrontierRecord {
    fn duplicate(&self) -> (r: Self) {
        RaiFrontierRecord {
            epoch: self.epoch,
            previous_close_hash: self.previous_close_hash,
            frontiers: self.frontiers.duplicate(),
        }
    }

    fn agrees(&self, other: &Self) -> (r: bool) {
        self.epoch == other.epoch && self.previous_close_hash == other.previous_close_hash && self.frontiers.agrees(
            &other.frontiers,
        )
    }
}

impl EpochRecord for RaiFrontierRecord {
    open spec fn digest(record: FrontierRecord) -> BlockHash {
        BlockHash::of_bytes(blake2b_256(record.bytes()))
    }

    open spec fn fits(record: FrontierRecord, epoch: RaiEpoch) -> bool {
        record.epoch == epoch
    }

    fn fits_epoch(&self, epoch: RaiEpoch) -> (r: bool) {
        self.epoch == epoch
    }

    fn hash(&self) -> (r: BlockHash) {
        let n: usize = self.frontiers.len();
        let ghost accounts = ascending(self.frontiers@.dom());
        let mut bytes: Vec<u8> = Vec::new();
        push_text(&mut bytes, "rai close frontiers ");
        push_be(&mut bytes, self.epoch as u128, 8);
        self.previous_close_hash.push_bytes(&mut bytes);
        push_be(&mut bytes, n as u128, 8);
        let ghost head = bytes@;
        for i in 0..n
            invariant
                n == self.frontiers@.len(),
                n == accounts.len(),
                accounts == ascending(self.frontiers@.dom()),
                bytes@ == head + account_bytes(accounts.take(i as int), self.frontiers@),
        {
            self.frontiers.key_at(i).push_bytes(&mut bytes);
            self.frontiers.value_at(i).push_bytes(&mut bytes);
            proof {
                assert(accounts.take(i + 1).drop_last() =~= accounts.take(i as int));
                assert(bytes@ =~= head + account_bytes(accounts.take(i + 1), self.frontiers@));
            }
        }
        proof {
            assert(accounts.take(n as int) =~= accounts);
            assert(bytes@ =~= self.deep_view().bytes());
        }
        digest_hash(&bytes)
    }
}

proof fn lemma_account_bytes(a: Seq<Account>, m: Map<Account, BlockHash>, b: Seq<Account>, n: Map<Account, BlockHash>)
    requires
        a.len() == b.len(),
        account_bytes(a, m) == account_bytes(b, n),
    ensures
        a == b,
        forall|i: int| 0 <= i < a.len() ==> m[#[trigger] a[i]] == n[a[i]],
    decreases a.len(),
{
    if a.len() > 0 {
        let p = account_bytes(a, m);
        let q = account_bytes(b, n);
        a.last().bytes_round_trip();
        b.last().bytes_round_trip();
        m[a.last()].bytes_round_trip();
        n[b.last()].bytes_round_trip();
        let k = p.len() - 64;
        assert(p.subrange(0, k) =~= account_bytes(a.drop_last(), m));
        assert(q.subrange(0, k) =~= account_bytes(b.drop_last(), n));
        assert(p.subrange(k, k + 32) =~= a.last().bytes());
        assert(q.subrange(k, k + 32) =~= b.last().bytes());
        assert(p.subrange(k + 32, k + 64) =~= m[a.last()].bytes());
        assert(q.subrange(k + 32, k + 64) =~= n[b.last()].bytes());
        lemma_account_bytes(a.drop_last(), m, b.drop_last(), n);
        assert(a =~= a.drop_last().push(a.last()));
        assert(b =~= b.drop_last().push(b.last()));
        assert forall|i: int| 0 <= i < a.len() implies m[#[trigger] a[i]] == n[a[i]] by {
            if i < a.len() - 1 {
                assert(a.drop_last()[i] == a[i]);
            }
        }
    } else {
        assert(a =~= b);
    }
}

/// The encoding is canonical: records with the same bytes are the same record,
/// as long as the number of accounts fits its field.
pub proof fn frontier_bytes_identify_record(a: FrontierRecord, b: FrontierRecord)
    requires
        a.frontiers.dom().finite(),
        b.frontiers.dom().finite(),
        a.frontiers.len() <= u64::MAX,
        b.frontiers.len() <= u64::MAX,
        a.bytes() == b.bytes(),
    ensures
        a == b,
{
    let p = a.bytes();
    let q = b.bytes();
    let d = text_bytes("rai close frontiers ").len() as int;
    lemma_byte_spans();
    lemma_be_bytes_len(a.epoch as nat, 8);
    lemma_be_bytes_len(b.epoch as nat, 8);
    lemma_be_bytes_len(a.frontiers.len(), 8);
    lemma_be_bytes_len(b.frontiers.len(), 8);
    a.previous_close_hash.bytes_round_trip();
    b.previous_close_hash.bytes_round_trip();
    lemma_ascending(a.frontiers.dom());
    lemma_ascending(b.frontiers.dom());
    assert(p.subrange(d, d + 8) =~= be_bytes(a.epoch as nat, 8));
    assert(q.subrange(d, d + 8) =~= be_bytes(b.epoch as nat, 8));
    lemma_be_bytes_injective(a.epoch as nat, b.epoch as nat, 8);
    assert(p.subrange(d + 8, d + 40) =~= a.previous_close_hash.bytes());
    assert(q.subrange(d + 8, d + 40) =~= b.previous_close_hash.bytes());
    assert(p.subrange(d + 40, d + 48) =~= be_bytes(a.frontiers.len(), 8));
    assert(q.subrange(d + 40, d + 48) =~= be_bytes(b.frontiers.len(), 8));
    lemma_be_bytes_injective(a.frontiers.len(), b.frontiers.len(), 8);
    let x = ascending(a.frontiers.dom());
    let y = ascending(b.frontiers.dom());
    assert(p.subrange(d + 48, p.len() as int) =~= account_bytes(x, a.frontiers));
    assert(q.subrange(d + 48, q.len() as int) =~= account_bytes(y, b.frontiers));
    lemma_account_bytes(x, a.frontiers, y, b.frontiers);
    assert(a.frontiers.dom() =~= b.frontiers.dom());
    assert forall|k: Account| a.frontiers.contains_key(k) implies a.frontiers[k] == b.frontiers[k] by {
        assert(x.contains(k));
        let i = choose|i: int| 0 <= i < x.len() && x[i] == k;
        assert(a.frontiers[x[i]] == b.frontiers[x[i]]);
    }
    assert(a.frontiers =~= b.frontiers);
}

/// The block that a closed slot puts at the frontier of its account.
pub open spec fn settled_block(state: RaiClosedSlotState) -> Option<BlockHash> {
    match state {
        RaiClosedSlotState::Finalized(hash) => Some(hash),
        RaiClosedSlotState::Carry(hash) => Some(hash),
        RaiClosedSlotState::Released => None,
    }
}

/// The frontiers after these slots were closed in turn.
pub open spec fn frontiers_through(
    frontiers: Map<Account, BlockHash>,
    slots: Seq<RaiSlot>,
    entries: Map<RaiSlot, RaiClosedSlotState>,
) -> Map<Account, BlockHash>
    decreases slots.len(),
{
    if slots.len() == 0 {
        frontiers
    } else {
        let before = frontiers_through(frontiers, slots.drop_last(), entries);
        match settled_block(entries[slots.last()]) {
            Some(hash) => before.insert(slots.last().account, hash),
            None => before,
        }
    }
}

/// The frontiers after a close; the highest settled slot of an account counts.
pub open spec fn closed_frontiers(
    frontiers: Map<Account, BlockHash>,
    entries: Map<RaiSlot, RaiClosedSlotState>,
) -> Map<Account, BlockHash> {
    frontiers_through(frontiers, ascending(entries.dom()), entries)
}

/// The frontiers after a close.
pub fn close_frontiers(previous: &RaiFrontiers, entries: &CloseRecordEntries) -> (r: RaiFrontiers)
    ensures
        r@ == closed_frontiers(previous@, entries@),
{
    let mut frontiers = previous.duplicate();
    let n: usize = entries.len();
    let ghost slots = ascending(entries@.dom());
    for i in 0..n
        invariant
            n == entries@.len(),
            n == slots.len(),
            slots == ascending(entries@.dom()),
            frontiers@ == frontiers_through(previous@, slots.take(i as int), entries@),
    {
        proof {
            assert(slots.take(i + 1).drop_last() =~= slots.take(i as int));
        }
        let slot = entries.key_at(i);
        match *entries.value_at(i) {
            RaiClosedSlotState::Finalized(hash) => {
                frontiers.insert(slot.account, hash);
            },
            RaiClosedSlotState::Carry(hash) => {
                frontiers.insert(slot.account, hash);
            },
            RaiClosedSlotState::Released => {},
        }
    }
    proof {
        assert(slots.take(n as int) =~= slots);
    }
    frontiers
}

proof fn lemma_frontiers_through(
    frontiers: Map<Account, BlockHash>,
    slots: Seq<RaiSlot>,
    entries: Map<RaiSlot, RaiClosedSlotState>,
    account: Account,
)
    ensures
        ({
            let after = frontiers_through(frontiers, slots, entries);
            if exists|i: int|
                0 <= i < slots.len() && (#[trigger] slots[i]).account == account && settled_block(entries[slots[i]]) is Some {
                exists|i: int|
                    {
                        &&& 0 <= i < slots.len()
                        &&& (#[trigger] slots[i]).account == account
                        &&& settled_block(entries[slots[i]]) is Some
                        &&& after.contains_key(account)
                        &&& after[account] == settled_block(entries[slots[i]])->0
                        &&& forall|j: int|
                            i < j < slots.len() && (#[trigger] slots[j]).account == account ==> settled_block(
                                entries[slots[j]],
                            ) is None
                    }
            } else {
                after.contains_key(account) == frontiers.contains_key(account) && (frontiers.contains_key(account)
                    ==> after[account] == frontiers[account])
            }
        }),
    decreases slots.len(),
{
    if slots.len() > 0 {
        let n = slots.len() - 1;
        let front = slots.drop_last();
        lemma_frontiers_through(frontiers, front, entries, account);
        let after = frontiers_through(frontiers, slots, entries);
        if slots[n].account == account && settled_block(entries[slots[n]]) is Some {
            assert(after[account] == settled_block(entries[slots[n]])->0);
        } else if exists|i: int|
            0 <= i < front.len() && (#[trigger] front[i]).account == account && settled_block(entries[front[i]]) is Some {
            let i = choose|i: int|
                {
                    &&& 0 <= i < front.len()
                    &&& (#[trigger] front[i]).account == account
                    &&& settled_block(entries[front[i]]) is Some
                    &&& frontiers_through(frontiers, front, entries).contains_key(account)
                    &&& frontiers_through(frontiers, front, entries)[account] == settled_block(entries[front[i]])->0
                    &&& forall|j: int|
                        i < j < front.len() && (#[trigger] front[j]).account == account ==> settled_block(
                            entries[front[j]],
                        ) is None
                };
            assert(slots[i] == front[i]);
            assert forall|j: int| i < j < slots.len() && (#[trigger] slots[j]).account == account implies settled_block(
                entries[slots[j]],
            ) is None by {
                if j < n {
                    assert(front[j] == slots[j]);
                }
            }
        } else {
            assert forall|i: int| 0 <= i < slots.len() && (#[trigger] slots[i]).account == account implies settled_block(
                entries[slots[i]],
            ) is None by {
                if i < n {
                    assert(front[i] == slots[i]);
                }
            }
        }
    }
}

/// Accounts without a settled slot in the cut keep their frontier: the close
/// depends on nothing but the frontiers before it and its own entries.
pub proof fn untouched_accounts_keep_their_frontier(
    frontiers: Map<Account, BlockHash>,
    entries: Map<RaiSlot, RaiClosedSlotState>,
    account: Account,
)
    requires
        entries.dom().finite(),
        forall|slot: RaiSlot| #[trigger]
            entries.contains_key(slot) && slot.account == account ==> settled_block(entries[slot]) is None,
    ensures
        closed_frontiers(frontiers, entries).contains_key(account) == frontiers.contains_key(account),
        frontiers.contains_key(account) ==> closed_frontiers(frontiers, entries)[account] == frontiers[account],
{
    let slots = ascending(entries.dom());
    lemma_ascending(entries.dom());
    lemma_frontiers_through(frontiers, slots, entries, account);
    assert forall|i: int| 0 <= i < slots.len() && (#[trigger] slots[i]).account == account implies settled_block(
        entries[slots[i]],
    ) is None by {
        assert(entries.contains_key(slots[i]));
    }
}

/// The highest settled slot of an account is its frontier after the close.
pub proof fn highest_settled_slot_is_the_frontier(
    frontiers: Map<Account, BlockHash>,
    entries: Map<RaiSlot, RaiClosedSlotState>,
    slot: RaiSlot,
)
    requires
        entries.dom().finite(),
        entries.contains_key(slot),
        settled_block(entries[slot]) is Some,
        forall|other: RaiSlot| #[trigger]
            entries.contains_key(other) && other.account == slot.account && other.account_height > slot.account_height
                ==> settled_block(entries[other]) is None,
    ensures
        closed_frontiers(frontiers, entries).contains_key(slot.account),
        closed_frontiers(frontiers, entries)[slot.account] == settled_block(entries[slot])->0,
{
    let slots = ascending(entries.dom());
    lemma_ascending(entries.dom());
    let account = slot.account;
    lemma_frontiers_through(frontiers, slots, entries, account);
    assert(slots.contains(slot));
    let k = choose|k: int| 0 <= k < slots.len() && slots[k] == slot;
    assert(slots[k].account == account && settled_block(entries[slots[k]]) is Some);
    let after = closed_frontiers(frontiers, entries);
    let i = choose|i: int|
        {
            &&& 0 <= i < slots.len()
            &&& (#[trigger] slots[i]).account == account
            &&& settled_block(entries[slots[i]]) is Some
            &&& after.contains_key(account)
            &&& after[account] == settled_block(entries[slots[i]])->0
            &&& forall|j: int|
                i < j < slots.len() && (#[trigger] slots[j]).account == account ==> settled_block(entries[slots[j]]) is None
        };
    if i != k {
        assert(entries.contains_key(slots[i]));
        assert(k < i);
        assert(slots[k].rank() < slots[i].rank());
        slots[k].lemma_rank_within_account(slots[i]);
    }
}

impl CloseState<FrontierRecord> {
    /// The frontiers that an epoch builds on: those of the record that the epoch before it certified.
    pub open spec fn previous_frontiers(self, epoch: RaiEpoch) -> Map<Account, BlockHash> {
        if epoch == 0 {
            Map::empty()
        } else {
            let before = self.epoch((epoch - 1) as RaiEpoch);
            if before.close_hash is Some && before.records.contains_key(before.close_hash->0) {
                before.records[before.close_hash->0].record.frontiers
            } else {
                Map::empty()
            }
        }
    }

    /// The state with the record of a drained cut over given frontiers.
    pub open spec fn with_frontier_record(self, epoch: RaiEpoch, frontiers: Map<Account, BlockHash>) -> CloseState<
        FrontierRecord,
    > {
        let record = FrontierRecord { epoch, previous_close_hash: self.previous_hash(epoch)->0, frontiers };
        self.with_epoch(
            epoch,
            self.epoch(epoch).with_record(
                RaiFrontierRecord::digest(record),
                Package { record, entries: self.epoch(epoch).entries() },
            ),
        )
    }
}

impl RaiCloseState<RaiFrontierRecord> {
    /// The hash that names a cut.
    pub fn hash_close_cut(cut: &VisibleSlots) -> (r: BlockHash)
        ensures
            r == visible_hash(cut@),
    {
        RaiVisibilityTracker::hash_visible_slots(cut)
    }

    /// The record over entries that follows a close.
    pub fn close_record_from_entries(
        epoch: RaiEpoch,
        previous_close_hash: BlockHash,
        previous_frontiers: &RaiFrontiers,
        entries: &CloseRecordEntries,
    ) -> (r: RaiFrontierRecord)
        ensures
            r.deep_view() == (FrontierRecord {
                epoch,
                previous_close_hash,
                frontiers: closed_frontiers(previous_frontiers@, entries@),
            }),
    {
        RaiFrontierRecord { epoch, previous_close_hash, frontiers: close_frontiers(previous_frontiers, entries) }
    }

    fn previous_frontiers(&self, epoch: RaiEpoch) -> (r: RaiFrontiers)
        ensures
            r@ == self@.previous_frontiers(epoch),
    {
        if epoch > 0 {
            if let Some(hash) = self.certified_close_hash(epoch - 1) {
                if let Some(value) = self.close_record_value(epoch - 1, &hash) {
                    return value.record.frontiers.duplicate();
                }
            }
        }
        SortedMap::new()
    }

    /// Keeps the record of a drained cut over given frontiers under its hash.
    pub fn record_current_close_record_value_with_frontiers(&mut self, epoch: RaiEpoch, frontiers: RaiFrontiers) -> (r:
        Result<BlockHash, RaiEpochTransitionError>)
        ensures
            match r {
                Ok(hash) => {
                    &&& old(self)@.previous_hash(epoch) is Some
                    &&& old(self)@.epoch(epoch).entries_error() is None
                    &&& hash == RaiFrontierRecord::digest(
                        (FrontierRecord {
                            epoch,
                            previous_close_hash: old(self)@.previous_hash(epoch)->0,
                            frontiers: frontiers@,
                        }),
                    )
                    &&& final(self)@ == old(self)@.with_frontier_record(epoch, frontiers@)
                },
                Err(error) => {
                    &&& final(self)@ == old(self)@
                    &&& if old(self)@.previous_hash(epoch) is None {
                        error == RaiEpochTransitionError::CloseRecordMissing
                    } else {
                        old(self)@.epoch(epoch).entries_error() == Some(error)
                    }
                },
            },
    {
        let previous_close_hash = match self.previous_close_hash(epoch) {
            Ok(previous) => previous,
            Err(error) => return Err(error),
        };
        let state = self.copy_epoch(epoch);
        match state.current_close_record_entries() {
            Err(error) => Err(error),
            Ok(entries) => {
                let record = RaiFrontierRecord { epoch, previous_close_hash, frontiers };
                let hash = record.hash();
                self.cache_close_record_value(epoch, hash, record, entries);
                Ok(hash)
            },
        }
    }

    /// Keeps the record of a drained cut under its hash.
    pub fn record_current_close_record_value(&mut self, epoch: RaiEpoch) -> (r: Result<
        BlockHash,
        RaiEpochTransitionError,
    >)
        ensures
            ({
                let frontiers = closed_frontiers(
                    old(self)@.previous_frontiers(epoch),
                    old(self)@.epoch(epoch).entries(),
                );
                match r {
                    Ok(hash) => {
                        &&& old(self)@.previous_hash(epoch) is Some
                        &&& old(self)@.epoch(epoch).entries_error() is None
                        &&& hash == RaiFrontierRecord::digest(
                            (FrontierRecord {
                                epoch,
                                previous_close_hash: old(self)@.previous_hash(epoch)->0,
                                frontiers,
                            }),
                        )
                        &&& final(self)@ == old(self)@.with_frontier_record(epoch, frontiers)
                    },
                    Err(error) => {
                        &&& final(self)@ == old(self)@
                        &&& if old(self)@.previous_hash(epoch) is None {
                            error == RaiEpochTransitionError::CloseRecordMissing
                        } else {
                            old(self)@.epoch(epoch).entries_error() == Some(error)
                        }
                    },
                }
            }),
    {
        if let Err(error) = self.previous_close_hash(epoch) {
            return Err(error);
        }
        let previous = self.previous_frontiers(epoch);
        let state = self.copy_epoch(epoch);
        match state.current_close_record_entries() {
            Err(error) => Err(error),
            Ok(entries) => {
                let frontiers = close_frontiers(&previous, &entries);
                self.record_current_close_record_value_with_frontiers(epoch, frontiers)
            },
        }
    }
}

/// A finalized and a carried slot both settle their block, a released one settles none.
pub proof fn finalized_and_carried_slots_settle(hash: BlockHash)
    ensures
        settled_block(RaiClosedSlotState::Finalized(hash)) == Some(hash),
        settled_block(RaiClosedSlotState::Carry(hash)) == Some(hash),
        settled_block(RaiClosedSlotState::Released) is None,
{
}

/// An epoch starts from the frontiers that the record certified by the epoch before it
/// holds, and from none where there is no such record.
pub proof fn frontiers_are_handed_on(s: CloseState<FrontierRecord>, epoch: RaiEpoch, hash: BlockHash)
    requires
        epoch > 0,
    ensures
        s.previous_frontiers(0) == Map::<Account, BlockHash>::empty(),
        ({
            let before = (epoch - 1) as u64;
            &&& s.epochs.contains_key(before) && s.epochs[before].close_hash == Some(hash)
                && s.epochs[before].records.contains_key(hash) ==> s.previous_frontiers(epoch)
                == s.epochs[before].records[hash].record.frontiers
            &&& !s.epochs.contains_key(before) || s.epochs[before].close_hash is None ==> s.previous_frontiers(epoch)
                == Map::<Account, BlockHash>::empty()
        }),
{
}

proof fn lemma_account_layout(q: Seq<Account>, frontiers: Map<Account, BlockHash>, i: int)
    ensures
        account_bytes(q, frontiers).len() == 64 * q.len(),
        0 <= i < q.len() ==> {
            let all = account_bytes(q, frontiers);
            &&& all.subrange(64 * i, 64 * i + 32) == q[i].bytes()
            &&& all.subrange(64 * i + 32, 64 * i + 64) == frontiers[q[i]].bytes()
        },
    decreases q.len(),
{
    if q.len() > 0 {
        let front = q.drop_last();
        lemma_account_layout(front, frontiers, i);
        q.last().bytes_round_trip();
        frontiers[q.last()].bytes_round_trip();
        let all = account_bytes(q, frontiers);
        let before = account_bytes(front, frontiers);
        if 0 <= i < q.len() - 1 {
            assert(all.subrange(64 * i, 64 * i + 32) =~= before.subrange(64 * i, 64 * i + 32));
            assert(all.subrange(64 * i + 32, 64 * i + 64) =~= before.subrange(64 * i + 32, 64 * i + 64));
        } else if i == q.len() - 1 {
            assert(all.subrange(64 * i, 64 * i + 32) =~= q.last().bytes());
            assert(all.subrange(64 * i + 32, 64 * i + 64) =~= frontiers[q.last()].bytes());
        }
    }
}

/// The bytes of a frontier record: its tag, eight bytes with the epoch, the hash of the close
/// before, eight bytes with the number of accounts, then each account in ascending order with
/// its frontier.
pub proof fn frontier_record_layout(r: FrontierRecord, i: int)
    requires
        r.frontiers.dom().finite(),
    ensures
        ({
            let m = r.bytes();
            let t = text_bytes("rai close frontiers ");
            let n = t.len() as int;
            &&& m.len() == n + 48 + 64 * r.frontiers.len()
            &&& m.subrange(0, n) == t
            &&& m.subrange(n, n + 8) == be_bytes(r.epoch as nat, 8)
            &&& m.subrange(n + 8, n + 40) == r.previous_close_hash.bytes()
            &&& m.subrange(n + 40, n + 48) == be_bytes(r.frontiers.len(), 8)
            &&& 0 <= i < r.frontiers.len() ==> {
                let account = ascending(r.frontiers.dom())[i];
                let at = n + 48 + 64 * i;
                &&& m.subrange(at, at + 32) == account.bytes()
                &&& m.subrange(at + 32, at + 64) == r.frontiers[account].bytes()
            }
        }),
{
    let m = r.bytes();
    let t = text_bytes("rai close frontiers ");
    let n = t.len() as int;
    let q = ascending(r.frontiers.dom());
    lemma_ascending(r.frontiers.dom());
    lemma_account_layout(q, r.frontiers, i);
    lemma_be_bytes_len(r.epoch as nat, 8);
    lemma_be_bytes_len(r.frontiers.len(), 8);
    r.previous_close_hash.bytes_round_trip();
    let all = account_bytes(q, r.frontiers);
    assert(m.subrange(0, n) =~= t);
    assert(m.subrange(n, n + 8) =~= be_bytes(r.epoch as nat, 8));
    assert(m.subrange(n + 8, n + 40) =~= r.previous_close_hash.bytes());
    assert(m.subrange(n + 40, n + 48) =~= be_bytes(r.frontiers.len(), 8));
    if 0 <= i < r.frontiers.len() {
        let at = n + 48 + 64 * i;
        assert(m.subrange(at, at + 32) =~= all.subrange(64 * i, 64 * i + 32));
        assert(m.subrange(at + 32, at + 64) =~= all.subrange(64 * i + 32, 64 * i + 64));
    }
}

/// The record of an epoch's frontiers is kept under its hash, with the states of its cut, and
/// names the close before; a record that is kept already stays.
pub proof fn frontier_record_is_kept(
    s: CloseState<FrontierRecord>,
    epoch: RaiEpoch,
    frontiers: Map<Account, BlockHash>,
    previous: BlockHash,
    other: RaiEpoch,
)
    requires
        s.previous_hash(epoch) == Some(previous),
        other != epoch,
    ensures
        ({
            let record = FrontierRecord { epoch, previous_close_hash: previous, frontiers };
            let hash = RaiFrontierRecord::digest(record);
            let after = s.with_frontier_record(epoch, frontiers);
            &&& after.epoch(epoch).records.contains_key(hash)
            &&& !s.epoch(epoch).records.contains_key(hash) ==> after.epoch(epoch).records[hash].record == record
                && after.epoch(epoch).records[hash].entries == s.epoch(epoch).entries()
            &&& s.epoch(epoch).records.contains_key(hash) ==> after.epoch(epoch).records == s.epoch(epoch).records
            &&& after.epoch(other) == s.epoch(other)
            &&& after.current == s.current
        }),
{
}

}
