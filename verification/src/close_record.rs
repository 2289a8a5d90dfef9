//! The authenticated ledger frontier at an epoch boundary.
use vstd::prelude::*;

use crate::bytes::{
    be_bytes, lemma_be_bytes_injective, lemma_be_bytes_len, lemma_byte_spans, push_be, push_text, text_bytes,
};
use crate::digest::{blake2b_256, digest_hash};
use crate::ordered::{ascending, lemma_ascending, Duplicate, SortedMap};
use crate::types::{Account, BlockHash, ConfirmationHeightInfo, RaiEpoch};

verus! {

/// The confirmed tip of every account. Account ordering, integer byte order
/// and the entry count are consensus encoding rules.
pub type RaiFrontierMap = SortedMap<Account, ConfirmationHeightInfo>;

/// How an epoch closed.
pub struct RaiCloseRecord {
    pub epoch: RaiEpoch,
    pub previous: BlockHash,
    pub frontiers: RaiFrontierMap,
}

/// The model of a close record.
#[verifier::ext_equal]
pub struct CloseRecord {
    pub epoch: RaiEpoch,
    pub previous: BlockHash,
    pub frontiers: Map<Account, ConfirmationHeightInfo>,
}

impl DeepView for RaiCloseRecord {
    type V = CloseRecord;

    open spec fn deep_view(&self) -> CloseRecord {
        CloseRecord { epoch: self.epoch, previous: self.previous, frontiers: self.frontiers@ }
    }
}

impl Duplicate for RaiCloseRecord {
    fn duplicate(&self) -> (r: Self) {
        RaiCloseRecord {
            epoch: self.epoch,
            previous: self.previous,
            frontiers: self.frontiers.duplicate(),
        }
    }

    fn agrees(&self, other: &Self) -> (r: bool) {
        self.epoch == other.epoch && self.previous == other.previous && self.frontiers.agrees(&other.frontiers)
    }
}

/// Account, height and tip of one entry.
pub open spec fn frontier_bytes(account: Account, info: ConfirmationHeightInfo) -> Seq<u8> {
    account.bytes() + be_bytes(info.height as nat, 8) + info.frontier.bytes()
}

/// The entries of these accounts, one after the other.
pub open spec fn frontiers_bytes(
    accounts: Seq<Account>,
    frontiers: Map<Account, ConfirmationHeightInfo>,
) -> Seq<u8>
    decreases accounts.len(),
{
    if accounts.len() == 0 {
        Seq::empty()
    } else {
        frontiers_bytes(accounts.drop_last(), frontiers) + frontier_bytes(
            accounts.last(),
            frontiers[accounts.last()],
        )
    }
}

/// The map that the entries build in turn: the last entry of an account counts.
pub open spec fn collected(entries: Seq<(Account, ConfirmationHeightInfo)>) -> Map<Account, ConfirmationHeightInfo>
    decreases entries.len(),
{
    if entries.len() == 0 {
        Map::empty()
    } else {
        collected(entries.drop_last()).insert(entries.last().0, entries.last().1)
    }
}

impl CloseRecord {
    /// The consensus encoding of the record.
    pub open spec fn bytes(self) -> Seq<u8> {
        text_bytes("RAI/CloseRecord") + be_bytes(self.epoch.number as nat, 8) + self.previous.bytes()
            + be_bytes(self.frontiers.len(), 4) + frontiers_bytes(
            ascending(self.frontiers.dom()),
            self.frontiers,
        )
    }

    /// The hash that names the record.
    pub open spec fn hash(self) -> BlockHash {
        BlockHash::of_bytes(blake2b_256(self.bytes()))
    }
}

impl RaiCloseRecord {
    pub fn new(
        epoch: RaiEpoch,
        previous: BlockHash,
        frontiers: Vec<(Account, ConfirmationHeightInfo)>,
    ) -> (r: Self)
        ensures
            r.deep_view() == (CloseRecord { epoch, previous, frontiers: collected(frontiers@) }),
    {
        let mut map: RaiFrontierMap = SortedMap::new();
        for i in 0..frontiers.len()
            invariant
                map@ == collected(frontiers@.take(i as int)),
        {
            proof {
                assert(frontiers@.take(i + 1).drop_last() =~= frontiers@.take(i as int));
            }
            map.insert(frontiers[i].0, frontiers[i].1);
        }
        proof {
            assert(frontiers@.take(frontiers@.len() as int) =~= frontiers@);
        }
        RaiCloseRecord { epoch, previous, frontiers: map }
    }

    pub fn canonical_bytes(&self) -> (r: Vec<u8>)
        ensures
            r@ == self.deep_view().bytes(),
    {
        let n: usize = self.frontiers.len();
        let ghost accounts = ascending(self.frontiers@.dom());
        let mut bytes: Vec<u8> = Vec::new();
        push_text(&mut bytes, "RAI/CloseRecord");
        push_be(&mut bytes, self.epoch.number() as u128, 8);
        self.previous.push_bytes(&mut bytes);
        push_be(&mut bytes, n as u128, 4);
        let ghost head = bytes@;
        for i in 0..n
            invariant
                n == self.frontiers@.len(),
                n == accounts.len(),
                accounts == ascending(self.frontiers@.dom()),
                bytes@ == head + frontiers_bytes(accounts.take(i as int), self.frontiers@),
        {
            let account = self.frontiers.key_at(i);
            let info = self.frontiers.value_at(i);
            account.push_bytes(&mut bytes);
            push_be(&mut bytes, info.height as u128, 8);
            info.frontier.push_bytes(&mut bytes);
            proof {
                assert(accounts.take(i + 1).drop_last() =~= accounts.take(i as int));
                assert(bytes@ =~= head + frontiers_bytes(accounts.take(i + 1), self.frontiers@));
            }
        }
        proof {
            assert(accounts.take(n as int) =~= accounts);
            assert(bytes@ =~= self.deep_view().bytes());
        }
        bytes
    }

    pub fn hash(&self) -> (r: BlockHash)
        ensures
            r == self.deep_view().hash(),
    {
        digest_hash(&self.canonical_bytes())
    }
}

proof fn lemma_frontier_bytes(a: Account, x: ConfirmationHeightInfo, b: Account, y: ConfirmationHeightInfo)
    ensures
        frontier_bytes(a, x).len() == 72,
        frontier_bytes(a, x) == frontier_bytes(b, y) ==> a == b && x == y,
{
    a.bytes_round_trip();
    b.bytes_round_trip();
    x.frontier.bytes_round_trip();
    y.frontier.bytes_round_trip();
    lemma_byte_spans();
    lemma_be_bytes_len(x.height as nat, 8);
    lemma_be_bytes_len(y.height as nat, 8);
    let p = frontier_bytes(a, x);
    let q = frontier_bytes(b, y);
    if p == q {
        assert(p.subrange(0, 32) =~= a.bytes());
        assert(q.subrange(0, 32) =~= b.bytes());
        assert(p.subrange(32, 40) =~= be_bytes(x.height as nat, 8));
        assert(q.subrange(32, 40) =~= be_bytes(y.height as nat, 8));
        assert(p.subrange(40, 72) =~= x.frontier.bytes());
        assert(q.subrange(40, 72) =~= y.frontier.bytes());
        lemma_be_bytes_injective(x.height as nat, y.height as nat, 8);
    }
}

proof fn lemma_frontiers_bytes(
    a: Seq<Account>,
    m: Map<Account, ConfirmationHeightInfo>,
    b: Seq<Account>,
    n: Map<Account, ConfirmationHeightInfo>,
)
    requires
        a.len() == b.len(),
        frontiers_bytes(a, m) == frontiers_bytes(b, n),
    ensures
        a == b,
        forall|i: int| 0 <= i < a.len() ==> m[#[trigger] a[i]] == n[a[i]],
    decreases a.len(),
{
    if a.len() > 0 {
        let p = frontiers_bytes(a, m);
        let q = frontiers_bytes(b, n);
        lemma_frontier_bytes(a.last(), m[a.last()], b.last(), n[b.last()]);
        lemma_frontier_bytes(b.last(), n[b.last()], a.last(), m[a.last()]);
        let k = p.len() - 72;
        assert(p.subrange(0, k) =~= frontiers_bytes(a.drop_last(), m));
        assert(q.subrange(0, k) =~= frontiers_bytes(b.drop_last(), n));
        assert(p.subrange(k, p.len() as int) =~= frontier_bytes(a.last(), m[a.last()]));
        assert(q.subrange(k, q.len() as int) =~= frontier_bytes(b.last(), n[b.last()]));
        lemma_frontiers_bytes(a.drop_last(), m, b.drop_last(), n);
        assert(a =~= a.drop_last().push(a.last()));
        assert(b =~= b.drop_last().push(b.last()));
        assert forall|i: int| 0 <= i < a.len() implies m[#[trigger] a[i]] == n[a[i]] by {
            if i < a.len() - 1 {
                assert(a.drop_last()[i] == a[i]);
            }
        }
    } else {
        assert(a =~= b);
    }
}

/// The encoding is canonical: records with the same bytes are the same record,
/// as long as the entry count fits its field.
pub proof fn canonical_bytes_identify_record(a: CloseRecord, b: CloseRecord)
    requires
        a.frontiers.dom().finite(),
        b.frontiers.dom().finite(),
        a.frontiers.len() <= u32::MAX,
        b.frontiers.len() <= u32::MAX,
        a.bytes() == b.bytes(),
    ensures
        a == b,
{
    let p = a.bytes();
    let q = b.bytes();
    let d = text_bytes("RAI/CloseRecord").len() as int;
    lemma_byte_spans();
    lemma_be_bytes_len(a.epoch.number as nat, 8);
    lemma_be_bytes_len(b.epoch.number as nat, 8);
    lemma_be_bytes_len(a.frontiers.len(), 4);
    lemma_be_bytes_len(b.frontiers.len(), 4);
    a.previous.bytes_round_trip();
    b.previous.bytes_round_trip();
    lemma_ascending(a.frontiers.dom());
    lemma_ascending(b.frontiers.dom());
    assert(p.subrange(d, d + 8) =~= be_bytes(a.epoch.number as nat, 8));
    assert(q.subrange(d, d + 8) =~= be_bytes(b.epoch.number as nat, 8));
    lemma_be_bytes_injective(a.epoch.number as nat, b.epoch.number as nat, 8);
    assert(p.subrange(d + 8, d + 40) =~= a.previous.bytes());
    assert(q.subrange(d + 8, d + 40) =~= b.previous.bytes());
    assert(p.subrange(d + 40, d + 44) =~= be_bytes(a.frontiers.len(), 4));
    assert(q.subrange(d + 40, d + 44) =~= be_bytes(b.frontiers.len(), 4));
    lemma_be_bytes_injective(a.frontiers.len(), b.frontiers.len(), 4);
    let x = ascending(a.frontiers.dom());
    let y = ascending(b.frontiers.dom());
    assert(p.subrange(d + 44, p.len() as int) =~= frontiers_bytes(x, a.frontiers));
    assert(q.subrange(d + 44, q.len() as int) =~= frontiers_bytes(y, b.frontiers));
    lemma_frontiers_bytes(x, a.frontiers, y, b.frontiers);
    assert(a.frontiers.dom() =~= b.frontiers.dom());
    assert forall|k: Account| a.frontiers.contains_key(k) implies a.frontiers[k] == b.frontiers[k] by {
        assert(x.contains(k));
        let i = choose|i: int| 0 <= i < x.len() && x[i] == k;
        assert(a.frontiers[x[i]] == b.frontiers[x[i]]);
    }
    assert(a.frontiers =~= b.frontiers);
}

/// Close records by their hash. A hash only ever names the record it is the hash of.
pub struct RaiCloseRecordStore {
    records: SortedMap<BlockHash, RaiCloseRecord>,
}

impl View for RaiCloseRecordStore {
    type V = Map<BlockHash, CloseRecord>;

    closed spec fn view(&self) -> Map<BlockHash, CloseRecord> {
        self.records@
    }
}

impl DeepView for RaiCloseRecordStore {
    type V = Map<BlockHash, CloseRecord>;

    open spec fn deep_view(&self) -> Map<BlockHash, CloseRecord> {
        self.view()
    }
}

/// Every hash names the record it is the hash of.
pub open spec fn names_records(records: Map<BlockHash, CloseRecord>) -> bool {
    forall|hash: BlockHash| #[trigger] records.contains_key(hash) ==> records[hash].hash() == hash
}

impl Default for RaiCloseRecordStore {
    fn default() -> (r: Self)
        ensures
            r@ == Map::<BlockHash, CloseRecord>::empty(),
    {
        RaiCloseRecordStore { records: SortedMap::new() }
    }
}

impl RaiCloseRecordStore {
    #[verifier::type_invariant]
    spec fn well_formed(&self) -> bool {
        names_records(self.records@)
    }

    /// Stores a record under its hash, unless the hash is taken.
    pub fn insert(&mut self, record: RaiCloseRecord) -> (r: BlockHash)
        ensures
            r == record.deep_view().hash(),
            final(self)@ == if old(self)@.contains_key(r) {
                old(self)@
            } else {
                old(self)@.insert(r, record.deep_view())
            },
    {
        let hash = record.hash();
        proof {
            use_type_invariant(&*self);
        }
        if !self.records.contains_key(&hash) {
            let mut records: SortedMap<BlockHash, RaiCloseRecord> = SortedMap::new();
            core::mem::swap(&mut records, &mut self.records);
            records.insert(hash, record);
            self.records = records;
        }
        hash
    }

    pub fn get(&self, hash: &BlockHash) -> (r: Option<&RaiCloseRecord>)
        ensures
            match r {
                Some(record) => self@.contains_key(*hash) && record.deep_view() == self@[*hash]
                    && record.deep_view().hash() == *hash,
                None => !self@.contains_key(*hash),
            },
    {
        proof {
            use_type_invariant(self);
        }
        self.records.get(hash)
    }

    /// Every record, in the order of the hashes.
    pub fn all(&self) -> (r: Vec<RaiCloseRecord>)
        ensures
            r.deep_view() == ascending(self@.dom()).map_values(|hash: BlockHash| self@[hash]),
            self@.dom().finite(),
            names_records(self@),
    {
        proof {
            use_type_invariant(self);
        }
        let mut all: Vec<RaiCloseRecord> = Vec::new();
        let n: usize = self.records.len();
        for i in 0..n
            invariant
                n == self.records@.len(),
                n == ascending(self.records@.dom()).len(),
                all@.len() == i,
                forall|j: int|
                    0 <= j < i ==> (#[trigger] all@[j]).deep_view() == self.records@[ascending(
                        self.records@.dom(),
                    )[j]],
        {
            all.push(self.records.value_at(i).duplicate());
        }
        proof {
            assert(all.deep_view() =~= ascending(self@.dom()).map_values(|hash: BlockHash| self@[hash]));
        }
        all
    }
}

impl Duplicate for RaiCloseRecordStore {
    fn duplicate(&self) -> (r: Self) {
        proof {
            use_type_invariant(self);
        }
        RaiCloseRecordStore { records: self.records.duplicate() }
    }

    fn agrees(&self, other: &Self) -> (r: bool) {
        self.records.agrees(&other.records)
    }
}

proof fn lemma_frontiers_layout(q: Seq<Account>, frontiers: Map<Account, ConfirmationHeightInfo>, i: int)
    ensures
        frontiers_bytes(q, frontiers).len() == 72 * q.len(),
        0 <= i < q.len() ==> {
            let all = frontiers_bytes(q, frontiers);
            &&& all.subrange(72 * i, 72 * i + 32) == q[i].bytes()
            &&& all.subrange(72 * i + 32, 72 * i + 40) == be_bytes(frontiers[q[i]].height as nat, 8)
            &&& all.subrange(72 * i + 40, 72 * i + 72) == frontiers[q[i]].frontier.bytes()
        },
    decreases q.len(),
{
    if q.len() > 0 {
        let front = q.drop_last();
        lemma_frontiers_layout(front, frontiers, i);
        let info = frontiers[q.last()];
        q.last().bytes_round_trip();
        info.frontier.bytes_round_trip();
        lemma_be_bytes_len(info.height as nat, 8);
        let all = frontiers_bytes(q, frontiers);
        let before = frontiers_bytes(front, frontiers);
        if 0 <= i < q.len() - 1 {
            assert(all.subrange(72 * i, 72 * i + 32) =~= before.subrange(72 * i, 72 * i + 32));
            assert(all.subrange(72 * i + 32, 72 * i + 40) =~= before.subrange(72 * i + 32, 72 * i + 40));
            assert(all.subrange(72 * i + 40, 72 * i + 72) =~= before.subrange(72 * i + 40, 72 * i + 72));
        } else if i == q.len() - 1 {
            assert(all.subrange(72 * i, 72 * i + 32) =~= q.last().bytes());
            assert(all.subrange(72 * i + 32, 72 * i + 40) =~= be_bytes(info.height as nat, 8));
            assert(all.subrange(72 * i + 40, 72 * i + 72) =~= info.frontier.bytes());
        }
    }
}

/// The bytes of a record: its tag, eight bytes with the epoch, the hash of the close before,
/// four bytes with the number of accounts, then for each account in ascending order the
/// account, its height in eight bytes, and its frontier.
pub proof fn record_layout(r: CloseRecord, i: int)
    requires
        r.frontiers.dom().finite(),
    ensures
        ({
            let m = r.bytes();
            let t = text_bytes("RAI/CloseRecord");
            let n = t.len() as int;
            &&& m.len() == n + 44 + 72 * r.frontiers.len()
            &&& m.subrange(0, n) == t
            &&& m.subrange(n, n + 8) == be_bytes(r.epoch.number as nat, 8)
            &&& m.subrange(n + 8, n + 40) == r.previous.bytes()
            &&& m.subrange(n + 40, n + 44) == be_bytes(r.frontiers.len(), 4)
            &&& 0 <= i < r.frontiers.len() ==> {
                let account = ascending(r.frontiers.dom())[i];
                let at = n + 44 + 72 * i;
                &&& m.subrange(at, at + 32) == account.bytes()
                &&& m.subrange(at + 32, at + 40) == be_bytes(r.frontiers[account].height as nat, 8)
                &&& m.subrange(at + 40, at + 72) == r.frontiers[account].frontier.bytes()
            }
        }),
{
    let m = r.bytes();
    let t = text_bytes("RAI/CloseRecord");
    let n = t.len() as int;
    let q = ascending(r.frontiers.dom());
    lemma_ascending(r.frontiers.dom());
    lemma_frontiers_layout(q, r.frontiers, i);
    lemma_be_bytes_len(r.epoch.number as nat, 8);
    lemma_be_bytes_len(r.frontiers.len(), 4);
    r.previous.bytes_round_trip();
    let all = frontiers_bytes(q, r.frontiers);
    assert(m.subrange(0, n) =~= t);
    assert(m.subrange(n, n + 8) =~= be_bytes(r.epoch.number as nat, 8));
    assert(m.subrange(n + 8, n + 40) =~= r.previous.bytes());
    assert(m.subrange(n + 40, n + 44) =~= be_bytes(r.frontiers.len(), 4));
    if 0 <= i < r.frontiers.len() {
        let at = n + 44 + 72 * i;
        assert(m.subrange(at, at + 32) =~= all.subrange(72 * i, 72 * i + 32));
        assert(m.subrange(at + 32, at + 40) =~= all.subrange(72 * i + 32, 72 * i + 40));
        assert(m.subrange(at + 40, at + 72) =~= all.subrange(72 * i + 40, 72 * i + 72));
    }
}

/// Of several entries for an account the last one is collected, and every account that is
/// listed is.
pub proof fn last_entry_is_collected(entries: Seq<(Account, ConfirmationHeightInfo)>, account: Account)
    ensures
        collected(entries).contains_key(account) ==> exists|i: int|
            0 <= i < entries.len() && (#[trigger] entries[i]).0 == account && entries[i].1 == collected(entries)[account]
                && forall|j: int| i < j < entries.len() ==> (#[trigger] entries[j]).0 != account,
        !collected(entries).contains_key(account) ==> forall|i: int|
            0 <= i < entries.len() ==> (#[trigger] entries[i]).0 != account,
    decreases entries.len(),
{
    if entries.len() > 0 {
        let front = entries.drop_last();
        let n = entries.len() - 1;
        last_entry_is_collected(front, account);
        assert forall|i: int| 0 <= i < n implies #[trigger] front[i] == entries[i] by {
        }
        assert forall|i: int| 0 <= i < n implies #[trigger] entries[i] == front[i] by {
        }
        if entries[n].0 == account {
        } else if collected(front).contains_key(account) {
            let i = choose|i: int|
                0 <= i < front.len() && (#[trigger] front[i]).0 == account && front[i].1 == collected(front)[account] && forall|
                    j: int,
                | i < j < front.len() ==> (#[trigger] front[j]).0 != account;
            assert(entries[i] == front[i]);
        }
    }
}

}
