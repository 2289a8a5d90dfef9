//! What a node commits to when it reports how an epoch ended.
use vstd::prelude::*;

use crate::bytes::{be_bytes, lemma_be_bytes_injective, lemma_be_bytes_len, lemma_byte_spans, push_be, push_text, text_bytes};
use crate::digest::{blake2b_256, digest_hash};
use crate::ordered::{
    ascending, lemma_ascending, sorted_map_is_finite, sorted_set_is_finite, Duplicate, Key, Pair, SortedMap,
    SortedSet,
};
use crate::types::BlockHash;
use crate::vote_gate::SlotRoot;

verus! {

broadcast use {sorted_map_is_finite, sorted_set_is_finite};

/// A candidate that can no longer win: `dependency` lost against `winner`.
#[derive(Clone, Copy, Debug, PartialEq, Eq, PartialOrd, Ord, Hash, Structural)]
pub struct DependencyDeath {
    pub candidate: BlockHash,
    pub dependency: BlockHash,
    pub winner: BlockHash,
}

impl Key for DependencyDeath {
    open spec fn rank(self) -> int {
        Pair(self.candidate, Pair(self.dependency, self.winner)).rank()
    }

    open spec fn span() -> int {
        Pair::<BlockHash, Pair<BlockHash, BlockHash>>::span()
    }

    proof fn rank_in_span(self) {
        Pair(self.candidate, Pair(self.dependency, self.winner)).rank_in_span();
    }

    proof fn rank_is_injective(a: Self, b: Self) {
        Pair::<BlockHash, Pair<BlockHash, BlockHash>>::rank_is_injective(Pair(a.candidate, Pair(a.dependency, a.winner)), Pair(b.candidate, Pair(b.dependency, b.winner)));
    }

    fn precedes(&self, other: &Self) -> (r: bool) {
        Pair(self.candidate, Pair(self.dependency, self.winner)).precedes(&Pair(other.candidate, Pair(other.dependency, other.winner)))
    }
}

impl DependencyDeath {
    pub open spec fn bytes(self) -> Seq<u8> {
        self.candidate.bytes() + self.dependency.bytes() + self.winner.bytes()
    }

    /// The bytes identify the three blocks.
    pub proof fn bytes_round_trip(self)
        ensures
            self.bytes().len() == 96,
            BlockHash::of_bytes(self.bytes().subrange(0, 32)) == self.candidate,
            BlockHash::of_bytes(self.bytes().subrange(32, 64)) == self.dependency,
            BlockHash::of_bytes(self.bytes().subrange(64, 96)) == self.winner,
    {
        self.candidate.bytes_round_trip();
        self.dependency.bytes_round_trip();
        self.winner.bytes_round_trip();
        assert(self.bytes().subrange(0, 32) =~= self.candidate.bytes());
        assert(self.bytes().subrange(32, 64) =~= self.dependency.bytes());
        assert(self.bytes().subrange(64, 96) =~= self.winner.bytes());
    }
}

impl SlotRoot {
    pub open spec fn bytes(self) -> Seq<u8> {
        self.root.bytes() + self.previous.bytes()
    }
}

/// The bytes of hashes, one after the other.
pub open spec fn hashes_bytes(q: Seq<BlockHash>) -> Seq<u8>
    decreases q.len(),
{
    if q.len() == 0 {
        Seq::empty()
    } else {
        hashes_bytes(q.drop_last()) + q.last().bytes()
    }
}

/// The bytes of dead candidates, one after the other.
pub open spec fn deaths_bytes(q: Seq<DependencyDeath>) -> Seq<u8>
    decreases q.len(),
{
    if q.len() == 0 {
        Seq::empty()
    } else {
        deaths_bytes(q.drop_last()) + q.last().bytes()
    }
}

/// The bytes of slots, one after the other.
pub open spec fn slots_bytes(q: Seq<SlotRoot>) -> Seq<u8>
    decreases q.len(),
{
    if q.len() == 0 {
        Seq::empty()
    } else {
        slots_bytes(q.drop_last()) + q.last().bytes()
    }
}

/// The hash of a message.
pub open spec fn hash_of(message: Seq<u8>) -> BlockHash {
    BlockHash::of_bytes(blake2b_256(message))
}

/// What is hashed of the blocks that an epoch finalizes.
pub open spec fn finalized_message(epoch: u64, hashes: Set<BlockHash>) -> Seq<u8> {
    text_bytes("RAI/FINALIZED_BLOCKS/v1") + be_bytes(epoch as nat, 8) + be_bytes(hashes.len(), 8) + hashes_bytes(
        ascending(hashes),
    )
}

/// What is hashed of the finalized blocks and the candidates that died.
pub open spec fn death_close_message(finalized: BlockHash, deaths: Set<DependencyDeath>) -> Seq<u8> {
    text_bytes("RAI/DEPENDENCY_DEATH_CLOSE/v1") + finalized.bytes() + be_bytes(deaths.len(), 8) + deaths_bytes(
        ascending(deaths),
    )
}

/// What is hashed of how the elections of the cut ended.
pub open spec fn cut_outcomes_message(winners: Set<BlockHash>, deaths: Set<DependencyDeath>) -> Seq<u8> {
    text_bytes("RAI/CUT_OUTCOMES/v1") + be_bytes(winners.len(), 8) + hashes_bytes(ascending(winners)) + be_bytes(
        deaths.len(),
        8,
    ) + deaths_bytes(ascending(deaths))
}

/// What is hashed of all blocks of a closure.
pub open spec fn cut_closure_message(hashes: Set<BlockHash>) -> Seq<u8> {
    text_bytes("RAI/CUT_CLOSURE/v1") + hashes_bytes(ascending(hashes))
}

/// What is hashed of the slots of a cut.
pub open spec fn cut_slots_message(cut: Set<SlotRoot>) -> Seq<u8> {
    text_bytes("RAI/CUT_SLOTS/v1") + slots_bytes(ascending(cut))
}

/// The blocks of the slots that belong to the cut.
pub open spec fn winners_of(finalized: Map<SlotRoot, BlockHash>, cut: Set<SlotRoot>) -> Set<BlockHash> {
    Set::new(
        |h: BlockHash|
            exists|slot: SlotRoot| #[trigger] finalized.contains_key(slot) && cut.contains(slot) && finalized[slot] == h,
    )
}

/// How an epoch ends: what it finalizes and which candidates of the cut died.
pub struct CompleteClosure {
    pub finalized: SortedMap<SlotRoot, BlockHash>,
    pub dependency_deaths: SortedSet<DependencyDeath>,
    pub cut_winners: SortedSet<BlockHash>,
    pub cut_winners_hash: BlockHash,
    pub closure_hash: BlockHash,
}

/// The model of the end of an epoch.
#[verifier::ext_equal]
pub struct EpochEnd {
    pub finalized: Map<SlotRoot, BlockHash>,
    pub dependency_deaths: Set<DependencyDeath>,
    pub cut_winners: Set<BlockHash>,
    pub cut_winners_hash: BlockHash,
    pub closure_hash: BlockHash,
}

impl DeepView for CompleteClosure {
    type V = EpochEnd;

    open spec fn deep_view(&self) -> EpochEnd {
        EpochEnd {
            finalized: self.finalized@,
            dependency_deaths: self.dependency_deaths@,
            cut_winners: self.cut_winners@,
            cut_winners_hash: self.cut_winners_hash,
            closure_hash: self.closure_hash,
        }
    }
}

impl Duplicate for CompleteClosure {
    fn duplicate(&self) -> (r: Self) {
        CompleteClosure {
            finalized: self.finalized.duplicate(),
            dependency_deaths: self.dependency_deaths.duplicate(),
            cut_winners: self.cut_winners.duplicate(),
            cut_winners_hash: self.cut_winners_hash,
            closure_hash: self.closure_hash,
        }
    }

    fn agrees(&self, other: &Self) -> (r: bool) {
        self.finalized.agrees(&other.finalized) && self.dependency_deaths.agrees(&other.dependency_deaths)
            && self.cut_winners.agrees(&other.cut_winners) && self.cut_winners_hash == other.cut_winners_hash
            && self.closure_hash == other.closure_hash
    }
}

/// What a node reports of how an epoch ended.
#[derive(Clone, Copy, Debug, PartialEq, Eq, Structural)]
pub struct Commitment {
    pub hash: BlockHash,
    /// How many of the finalized slots are not in the cut.
    pub non_cut_count: u64,
    /// How many blocks are finalized.
    pub size: usize,
}

impl EpochEnd {
    /// The end of an epoch that finalizes these blocks.
    pub open spec fn of(
        finalized: Map<SlotRoot, BlockHash>,
        dependency_deaths: Set<DependencyDeath>,
        cut: Set<SlotRoot>,
    ) -> EpochEnd {
        let cut_winners = winners_of(finalized, cut);
        EpochEnd {
            finalized,
            dependency_deaths,
            cut_winners,
            cut_winners_hash: hash_of(cut_outcomes_message(cut_winners, dependency_deaths)),
            closure_hash: hash_of(cut_closure_message(finalized.values())),
        }
    }

    /// What a node commits to.
    pub open spec fn commitment(self, epoch: u64, cut: Set<SlotRoot>) -> Commitment {
        let plain = finalization_of(epoch, cut, self.finalized);
        if self.dependency_deaths == Set::<DependencyDeath>::empty() {
            plain
        } else {
            Commitment { hash: hash_of(death_close_message(plain.hash, self.dependency_deaths)), ..plain }
        }
    }
}

/// What a node commits to where no candidate of the cut died.
pub open spec fn finalization_of(epoch: u64, cut: Set<SlotRoot>, finalized: Map<SlotRoot, BlockHash>) -> Commitment {
    Commitment {
        hash: hash_of(finalized_message(epoch, finalized.values())),
        non_cut_count: finalized.dom().difference(cut).len() as u64,
        size: finalized.values().len() as usize,
    }
}

fn push_hashes(out: &mut Vec<u8>, members: &SortedSet<BlockHash>)
    ensures
        final(out)@ == old(out)@ + hashes_bytes(ascending(members@)),
{
    let items = members.to_vec();
    for i in 0..items.len()
        invariant
            items@ == ascending(members@),
            out@ == old(out)@ + hashes_bytes(items@.take(i as int)),
    {
        let item = items[i];
        item.push_bytes(out);
        proof {
            assert(items@.take(i + 1).drop_last() =~= items@.take(i as int));
            assert(out@ =~= old(out)@ + hashes_bytes(items@.take(i + 1)));
        }
    }
    proof {
        assert(items@.take(items@.len() as int) =~= items@);
    }
}

fn push_deaths(out: &mut Vec<u8>, members: &SortedSet<DependencyDeath>)
    ensures
        final(out)@ == old(out)@ + deaths_bytes(ascending(members@)),
{
    let items = members.to_vec();
    for i in 0..items.len()
        invariant
            items@ == ascending(members@),
            out@ == old(out)@ + deaths_bytes(items@.take(i as int)),
    {
        let item = items[i];
        let ghost before = out@;
        item.candidate.push_bytes(out);
        item.dependency.push_bytes(out);
        item.winner.push_bytes(out);
        proof {
            assert(out@ =~= before + item.bytes());
        }
        proof {
            assert(items@.take(i + 1).drop_last() =~= items@.take(i as int));
            assert(out@ =~= old(out)@ + deaths_bytes(items@.take(i + 1)));
        }
    }
    proof {
        assert(items@.take(items@.len() as int) =~= items@);
    }
}

fn push_slots(out: &mut Vec<u8>, members: &SortedSet<SlotRoot>)
    ensures
        final(out)@ == old(out)@ + slots_bytes(ascending(members@)),
{
    let items = members.to_vec();
    for i in 0..items.len()
        invariant
            items@ == ascending(members@),
            out@ == old(out)@ + slots_bytes(items@.take(i as int)),
    {
        let item = items[i];
        let ghost before = out@;
        item.root.push_bytes(out);
        item.previous.push_bytes(out);
        proof {
            assert(out@ =~= before + item.bytes());
        }
        proof {
            assert(items@.take(i + 1).drop_last() =~= items@.take(i as int));
            assert(out@ =~= old(out)@ + slots_bytes(items@.take(i + 1)));
        }
    }
    proof {
        assert(items@.take(items@.len() as int) =~= items@);
    }
}

/// The hash of the slots of a cut.
pub fn cut_slots_hash(cut: &SortedSet<SlotRoot>) -> (r: BlockHash)
    ensures
        r == hash_of(cut_slots_message(cut@)),
{
    let mut out: Vec<u8> = Vec::new();
    push_text(&mut out, "RAI/CUT_SLOTS/v1");
    push_slots(&mut out, cut);
    proof {
        assert(out@ =~= cut_slots_message(cut@));
    }
    digest_hash(&out)
}

/// What a node commits to where no candidate of the cut died.
pub fn local_finalization(epoch: u64, cut: &SortedSet<SlotRoot>, finalized: &SortedMap<SlotRoot, BlockHash>) -> (r: Commitment)
    ensures
        r == finalization_of(epoch, cut@, finalized@),
        r.non_cut_count == finalized@.dom().difference(cut@).len(),
        r.size == finalized@.values().len(),
{
    let hashes = finalized.value_set();
    let size: usize = hashes.len();
    let outside = finalized.key_set().difference(cut);
    let non_cut_count: u64 = outside.len() as u64;
    let mut out: Vec<u8> = Vec::new();
    push_text(&mut out, "RAI/FINALIZED_BLOCKS/v1");
    push_be(&mut out, epoch as u128, 8);
    push_be(&mut out, size as u128, 8);
    push_hashes(&mut out, &hashes);
    proof {
        assert(out@ =~= finalized_message(epoch, finalized@.values()));
    }
    Commitment { hash: digest_hash(&out), non_cut_count, size }
}

/// What a node commits to.
pub fn closure_commitment(epoch: u64, cut: &SortedSet<SlotRoot>, closure: &CompleteClosure) -> (r: Commitment)
    ensures
        r == closure.deep_view().commitment(epoch, cut@),
        r.non_cut_count == closure.finalized@.dom().difference(cut@).len(),
        r.size == closure.finalized@.values().len(),
{
    let plain = local_finalization(epoch, cut, &closure.finalized);
    if closure.dependency_deaths.is_empty() {
        return plain;
    }
    let mut out: Vec<u8> = Vec::new();
    push_text(&mut out, "RAI/DEPENDENCY_DEATH_CLOSE/v1");
    plain.hash.push_bytes(&mut out);
    push_be(&mut out, closure.dependency_deaths.len() as u128, 8);
    push_deaths(&mut out, &closure.dependency_deaths);
    proof {
        assert(out@ =~= death_close_message(plain.hash, closure.dependency_deaths@));
    }
    Commitment { hash: digest_hash(&out), non_cut_count: plain.non_cut_count, size: plain.size }
}

impl CompleteClosure {
    /// The end of an epoch that finalizes these blocks.
    pub fn new(
        finalized: SortedMap<SlotRoot, BlockHash>,
        dependency_deaths: SortedSet<DependencyDeath>,
        cut: &SortedSet<SlotRoot>,
    ) -> (r: Self)
        ensures
            r.deep_view() == EpochEnd::of(finalized@, dependency_deaths@, cut@),
    {
        let mut cut_winners: SortedSet<BlockHash> = SortedSet::new();
        let count: usize = finalized.len();
        let ghost q = ascending(finalized@.dom());
        for i in 0..count
            invariant
                count == finalized@.len(),
                q == ascending(finalized@.dom()),
                q.len() == count,
                forall|h: BlockHash|
                    cut_winners@.contains(h) == exists|j: int|
                        0 <= j < i && cut@.contains(#[trigger] q[j]) && finalized@[q[j]] == h,
        {
            let slot = finalized.key_at(i);
            let hash = *finalized.value_at(i);
            let ghost before = cut_winners@;
            if cut.contains(&slot) {
                cut_winners.insert(hash);
            }
            proof {
                assert(q[i as int] == slot);
                assert forall|h: BlockHash|
                    cut_winners@.contains(h) == exists|j: int|
                        0 <= j < i + 1 && cut@.contains(#[trigger] q[j]) && finalized@[q[j]] == h by {
                    if before.contains(h) {
                        let j = choose|j: int| 0 <= j < i && cut@.contains(#[trigger] q[j]) && finalized@[q[j]] == h;
                        assert(cut@.contains(q[j]));
                    }
                }
            }
        }
        proof {
            lemma_ascending(finalized@.dom());
            let winners = winners_of(finalized@, cut@);
            assert forall|h: BlockHash| cut_winners@.contains(h) == winners.contains(h) by {
                if cut_winners@.contains(h) {
                    let j = choose|j: int| 0 <= j < count && cut@.contains(#[trigger] q[j]) && finalized@[q[j]] == h;
                    assert(q.contains(q[j]));
                    assert(finalized@.contains_key(q[j]));
                }
                if winners.contains(h) {
                    let slot = choose|slot: SlotRoot| #[trigger]
                        finalized@.contains_key(slot) && cut@.contains(slot) && finalized@[slot] == h;
                    assert(q.contains(slot));
                    let j = choose|j: int| 0 <= j < q.len() && q[j] == slot;
                    assert(cut@.contains(q[j]));
                }
            }
            assert(cut_winners@ =~= winners);
        }
        let mut out: Vec<u8> = Vec::new();
        push_text(&mut out, "RAI/CUT_OUTCOMES/v1");
        push_be(&mut out, cut_winners.len() as u128, 8);
        push_hashes(&mut out, &cut_winners);
        push_be(&mut out, dependency_deaths.len() as u128, 8);
        push_deaths(&mut out, &dependency_deaths);
        proof {
            assert(out@ =~= cut_outcomes_message(cut_winners@, dependency_deaths@));
        }
        let cut_winners_hash = digest_hash(&out);
        let hashes = finalized.value_set();
        let mut all: Vec<u8> = Vec::new();
        push_text(&mut all, "RAI/CUT_CLOSURE/v1");
        push_hashes(&mut all, &hashes);
        proof {
            assert(all@ =~= cut_closure_message(finalized@.values()));
        }
        let closure_hash = digest_hash(&all);
        CompleteClosure { finalized, dependency_deaths, cut_winners, cut_winners_hash, closure_hash }
    }
}

proof fn lemma_hashes_injective(a: Seq<BlockHash>, b: Seq<BlockHash>)
    requires
        a.len() == b.len(),
        hashes_bytes(a) == hashes_bytes(b),
    ensures
        a == b,
    decreases a.len(),
{
    lemma_hashes_bytes_len(a);
    lemma_hashes_bytes_len(b);
    if a.len() > 0 {
        let (x, y) = (hashes_bytes(a), hashes_bytes(b));
        let n = 32 * (a.len() - 1);
        lemma_hashes_bytes_len(a.drop_last());
        lemma_hashes_bytes_len(b.drop_last());
        a.last().bytes_round_trip();
        b.last().bytes_round_trip();
        assert(a.last().bytes() =~= x.skip(n));
        assert(b.last().bytes() =~= y.skip(n));
        assert(hashes_bytes(a.drop_last()) =~= x.take(n));
        assert(hashes_bytes(b.drop_last()) =~= y.take(n));
        lemma_hashes_injective(a.drop_last(), b.drop_last());
        assert(a =~= a.drop_last().push(a.last()));
        assert(b =~= b.drop_last().push(b.last()));
    } else {
        assert(a =~= b);
    }
}

proof fn lemma_hashes_bytes_len(q: Seq<BlockHash>)
    ensures
        hashes_bytes(q).len() == 32 * q.len(),
    decreases q.len(),
{
    if q.len() > 0 {
        lemma_hashes_bytes_len(q.drop_last());
        q.last().bytes_round_trip();
    }
}

proof fn lemma_deaths_injective(a: Seq<DependencyDeath>, b: Seq<DependencyDeath>)
    requires
        a.len() == b.len(),
        deaths_bytes(a) == deaths_bytes(b),
    ensures
        a == b,
    decreases a.len(),
{
    lemma_deaths_bytes_len(a);
    lemma_deaths_bytes_len(b);
    if a.len() > 0 {
        let (x, y) = (deaths_bytes(a), deaths_bytes(b));
        let n = 96 * (a.len() - 1);
        lemma_deaths_bytes_len(a.drop_last());
        lemma_deaths_bytes_len(b.drop_last());
        a.last().bytes_round_trip();
        b.last().bytes_round_trip();
        assert(a.last().bytes() =~= x.skip(n));
        assert(b.last().bytes() =~= y.skip(n));
        assert(deaths_bytes(a.drop_last()) =~= x.take(n));
        assert(deaths_bytes(b.drop_last()) =~= y.take(n));
        lemma_deaths_injective(a.drop_last(), b.drop_last());
        assert(a =~= a.drop_last().push(a.last()));
        assert(b =~= b.drop_last().push(b.last()));
    } else {
        assert(a =~= b);
    }
}

proof fn lemma_deaths_bytes_len(q: Seq<DependencyDeath>)
    ensures
        deaths_bytes(q).len() == 96 * q.len(),
    decreases q.len(),
{
    if q.len() > 0 {
        lemma_deaths_bytes_len(q.drop_last());
        q.last().bytes_round_trip();
    }
}

/// The message about the finalized blocks identifies the epoch and the blocks.
pub proof fn finalized_message_identifies_blocks(e: u64, a: Set<BlockHash>, f: u64, b: Set<BlockHash>)
    requires
        a.finite(),
        b.finite(),
        a.len() <= u64::MAX,
        b.len() <= u64::MAX,
        finalized_message(e, a) == finalized_message(f, b),
    ensures
        e == f,
        a == b,
{
    let (x, y) = (finalized_message(e, a), finalized_message(f, b));
    let n = text_bytes("RAI/FINALIZED_BLOCKS/v1").len() as int;
    lemma_byte_spans();
    lemma_be_bytes_len(e as nat, 8);
    lemma_be_bytes_len(f as nat, 8);
    lemma_be_bytes_len(a.len(), 8);
    lemma_be_bytes_len(b.len(), 8);
    assert(be_bytes(e as nat, 8) =~= x.subrange(n, n + 8));
    assert(be_bytes(f as nat, 8) =~= y.subrange(n, n + 8));
    lemma_be_bytes_injective(e as nat, f as nat, 8);
    assert(be_bytes(a.len(), 8) =~= x.subrange(n + 8, n + 16));
    assert(be_bytes(b.len(), 8) =~= y.subrange(n + 8, n + 16));
    lemma_be_bytes_injective(a.len(), b.len(), 8);
    assert(hashes_bytes(ascending(a)) =~= x.skip(n + 16));
    assert(hashes_bytes(ascending(b)) =~= y.skip(n + 16));
    lemma_ascending(a);
    lemma_ascending(b);
    lemma_hashes_injective(ascending(a), ascending(b));
    assert(a == ascending(a).to_set());
    assert(b == ascending(b).to_set());
}

/// The message about dead candidates identifies them, and the hash of the finalized blocks.
pub proof fn death_close_message_identifies_deaths(
    h: BlockHash,
    a: Set<DependencyDeath>,
    g: BlockHash,
    b: Set<DependencyDeath>,
)
    requires
        a.finite(),
        b.finite(),
        a.len() <= u64::MAX,
        b.len() <= u64::MAX,
        death_close_message(h, a) == death_close_message(g, b),
    ensures
        h == g,
        a == b,
{
    let (x, y) = (death_close_message(h, a), death_close_message(g, b));
    let n = text_bytes("RAI/DEPENDENCY_DEATH_CLOSE/v1").len() as int;
    lemma_byte_spans();
    h.bytes_round_trip();
    g.bytes_round_trip();
    lemma_be_bytes_len(a.len(), 8);
    lemma_be_bytes_len(b.len(), 8);
    assert(h.bytes() =~= x.subrange(n, n + 32));
    assert(g.bytes() =~= y.subrange(n, n + 32));
    assert(be_bytes(a.len(), 8) =~= x.subrange(n + 32, n + 40));
    assert(be_bytes(b.len(), 8) =~= y.subrange(n + 32, n + 40));
    lemma_be_bytes_injective(a.len(), b.len(), 8);
    assert(deaths_bytes(ascending(a)) =~= x.skip(n + 40));
    assert(deaths_bytes(ascending(b)) =~= y.skip(n + 40));
    lemma_ascending(a);
    lemma_ascending(b);
    lemma_deaths_injective(ascending(a), ascending(b));
    assert(a == ascending(a).to_set());
    assert(b == ascending(b).to_set());
}

/// A commitment counts the finalized slots outside the cut: with those inside it they
/// are all the finalized slots. It names the finalized blocks of the epoch, and how
/// candidates died, if any did.
pub proof fn commitment_counts_what_is_outside_the_cut(end: EpochEnd, epoch: u64, cut: Set<SlotRoot>)
    requires
        end.finalized.dom().finite(),
        end.finalized.len() <= u64::MAX,
    ensures
        ({
            let c = end.commitment(epoch, cut);
            let named = hash_of(finalized_message(epoch, end.finalized.values()));
            &&& c.non_cut_count + end.finalized.dom().intersect(cut).len() == end.finalized.len()
            &&& end.dependency_deaths == Set::<DependencyDeath>::empty() ==> c.hash == named
            &&& end.dependency_deaths != Set::<DependencyDeath>::empty() ==> c.hash == hash_of(
                death_close_message(named, end.dependency_deaths),
            )
        }),
{
    let all = end.finalized.dom();
    let outside = all.difference(cut);
    let inside = all.intersect(cut);
    vstd::set_lib::lemma_set_disjoint_lens(outside, inside);
    assert(outside + inside =~= all);
}

/// The winners of the cut are the finalized blocks of its slots, and no others.
pub proof fn cut_winners_are_finalized_in_the_cut(
    finalized: Map<SlotRoot, BlockHash>,
    deaths: Set<DependencyDeath>,
    cut: Set<SlotRoot>,
    slot: SlotRoot,
    hash: BlockHash,
)
    ensures
        ({
            let end = EpochEnd::of(finalized, deaths, cut);
            &&& end.finalized == finalized
            &&& end.dependency_deaths == deaths
            &&& cut.contains(slot) && finalized.contains_key(slot) ==> end.cut_winners.contains(finalized[slot])
            &&& (forall|s: SlotRoot| #[trigger] finalized.contains_key(s) && cut.contains(s) ==> finalized[s] != hash)
                ==> !end.cut_winners.contains(hash)
        }),
{
}

proof fn lemma_hashes_layout(q: Seq<BlockHash>, i: int)
    ensures
        hashes_bytes(q).len() == 32 * q.len(),
        0 <= i < q.len() ==> hashes_bytes(q).subrange(32 * i, 32 * i + 32) == q[i].bytes(),
    decreases q.len(),
{
    if q.len() > 0 {
        let front = q.drop_last();
        lemma_hashes_layout(front, i);
        q.last().bytes_round_trip();
        let all = hashes_bytes(q);
        if 0 <= i < q.len() - 1 {
            assert(all.subrange(32 * i, 32 * i + 32) =~= hashes_bytes(front).subrange(32 * i, 32 * i + 32));
        } else if i == q.len() - 1 {
            assert(all.subrange(32 * i, 32 * i + 32) =~= q.last().bytes());
        }
    }
}

proof fn lemma_deaths_layout(q: Seq<DependencyDeath>, i: int)
    ensures
        deaths_bytes(q).len() == 96 * q.len(),
        0 <= i < q.len() ==> {
            &&& deaths_bytes(q).subrange(96 * i, 96 * i + 32) == q[i].candidate.bytes()
            &&& deaths_bytes(q).subrange(96 * i + 32, 96 * i + 64) == q[i].dependency.bytes()
            &&& deaths_bytes(q).subrange(96 * i + 64, 96 * i + 96) == q[i].winner.bytes()
        },
    decreases q.len(),
{
    if q.len() > 0 {
        let front = q.drop_last();
        lemma_deaths_layout(front, i);
        let d = q.last();
        d.candidate.bytes_round_trip();
        d.dependency.bytes_round_trip();
        d.winner.bytes_round_trip();
        let all = deaths_bytes(q);
        let before = deaths_bytes(front);
        if 0 <= i < q.len() - 1 {
            assert(all.subrange(96 * i, 96 * i + 32) =~= before.subrange(96 * i, 96 * i + 32));
            assert(all.subrange(96 * i + 32, 96 * i + 64) =~= before.subrange(96 * i + 32, 96 * i + 64));
            assert(all.subrange(96 * i + 64, 96 * i + 96) =~= before.subrange(96 * i + 64, 96 * i + 96));
        } else if i == q.len() - 1 {
            assert(all.subrange(96 * i, 96 * i + 32) =~= d.candidate.bytes());
            assert(all.subrange(96 * i + 32, 96 * i + 64) =~= d.dependency.bytes());
            assert(all.subrange(96 * i + 64, 96 * i + 96) =~= d.winner.bytes());
        }
    }
}

proof fn lemma_slots_layout(q: Seq<SlotRoot>, i: int)
    ensures
        slots_bytes(q).len() == 64 * q.len(),
        0 <= i < q.len() ==> {
            &&& slots_bytes(q).subrange(64 * i, 64 * i + 32) == q[i].root.bytes()
            &&& slots_bytes(q).subrange(64 * i + 32, 64 * i + 64) == q[i].previous.bytes()
        },
    decreases q.len(),
{
    if q.len() > 0 {
        let front = q.drop_last();
        lemma_slots_layout(front, i);
        let d = q.last();
        d.root.bytes_round_trip();
        d.previous.bytes_round_trip();
        let all = slots_bytes(q);
        let before = slots_bytes(front);
        if 0 <= i < q.len() - 1 {
            assert(all.subrange(64 * i, 64 * i + 32) =~= before.subrange(64 * i, 64 * i + 32));
            assert(all.subrange(64 * i + 32, 64 * i + 64) =~= before.subrange(64 * i + 32, 64 * i + 64));
        } else if i == q.len() - 1 {
            assert(all.subrange(64 * i, 64 * i + 32) =~= d.root.bytes());
            assert(all.subrange(64 * i + 32, 64 * i + 64) =~= d.previous.bytes());
        }
    }
}

/// The message that names finalized blocks: its tag, eight bytes with the epoch and eight
/// with the number of blocks, then 32 bytes for each block in ascending order.
pub proof fn finalized_message_layout(epoch: u64, hashes: Set<BlockHash>, i: int)
    requires
        hashes.finite(),
    ensures
        ({
            let m = finalized_message(epoch, hashes);
            let t = text_bytes("RAI/FINALIZED_BLOCKS/v1");
            let n = t.len() as int;
            &&& m.len() == n + 16 + 32 * hashes.len()
            &&& m.subrange(0, n) == t
            &&& m.subrange(n, n + 8) == be_bytes(epoch as nat, 8)
            &&& m.subrange(n + 8, n + 16) == be_bytes(hashes.len(), 8)
            &&& 0 <= i < hashes.len() ==> m.subrange(n + 16 + 32 * i, n + 48 + 32 * i) == ascending(hashes)[i].bytes()
        }),
{
    let m = finalized_message(epoch, hashes);
    let t = text_bytes("RAI/FINALIZED_BLOCKS/v1");
    let n = t.len() as int;
    let q = ascending(hashes);
    lemma_ascending(hashes);
    lemma_hashes_layout(q, i);
    lemma_be_bytes_len(epoch as nat, 8);
    lemma_be_bytes_len(hashes.len(), 8);
    assert(m.subrange(0, n) =~= t);
    assert(m.subrange(n, n + 8) =~= be_bytes(epoch as nat, 8));
    assert(m.subrange(n + 8, n + 16) =~= be_bytes(hashes.len(), 8));
    if 0 <= i < hashes.len() {
        assert(m.subrange(n + 16 + 32 * i, n + 48 + 32 * i) =~= hashes_bytes(q).subrange(32 * i, 32 * i + 32));
    }
}

/// The message that adds how candidates died: its tag, the hash of what is finalized, eight
/// bytes with the number of deaths, then candidate, dependency and winner of each.
pub proof fn death_close_message_layout(finalized: BlockHash, deaths: Set<DependencyDeath>, i: int)
    requires
        deaths.finite(),
    ensures
        ({
            let m = death_close_message(finalized, deaths);
            let t = text_bytes("RAI/DEPENDENCY_DEATH_CLOSE/v1");
            let n = t.len() as int;
            &&& m.len() == n + 40 + 96 * deaths.len()
            &&& m.subrange(0, n) == t
            &&& m.subrange(n, n + 32) == finalized.bytes()
            &&& m.subrange(n + 32, n + 40) == be_bytes(deaths.len(), 8)
            &&& 0 <= i < deaths.len() ==> {
                let d = ascending(deaths)[i];
                let at = n + 40 + 96 * i;
                &&& m.subrange(at, at + 32) == d.candidate.bytes()
                &&& m.subrange(at + 32, at + 64) == d.dependency.bytes()
                &&& m.subrange(at + 64, at + 96) == d.winner.bytes()
            }
        }),
{
    let m = death_close_message(finalized, deaths);
    let t = text_bytes("RAI/DEPENDENCY_DEATH_CLOSE/v1");
    let n = t.len() as int;
    let q = ascending(deaths);
    lemma_ascending(deaths);
    lemma_deaths_layout(q, i);
    lemma_be_bytes_len(deaths.len(), 8);
    finalized.bytes_round_trip();
    assert(m.subrange(0, n) =~= t);
    assert(m.subrange(n, n + 32) =~= finalized.bytes());
    assert(m.subrange(n + 32, n + 40) =~= be_bytes(deaths.len(), 8));
    if 0 <= i < deaths.len() {
        let at = n + 40 + 96 * i;
        let all = deaths_bytes(q);
        assert(m.subrange(at, at + 32) =~= all.subrange(96 * i, 96 * i + 32));
        assert(m.subrange(at + 32, at + 64) =~= all.subrange(96 * i + 32, 96 * i + 64));
        assert(m.subrange(at + 64, at + 96) =~= all.subrange(96 * i + 64, 96 * i + 96));
    }
}

/// The messages about a cut: the tag and the slots, 64 bytes each; the tag and the blocks of
/// the closure; the tag, the winners and the deaths, each list behind its length.
pub proof fn cut_messages_layout(
    cut: Set<SlotRoot>,
    hashes: Set<BlockHash>,
    deaths: Set<DependencyDeath>,
    i: int,
)
    requires
        cut.finite(),
        hashes.finite(),
        deaths.finite(),
    ensures
        ({
            let m = cut_slots_message(cut);
            let t = text_bytes("RAI/CUT_SLOTS/v1");
            let n = t.len() as int;
            &&& m.len() == n + 64 * cut.len()
            &&& m.subrange(0, n) == t
            &&& 0 <= i < cut.len() ==> {
                &&& m.subrange(n + 64 * i, n + 64 * i + 32) == ascending(cut)[i].root.bytes()
                &&& m.subrange(n + 64 * i + 32, n + 64 * i + 64) == ascending(cut)[i].previous.bytes()
            }
        }),
        ({
            let m = cut_closure_message(hashes);
            let t = text_bytes("RAI/CUT_CLOSURE/v1");
            let n = t.len() as int;
            &&& m.len() == n + 32 * hashes.len()
            &&& m.subrange(0, n) == t
            &&& 0 <= i < hashes.len() ==> m.subrange(n + 32 * i, n + 32 * i + 32) == ascending(hashes)[i].bytes()
        }),
        ({
            let m = cut_outcomes_message(hashes, deaths);
            let t = text_bytes("RAI/CUT_OUTCOMES/v1");
            let n = t.len() as int;
            let k = n + 8 + 32 * hashes.len();
            &&& m.len() == k + 8 + 96 * deaths.len()
            &&& m.subrange(0, n) == t
            &&& m.subrange(n, n + 8) == be_bytes(hashes.len(), 8)
            &&& m.subrange(k, k + 8) == be_bytes(deaths.len(), 8)
            &&& 0 <= i < hashes.len() ==> m.subrange(n + 8 + 32 * i, n + 40 + 32 * i) == ascending(hashes)[i].bytes()
            &&& 0 <= i < deaths.len() ==> m.subrange(k + 8 + 96 * i, k + 40 + 96 * i) == ascending(deaths)[i].candidate.bytes()
        }),
{
    lemma_ascending(cut);
    lemma_ascending(hashes);
    lemma_ascending(deaths);
    lemma_slots_layout(ascending(cut), i);
    lemma_hashes_layout(ascending(hashes), i);
    lemma_deaths_layout(ascending(deaths), i);
    lemma_be_bytes_len(hashes.len(), 8);
    lemma_be_bytes_len(deaths.len(), 8);
    let s = slots_bytes(ascending(cut));
    let h = hashes_bytes(ascending(hashes));
    let d = deaths_bytes(ascending(deaths));
    let m = cut_slots_message(cut);
    let t = text_bytes("RAI/CUT_SLOTS/v1");
    let n = t.len() as int;
    assert(m.subrange(0, n) =~= t);
    if 0 <= i < cut.len() {
        assert(m.subrange(n + 64 * i, n + 64 * i + 32) =~= s.subrange(64 * i, 64 * i + 32));
        assert(m.subrange(n + 64 * i + 32, n + 64 * i + 64) =~= s.subrange(64 * i + 32, 64 * i + 64));
    }
    let m = cut_closure_message(hashes);
    let t = text_bytes("RAI/CUT_CLOSURE/v1");
    let n = t.len() as int;
    assert(m.subrange(0, n) =~= t);
    if 0 <= i < hashes.len() {
        assert(m.subrange(n + 32 * i, n + 32 * i + 32) =~= h.subrange(32 * i, 32 * i + 32));
    }
    let m = cut_outcomes_message(hashes, deaths);
    let t = text_bytes("RAI/CUT_OUTCOMES/v1");
    let n = t.len() as int;
    let k = n + 8 + 32 * hashes.len();
    assert(m.subrange(0, n) =~= t);
    assert(m.subrange(n, n + 8) =~= be_bytes(hashes.len(), 8));
    assert(m.subrange(k, k + 8) =~= be_bytes(deaths.len(), 8));
    if 0 <= i < hashes.len() {
        assert(m.subrange(n + 8 + 32 * i, n + 40 + 32 * i) =~= h.subrange(32 * i, 32 * i + 32));
    }
    if 0 <= i < deaths.len() {
        assert(m.subrange(k + 8 + 96 * i, k + 40 + 96 * i) =~= d.subrange(96 * i, 96 * i + 32));
    }
}

}
