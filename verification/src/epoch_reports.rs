//! The reports about the elections that are pending when an epoch closes, and
//! the cut that they agree on.
use vstd::prelude::*;

use crate::ordered::{
    ascending, copy_all, lemma_ascending, lemma_take_distinct, lemma_take_set, members_of, sorted_map_is_finite,
    sorted_set_is_finite, Duplicate, SortedMap, SortedSet,
};
use crate::types::PublicKey;
use crate::vote_gate::SlotRoot;

verus! {

broadcast use {sorted_map_is_finite, sorted_set_is_finite};

/// A part of a report.
pub struct EpochReportChunk {
    pub reporter: PublicKey,
    pub epoch: u64,
    pub chunk_index: u16,
    pub chunk_count: u16,
    pub elections: Vec<SlotRoot>,
}

/// The model of a part of a report.
#[verifier::ext_equal]
pub struct ReportChunk {
    pub reporter: PublicKey,
    pub epoch: u64,
    pub chunk_index: u16,
    pub chunk_count: u16,
    pub elections: Seq<SlotRoot>,
}

impl DeepView for EpochReportChunk {
    type V = ReportChunk;

    open spec fn deep_view(&self) -> ReportChunk {
        ReportChunk {
            reporter: self.reporter,
            epoch: self.epoch,
            chunk_index: self.chunk_index,
            chunk_count: self.chunk_count,
            elections: self.elections@,
        }
    }
}

impl EpochReportChunk {
    /// A copy of the part.
    pub fn copied(&self) -> (r: Self)
        ensures
            r.deep_view() == self.deep_view(),
    {
        EpochReportChunk {
            reporter: self.reporter,
            epoch: self.epoch,
            chunk_index: self.chunk_index,
            chunk_count: self.chunk_count,
            elections: copy_all(&self.elections),
        }
    }
}

/// Asks a reporter for a part of its report.
#[derive(Clone, Copy, Debug, PartialEq, Eq, Structural)]
pub struct EpochReportRequest {
    pub requester: PublicKey,
    pub epoch: u64,
    pub chunk_index: u16,
}

/// A request and the node that it goes to.
#[derive(Clone, Copy, Debug, PartialEq, Eq, Structural)]
pub struct AddressedRequest {
    pub reporter: PublicKey,
    pub request: EpochReportRequest,
}

/// The parts of a report that came in. The count is zero before the first.
pub struct PartialReport {
    pub chunk_count: u16,
    pub chunks: SortedMap<u16, Vec<SlotRoot>>,
}

/// The model of what came in of a report.
#[verifier::ext_equal]
pub struct Partial {
    pub count: u16,
    pub chunks: Map<u16, Seq<SlotRoot>>,
}

/// The elections of a part, as the map of parts holds them.
pub proof fn lemma_elections(elections: Vec<SlotRoot>)
    ensures
        elections.deep_view() == elections@,
{
    assert(elections.deep_view() =~= elections@);
}

impl DeepView for PartialReport {
    type V = Partial;

    open spec fn deep_view(&self) -> Partial {
        Partial { count: self.chunk_count, chunks: self.chunks@ }
    }
}

impl Partial {
    /// Nothing came in.
    pub open spec fn nothing() -> Partial {
        Partial { count: 0, chunks: Map::empty() }
    }

    /// The count agrees with what came in before.
    pub open spec fn takes(self, chunk: ReportChunk) -> bool {
        self.count == 0 || self.count == chunk.chunk_count
    }

    /// With one more part. What came first stays.
    pub open spec fn with(self, chunk: ReportChunk) -> Partial {
        if !self.takes(chunk) {
            self
        } else {
            Partial {
                count: chunk.chunk_count,
                chunks: if self.chunks.contains_key(chunk.chunk_index) {
                    self.chunks
                } else {
                    self.chunks.insert(chunk.chunk_index, chunk.elections)
                },
            }
        }
    }

    /// A part names the election.
    pub open spec fn names(self, slot: SlotRoot) -> bool {
        exists|i: u16| #[trigger] self.chunks.contains_key(i) && self.chunks[i].contains(slot)
    }

    /// Every part came in.
    pub open spec fn is_complete(self) -> bool {
        self.count > 0 && self.chunks.len() == self.count
    }

    /// The first part from `from` on that did not come in.
    pub open spec fn gap(self, from: int) -> Option<u16>
        decreases self.count - from,
    {
        if from >= self.count {
            None
        } else if !self.chunks.contains_key(from as u16) {
            Some(from as u16)
        } else {
            self.gap(from + 1)
        }
    }
}

impl Duplicate for PartialReport {
    fn duplicate(&self) -> (r: Self) {
        PartialReport { chunk_count: self.chunk_count, chunks: self.chunks.duplicate() }
    }

    fn agrees(&self, other: &Self) -> (r: bool) {
        self.chunk_count == other.chunk_count && self.chunks.agrees(&other.chunks)
    }
}

impl PartialReport {
    pub fn new() -> (r: Self)
        ensures
            r.deep_view() == Partial::nothing(),
    {
        PartialReport { chunk_count: 0, chunks: SortedMap::new() }
    }

    /// Takes a part in, unless its count contradicts an earlier one. Returns whether it was taken in.
    pub fn take(&mut self, chunk: &EpochReportChunk) -> (r: bool)
        ensures
            r == old(self).deep_view().takes(chunk.deep_view()),
            final(self).deep_view() == old(self).deep_view().with(chunk.deep_view()),
    {
        if self.chunk_count == 0 {
            self.chunk_count = chunk.chunk_count;
        }
        if self.chunk_count != chunk.chunk_count {
            return false;
        }
        if !self.chunks.contains_key(&chunk.chunk_index) {
            let elections = copy_all(&chunk.elections);
            proof {
                lemma_elections(elections);
            }
            self.chunks.insert(chunk.chunk_index, elections);
        }
        true
    }

    /// The elections that the parts name.
    pub fn slots(&self) -> (r: SortedSet<SlotRoot>)
        ensures
            r@ == Set::new(|slot: SlotRoot| self.deep_view().names(slot)),
    {
        let mut r: SortedSet<SlotRoot> = SortedSet::new();
        let count: usize = self.chunks.len();
        let ghost q = ascending(self.chunks@.dom());
        for i in 0..count
            invariant
                count == self.chunks@.len(),
                q == ascending(self.chunks@.dom()),
                q.len() == count,
                forall|slot: SlotRoot|
                    r@.contains(slot) == exists|j: int|
                        0 <= j < i && self.chunks@[#[trigger] q[j]].contains(slot),
        {
            let elections = self.chunks.value_at(i);
            let named = SortedSet::from_vec(elections);
            let ghost before = r@;
            r.extend(&named);
            proof {
                lemma_elections(*elections);
                assert forall|slot: SlotRoot|
                    r@.contains(slot) == exists|j: int|
                        0 <= j < i + 1 && self.chunks@[#[trigger] q[j]].contains(slot) by {
                    assert(named@.contains(slot) == elections@.contains(slot));
                    if before.contains(slot) {
                        let j = choose|j: int| 0 <= j < i && self.chunks@[#[trigger] q[j]].contains(slot);
                        assert(self.chunks@[q[j]].contains(slot));
                    }
                    if named@.contains(slot) {
                        assert(self.chunks@[q[i as int]].contains(slot));
                    }
                }
            }
        }
        proof {
            lemma_ascending(self.chunks@.dom());
            let p = self.deep_view();
            assert forall|slot: SlotRoot| r@.contains(slot) == p.names(slot) by {
                if r@.contains(slot) {
                    let j = choose|j: int| 0 <= j < count && self.chunks@[#[trigger] q[j]].contains(slot);
                    assert(q.contains(q[j]));
                    assert(p.chunks.contains_key(q[j]));
                }
                if p.names(slot) {
                    let k = choose|k: u16| #[trigger] p.chunks.contains_key(k) && p.chunks[k].contains(slot);
                    assert(q.contains(k));
                    let j = choose|j: int| 0 <= j < q.len() && q[j] == k;
                    assert(self.chunks@[q[j]].contains(slot));
                }
            }
            assert(r@ =~= Set::new(|slot: SlotRoot| p.names(slot)));
        }
        r
    }

    /// Whether every part came in.
    pub fn is_complete(&self) -> (r: bool)
        ensures
            r == self.deep_view().is_complete(),
    {
        self.chunk_count > 0 && self.chunks.len() == self.chunk_count as usize
    }

    /// The first part that did not come in.
    pub fn first_gap(&self) -> (r: Option<u16>)
        ensures
            r == self.deep_view().gap(0),
    {
        let mut i: u16 = 0;
        while i < self.chunk_count
            invariant
                i <= self.chunk_count,
                self.deep_view().gap(0) == self.deep_view().gap(i as int),
            decreases self.chunk_count - i,
        {
            if !self.chunks.contains_key(&i) {
                return Some(i);
            }
            i = i + 1;
        }
        None
    }
}

/// The reporters that name an election.
pub open spec fn supporters(reports: Map<PublicKey, Partial>, slot: SlotRoot) -> Set<PublicKey> {
    Set::new(|k: PublicKey| reports.contains_key(k) && reports[k].names(slot))
}

/// The elections that some report names.
pub open spec fn reported_slots(reports: Map<PublicKey, Partial>) -> Set<SlotRoot> {
    Set::new(|slot: SlotRoot| exists|k: PublicKey| #[trigger] reports.contains_key(k) && reports[k].names(slot))
}

/// How many members of a committee may be faulty.
pub open spec fn tolerated(size: nat) -> nat {
    if size == 0 {
        0
    } else {
        ((size - 1) / 3) as nat
    }
}

/// The elections that more reporters name than may be faulty.
pub open spec fn supported_slots(reports: Map<PublicKey, Partial>, size: nat) -> Set<SlotRoot> {
    Set::new(|slot: SlotRoot| supporters(reports, slot).len() > tolerated(size))
}

/// Every member of a committee has reported completely.
pub open spec fn all_complete(reports: Map<PublicKey, Partial>, size: nat) -> bool {
    &&& reports.len() == size
    &&& forall|k: PublicKey| #[trigger] reports.contains_key(k) ==> reports[k].is_complete()
}

/// The elections that each report names.
fn slots_by_reporter(reports: &SortedMap<PublicKey, PartialReport>) -> (r: SortedMap<PublicKey, SortedSet<SlotRoot>>)
    ensures
        r@.dom() == reports@.dom(),
        forall|k: PublicKey| #[trigger]
            reports@.contains_key(k) ==> r@[k] == Set::new(|slot: SlotRoot| reports@[k].names(slot)),
{
    let mut r: SortedMap<PublicKey, SortedSet<SlotRoot>> = SortedMap::new();
    let count: usize = reports.len();
    let ghost q = ascending(reports@.dom());
    proof {
        lemma_ascending(reports@.dom());
    }
    for i in 0..count
        invariant
            count == reports@.len(),
            q == ascending(reports@.dom()),
            q.len() == count,
            r@.dom() == q.take(i as int).to_set(),
            forall|k: PublicKey| #[trigger]
                r@.contains_key(k) ==> r@[k] == Set::new(|slot: SlotRoot| reports@[k].names(slot)),
    {
        let key = reports.key_at(i);
        let named = reports.value_at(i).slots();
        r.insert(key, named);
        proof {
            lemma_take_set(q, i as int);
            assert(r@.dom() =~= q.take(i + 1).to_set());
        }
    }
    proof {
        assert(q.take(count as int) =~= q);
    }
    r
}

/// The elections that some report names.
pub fn collect_reported_slots(reports: &SortedMap<PublicKey, PartialReport>) -> (r: SortedSet<SlotRoot>)
    ensures
        r@ == reported_slots(reports@),
{
    let named = slots_by_reporter(reports);
    let r = named.member_set();
    proof {
        assert forall|slot: SlotRoot| r@.contains(slot) == reported_slots(reports@).contains(slot) by {
            assert(r@.contains(slot) == members_of(named@).contains(slot));
            if r@.contains(slot) {
                let k = choose|k: PublicKey| #[trigger] named@.contains_key(k) && named@[k].contains(slot);
                assert(reports@.contains_key(k));
            }
            if reported_slots(reports@).contains(slot) {
                let k = choose|k: PublicKey| #[trigger] reports@.contains_key(k) && reports@[k].names(slot);
                assert(named@.contains_key(k));
                assert(named@[k].contains(slot));
            }
        }
        assert(r@ =~= reported_slots(reports@));
    }
    r
}

fn count_supporters(
    reports: &SortedMap<PublicKey, PartialReport>,
    named: &SortedMap<PublicKey, SortedSet<SlotRoot>>,
    slot: &SlotRoot,
) -> (r: usize)
    requires
        named@.dom() == reports@.dom(),
        forall|k: PublicKey| #[trigger]
            reports@.contains_key(k) ==> named@[k] == Set::new(|slot: SlotRoot| reports@[k].names(slot)),
    ensures
        r == supporters(reports@, *slot).len(),
{
    let size: usize = named.len();
    let ghost q = ascending(named@.dom());
    let mut r: usize = 0;
    let ghost mut found: Set<PublicKey> = Set::empty();
    proof {
        lemma_ascending(named@.dom());
    }
    for i in 0..size
        invariant
            size == named@.len(),
            q == ascending(named@.dom()),
            q.len() == size,
            q.no_duplicates(),
            r <= i,
            found.finite(),
            r == found.len(),
            found == Set::new(|k: PublicKey| q.take(i as int).contains(k) && named@[k].contains(*slot)),
    {
        let ghost before = found;
        proof {
            lemma_take_distinct(q, i as int);
            let a = q.take(i as int);
            let b = q.take(i + 1);
            assert forall|k: PublicKey| b.contains(k) == (a.contains(k) || k == q[i as int]) by {
                assert(a.to_set().contains(k) == a.contains(k));
                assert(b.to_set().contains(k) == b.contains(k));
            }
            assert(!a.contains(q[i as int])) by {
                assert(a.to_set().contains(q[i as int]) == a.contains(q[i as int]));
            }
        }
        if named.value_at(i).contains(slot) {
            r = r + 1;
            proof {
                found = found.insert(q[i as int]);
                assert(!before.contains(q[i as int]));
            }
        }
        proof {
            assert(found =~= Set::new(|k: PublicKey| q.take(i + 1).contains(k) && named@[k].contains(*slot)));
        }
    }
    proof {
        assert(q.take(size as int) =~= q);
        assert forall|k: PublicKey| found.contains(k) == supporters(reports@, *slot).contains(k) by {
            assert(q.to_set().contains(k) == q.contains(k));
            assert(named@.dom().contains(k) == reports@.contains_key(k));
        }
        assert(found =~= supporters(reports@, *slot));
    }
    r
}

/// What enough reporters name is named by one.
pub proof fn lemma_supported_is_reported(reports: Map<PublicKey, Partial>, slot: SlotRoot)
    requires
        supporters(reports, slot).len() > 0,
    ensures
        reported_slots(reports).contains(slot),
{
    let s = supporters(reports, slot);
    if forall|k: PublicKey| !s.contains(k) {
        assert(s =~= Set::empty());
    }
    let k = choose|k: PublicKey| s.contains(k);
    assert(reports.contains_key(k));
}

/// The elections that more reporters name than may be faulty in a committee of
/// `size` members.
pub fn collect_supported_slots(reports: &SortedMap<PublicKey, PartialReport>, size: usize) -> (r: SortedSet<SlotRoot>)
    ensures
        r@ == supported_slots(reports@, size as nat),
{
    let named = slots_by_reporter(reports);
    let all = collect_reported_slots(reports);
    let f: usize = if size == 0 {
        0
    } else {
        (size - 1) / 3
    };
    let mut r: SortedSet<SlotRoot> = SortedSet::new();
    let slots = all.to_vec();
    for i in 0..slots.len()
        invariant
            slots@ == ascending(all@),
            all@ == reported_slots(reports@),
            f == tolerated(size as nat),
            named@.dom() == reports@.dom(),
            forall|k: PublicKey| #[trigger]
                reports@.contains_key(k) ==> named@[k] == Set::new(|slot: SlotRoot| reports@[k].names(slot)),
            forall|slot: SlotRoot|
                r@.contains(slot) == (slots@.take(i as int).contains(slot) && supported_slots(
                    reports@,
                    size as nat,
                ).contains(slot)),
    {
        let slot = slots[i];
        if count_supporters(reports, &named, &slot) > f {
            r.insert(slot);
        }
        proof {
            let a = slots@.take(i as int);
            let b = slots@.take(i + 1);
            lemma_take_set(slots@, i as int);
            assert forall|k: SlotRoot| b.contains(k) == (a.contains(k) || k == slot) by {
                assert(a.to_set().contains(k) == a.contains(k));
                assert(b.to_set().contains(k) == b.contains(k));
            }
        }
    }
    proof {
        lemma_ascending(all@);
        assert(slots@.take(slots@.len() as int) =~= slots@);
        assert forall|slot: SlotRoot| r@.contains(slot) == supported_slots(reports@, size as nat).contains(slot) by {
            assert(slots@.to_set().contains(slot) == slots@.contains(slot));
            if supported_slots(reports@, size as nat).contains(slot) {
                lemma_supported_is_reported(reports@, slot);
            }
        }
        assert(r@ =~= supported_slots(reports@, size as nat));
    }
    r
}

/// Whether every member of a committee of `size` members has reported completely.
pub fn check_all_complete(reports: &SortedMap<PublicKey, PartialReport>, size: usize) -> (r: bool)
    ensures
        r == all_complete(reports@, size as nat),
{
    if reports.len() != size {
        return false;
    }
    let ghost q = ascending(reports@.dom());
    for i in 0..size
        invariant
            size == reports@.len(),
            q == ascending(reports@.dom()),
            q.len() == size,
            forall|j: int| 0 <= j < i ==> reports@[#[trigger] q[j]].is_complete(),
    {
        if !reports.value_at(i).is_complete() {
            proof {
                assert(reports@.contains_key(q[i as int]));
            }
            return false;
        }
    }
    proof {
        lemma_ascending(reports@.dom());
        assert forall|k: PublicKey| #[trigger] reports@.contains_key(k) implies reports@[k].is_complete() by {
            assert(q.contains(k));
            let j = choose|j: int| 0 <= j < q.len() && q[j] == k;
            assert(reports@[q[j]].is_complete());
        }
    }
    true
}

/// A sequence in pieces of at most `size` elements.
pub open spec fn pieces<T>(q: Seq<T>, size: int) -> Seq<Seq<T>>
    decreases q.len(),
{
    if q.len() == 0 || size <= 0 {
        Seq::empty()
    } else if q.len() <= size {
        seq![q]
    } else {
        seq![q.take(size)] + pieces(q.skip(size), size)
    }
}

/// The views of vectors.
pub open spec fn views<T>(q: Seq<Vec<T>>) -> Seq<Seq<T>> {
    Seq::new(q.len(), |i: int| q[i]@)
}

/// The values in pieces of at most `size` elements.
pub fn split<T: Copy>(values: &Vec<T>, size: usize) -> (r: Vec<Vec<T>>)
    requires
        size > 0,
    ensures
        views(r@) == pieces(values@, size as int),
{
    let mut r: Vec<Vec<T>> = Vec::new();
    let mut at: usize = 0;
    proof {
        assert(values@.skip(0) =~= values@);
        assert(views(r@) + pieces(values@, size as int) =~= pieces(values@, size as int));
    }
    while at < values.len()
        invariant
            size > 0,
            at <= values.len(),
            views(r@) + pieces(values@.skip(at as int), size as int) == pieces(values@, size as int),
        decreases values.len() - at,
    {
        let end: usize = if values.len() - at <= size {
            values.len()
        } else {
            at + size
        };
        let ghost rest = values@.skip(at as int);
        let mut piece: Vec<T> = Vec::new();
        for i in at..end
            invariant
                at <= end <= values.len(),
                piece@ == values@.subrange(at as int, i as int),
        {
            piece.push(values[i]);
            proof {
                assert(piece@ =~= values@.subrange(at as int, i + 1));
            }
        }
        let ghost before = views(r@);
        r.push(piece);
        proof {
            assert(views(r@) =~= before.push(piece@));
            assert(values@.skip(end as int) =~= rest.skip(end - at));
            if rest.len() <= size {
                assert(piece@ =~= rest);
                assert(pieces(values@.skip(end as int), size as int) =~= Seq::empty());
                assert(pieces(rest, size as int) =~= seq![rest]);
            } else {
                assert(piece@ =~= rest.take(size as int));
                assert(pieces(rest, size as int) =~= seq![piece@] + pieces(values@.skip(end as int), size as int));
            }
            assert(views(r@) + pieces(values@.skip(end as int), size as int) =~= before + pieces(rest, size as int));
        }
        at = end;
    }
    proof {
        assert(pieces(values@.skip(at as int), size as int) =~= Seq::empty());
        assert(views(r@) + Seq::<Seq<T>>::empty() =~= views(r@));
    }
    r
}

/// The pieces are the sequence again, none is empty, and none is too long.
pub proof fn pieces_make_up_the_whole<T>(q: Seq<T>, size: int)
    requires
        size > 0,
    ensures
        pieces(q, size).flatten() == q,
        forall|i: int| 0 <= i < pieces(q, size).len() ==> 0 < (#[trigger] pieces(q, size)[i]).len() <= size,
    decreases q.len(),
{
    let p = pieces(q, size);
    if q.len() == 0 {
        assert(p.flatten() =~= q);
    } else if q.len() <= size {
        assert(p =~= seq![q]);
        assert(p.drop_first() =~= Seq::empty());
        assert(p.flatten() =~= q) by {
            assert(p.flatten() == p.first() + p.drop_first().flatten());
        }
    } else {
        pieces_make_up_the_whole(q.skip(size), size);
        let rest = pieces(q.skip(size), size);
        assert(p.drop_first() =~= rest);
        assert(p.first() == q.take(size));
        assert(p.flatten() == p.first() + p.drop_first().flatten());
        assert(p.flatten() =~= q);
        assert forall|i: int| 0 <= i < p.len() implies 0 < (#[trigger] p[i]).len() <= size by {
            if i > 0 {
                assert(p[i] == rest[i - 1]);
            }
        }
    }
}

/// What came in of a report stays: a later part with the same index or
/// another count changes nothing that was taken in.
pub proof fn first_part_is_kept(p: Partial, chunk: ReportChunk, index: u16)
    requires
        p.chunks.contains_key(index),
    ensures
        p.with(chunk).chunks.contains_key(index),
        p.with(chunk).chunks[index] == p.chunks[index],
        p.count > 0 ==> p.with(chunk).count == p.count,
{
}

/// An election in the cut is named by more reporters than may be faulty, so by
/// a correct one, whichever `tolerated` reporters are faulty.
pub proof fn cut_has_a_correct_supporter(
    reports: Map<PublicKey, Partial>,
    size: nat,
    faulty: Set<PublicKey>,
    slot: SlotRoot,
)
    requires
        reports.dom().finite(),
        faulty.finite(),
        faulty.len() <= tolerated(size),
        supported_slots(reports, size).contains(slot),
    ensures
        exists|k: PublicKey| supporters(reports, slot).contains(k) && !faulty.contains(k),
{
    let s = supporters(reports, slot);
    assert(s.subset_of(reports.dom()));
    assert(s.finite());
    if forall|k: PublicKey| s.contains(k) ==> faulty.contains(k) {
        vstd::set_lib::lemma_len_subset(s, faulty);
    }
}

/// Whether a part of the reporter's report lists the election.
pub open spec fn lists(reports: Map<PublicKey, Partial>, reporter: PublicKey, slot: SlotRoot) -> bool {
    reports.contains_key(reporter) && exists|i: u16|
        reports[reporter].chunks.contains_key(i) && (#[trigger] reports[reporter].chunks[i]).contains(slot)
}

/// With `f` the largest number below a third of the committee, an election is in
/// the cut exactly if at least `f + 1` members list it.
pub proof fn cut_needs_one_more_than_the_faulty(
    reports: Map<PublicKey, Partial>,
    size: nat,
    f: nat,
    slot: SlotRoot,
    named: Set<PublicKey>,
)
    requires
        3 * f < size <= 3 * f + 3,
        forall|k: PublicKey| #[trigger] named.contains(k) <==> lists(reports, k, slot),
    ensures
        supported_slots(reports, size).contains(slot) <==> named.len() >= f + 1,
{
    assert(tolerated(size) == f);
    lemma_listed(reports, slot);
    assert(supporters(reports, slot) =~= named);
}

proof fn lemma_listed(reports: Map<PublicKey, Partial>, slot: SlotRoot)
    ensures
        forall|k: PublicKey| #[trigger] supporters(reports, slot).contains(k) <==> lists(reports, k, slot),
{
    assert forall|k: PublicKey| #[trigger] supporters(reports, slot).contains(k) <==> lists(reports, k, slot) by {
        if supporters(reports, slot).contains(k) {
            let i = choose|i: u16| #[trigger] reports[k].chunks.contains_key(i) && reports[k].chunks[i].contains(slot);
            assert(reports[k].chunks[i].contains(slot));
        }
        if lists(reports, k, slot) {
            let i = choose|i: u16|
                reports[k].chunks.contains_key(i) && (#[trigger] reports[k].chunks[i]).contains(slot);
            assert(reports[k].chunks.contains_key(i));
        }
    }
}

/// Where less than a third of the committee is faulty, an election that every
/// other member lists is in the cut, whatever the faulty ones report, and one that
/// no other member lists is not.
pub proof fn correct_members_make_the_cut(
    reports: Map<PublicKey, Partial>,
    size: nat,
    faulty: Set<PublicKey>,
    slot: SlotRoot,
)
    requires
        reports.dom().finite(),
        reports.len() == size,
        faulty.finite(),
        3 * faulty.len() < size,
    ensures
        (forall|k: PublicKey| reports.contains_key(k) && !faulty.contains(k) ==> #[trigger] lists(reports, k, slot))
            ==> supported_slots(reports, size).contains(slot),
        (forall|k: PublicKey| reports.contains_key(k) && !faulty.contains(k) ==> !#[trigger] lists(reports, k, slot))
            ==> !supported_slots(reports, size).contains(slot),
{
    let s = supporters(reports, slot);
    lemma_listed(reports, slot);
    assert(s.subset_of(reports.dom()));
    let correct = reports.dom().difference(faulty);
    assert(reports.dom() =~= correct.union(reports.dom().intersect(faulty)));
    vstd::set_lib::lemma_set_disjoint_lens(correct, reports.dom().intersect(faulty));
    vstd::set_lib::lemma_len_intersect(faulty, reports.dom());
    assert(faulty.intersect(reports.dom()) =~= reports.dom().intersect(faulty));
    assert(correct.union(reports.dom().intersect(faulty)) =~= correct + reports.dom().intersect(faulty));
    if forall|k: PublicKey| reports.contains_key(k) && !faulty.contains(k) ==> #[trigger] lists(reports, k, slot) {
        assert(correct.subset_of(s));
        vstd::set_lib::lemma_len_subset(correct, s);
    }
    if forall|k: PublicKey| reports.contains_key(k) && !faulty.contains(k) ==> !#[trigger] lists(reports, k, slot) {
        assert(s.subset_of(faulty));
        vstd::set_lib::lemma_len_subset(s, faulty);
    }
}

proof fn lemma_gap(p: Partial, from: int)
    requires
        0 <= from,
    ensures
        match p.gap(from) {
            Some(i) => from <= i < p.count && !p.chunks.contains_key(i) && forall|j: u16|
                from <= j < i ==> #[trigger] p.chunks.contains_key(j),
            None => forall|j: u16| from <= j < p.count ==> #[trigger] p.chunks.contains_key(j),
        },
    decreases p.count - from,
{
    if from < p.count && p.chunks.contains_key(from as u16) {
        lemma_gap(p, from + 1);
    }
}

/// The part that is asked for next is the first one that is missing; a report has
/// none missing exactly if every part is there.
pub proof fn first_missing_part_is_asked_for(p: Partial)
    ensures
        match p.gap(0) {
            Some(i) => i < p.count && !p.chunks.contains_key(i) && forall|j: u16|
                j < i ==> #[trigger] p.chunks.contains_key(j),
            None => forall|j: u16| j < p.count ==> #[trigger] p.chunks.contains_key(j),
        },
{
    lemma_gap(p, 0);
}

/// A report whose parts are all numbered below their count is complete exactly if
/// it has parts and none is missing.
pub proof fn complete_report_misses_nothing(p: Partial)
    requires
        p.chunks.dom().finite(),
        forall|j: u16| #[trigger] p.chunks.contains_key(j) ==> j < p.count,
    ensures
        p.is_complete() <==> p.count > 0 && forall|j: u16| j < p.count ==> #[trigger] p.chunks.contains_key(j),
{
    let all = Set::new(|j: u16| j < p.count);
    lemma_below(p.count as nat);
    assert(all =~= Set::new(|j: u16| j < p.count as nat));
    assert(p.chunks.dom().subset_of(all));
    if p.chunks.len() == p.count {
        vstd::set_lib::lemma_subset_equality(p.chunks.dom(), all);
    }
    if forall|j: u16| j < p.count ==> #[trigger] p.chunks.contains_key(j) {
        assert(p.chunks.dom() =~= all);
    }
}

proof fn lemma_below(n: nat)
    requires
        n <= u16::MAX,
    ensures
        Set::new(|j: u16| j < n).finite(),
        Set::new(|j: u16| j < n).len() == n,
    decreases n,
{
    let all = Set::new(|j: u16| j < n);
    if n == 0 {
        assert(all =~= Set::empty());
    } else {
        let m = (n - 1) as nat;
        lemma_below(m);
        let front = Set::new(|j: u16| j < m);
        assert(all =~= front.insert(m as u16));
    }
}

/// A part that says the report has another number of parts is not taken; a new
/// part adds exactly its elections to those that the report lists.
pub proof fn part_adds_its_elections(p: Partial, chunk: ReportChunk, slot: SlotRoot)
    ensures
        p.count != 0 && p.count != chunk.chunk_count ==> p.with(chunk) == p,
        (p.count == 0 || p.count == chunk.chunk_count) && !p.chunks.contains_key(chunk.chunk_index) ==> {
            &&& p.with(chunk).count == chunk.chunk_count
            &&& p.with(chunk).names(slot) <==> p.names(slot) || chunk.elections.contains(slot)
            &&& p.with(chunk).chunks.len() == p.chunks.len() + 1 || !p.chunks.dom().finite()
        },
{
    let after = p.with(chunk);
    if (p.count == 0 || p.count == chunk.chunk_count) && !p.chunks.contains_key(chunk.chunk_index) {
        if after.names(slot) {
            let i = choose|i: u16| #[trigger] after.chunks.contains_key(i) && after.chunks[i].contains(slot);
            if i != chunk.chunk_index {
                assert(p.chunks.contains_key(i) && p.chunks[i].contains(slot));
            }
        }
        if p.names(slot) {
            let i = choose|i: u16| #[trigger] p.chunks.contains_key(i) && p.chunks[i].contains(slot);
            assert(after.chunks.contains_key(i) && after.chunks[i].contains(slot));
        }
        if chunk.elections.contains(slot) {
            assert(after.chunks.contains_key(chunk.chunk_index));
        }
    }
}

/// Every piece but the last is of the full size, and the last is not empty.
pub proof fn pieces_are_full<T>(q: Seq<T>, size: int, i: int)
    requires
        size > 0,
        0 <= i < pieces(q, size).len(),
    ensures
        i < pieces(q, size).len() - 1 ==> pieces(q, size)[i].len() == size,
        0 < pieces(q, size)[i].len() <= size,
    decreases q.len(),
{
    if q.len() > size && i > 0 {
        pieces_are_full(q.skip(size), size, i - 1);
    }
}

}
