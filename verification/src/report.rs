//! Reports of visible obligations, and the cuts that are made of them.
use std::sync::Arc;

use vstd::prelude::*;

use crate::bytes::{
    be_bytes, lemma_be_bytes_injective, lemma_be_bytes_len, lemma_byte_spans, push_be, push_text, text_bytes,
};
use crate::digest::{blake2b_256, digest_hash};
use crate::election_vote_state::minus;
use crate::ordered::{ascending, lemma_ascending, lemma_take_set, Duplicate, Key, Pair, SortedMap, SortedSet};
use crate::rep_weights::{tally, total_weight, weight_in, weight_of, RepWeights};
use crate::types::{Amount, BlockHash, PublicKey, QualifiedRoot, RaiEpoch, RaiSlotId, Signature};

verus! {

/// Something an epoch owes an outcome for, with an encoding of fixed length.
pub trait Obligation: Key {
    spec fn encoded(self) -> Seq<u8>;

    spec fn encoded_len() -> nat;

    proof fn encoding_is_injective(a: Self, b: Self)
        ensures
            a.encoded().len() == Self::encoded_len(),
            a.encoded() == b.encoded() ==> a == b,
    ;

    fn push_encoded(&self, out: &mut Vec<u8>)
        ensures
            final(out)@ == old(out)@ + self.encoded(),
    ;
}

impl Obligation for QualifiedRoot {
    open spec fn encoded(self) -> Seq<u8> {
        self.bytes()
    }

    open spec fn encoded_len() -> nat {
        64
    }

    proof fn encoding_is_injective(a: Self, b: Self) {
        a.root.bytes_round_trip();
        a.previous.bytes_round_trip();
        assert(a.bytes().len() == 64);
        assert(Self::encoded_len() == 64);
        assert(a.encoded() == a.bytes() && b.encoded() == b.bytes());
        if a.encoded() == b.encoded() {
            QualifiedRoot::bytes_are_injective(a, b);
        }
    }

    fn push_encoded(&self, out: &mut Vec<u8>) {
        self.push_bytes(out);
    }
}

impl Obligation for RaiSlotId {
    open spec fn encoded(self) -> Seq<u8> {
        be_bytes(self.epoch.number as nat, 8) + self.root.bytes()
    }

    open spec fn encoded_len() -> nat {
        72
    }

    proof fn encoding_is_injective(a: Self, b: Self) {
        lemma_byte_spans();
        lemma_be_bytes_len(a.epoch.number as nat, 8);
        lemma_be_bytes_len(b.epoch.number as nat, 8);
        QualifiedRoot::encoding_is_injective(a.root, b.root);
        QualifiedRoot::encoding_is_injective(b.root, a.root);
        if a.encoded() == b.encoded() {
            assert(a.encoded().subrange(0, 8) =~= be_bytes(a.epoch.number as nat, 8));
            assert(b.encoded().subrange(0, 8) =~= be_bytes(b.epoch.number as nat, 8));
            assert(a.encoded().subrange(8, 72) =~= a.root.bytes());
            assert(b.encoded().subrange(8, 72) =~= b.root.bytes());
            lemma_be_bytes_injective(a.epoch.number as nat, b.epoch.number as nat, 8);
        }
    }

    fn push_encoded(&self, out: &mut Vec<u8>) {
        push_be(out, self.epoch.number() as u128, 8);
        self.root.push_bytes(out);
        proof {
            assert(out@ =~= old(out)@ + self.encoded());
        }
    }
}

/// The encodings one after the other.
pub open spec fn encodings<S: Obligation>(list: Seq<S>) -> Seq<u8>
    decreases list.len(),
{
    if list.len() == 0 {
        Seq::empty()
    } else {
        encodings(list.drop_last()) + list.last().encoded()
    }
}

/// Purpose, epoch, count and the obligations in ascending order.
pub open spec fn obligation_bytes<S: Obligation>(domain: &str, epoch: RaiEpoch, obligations: Set<S>) -> Seq<u8> {
    text_bytes(domain) + be_bytes(epoch.number as nat, 8) + be_bytes(obligations.len(), 4) + encodings(
        ascending(obligations),
    )
}

proof fn lemma_encodings<S: Obligation>(a: Seq<S>, b: Seq<S>)
    requires
        a.len() == b.len(),
        encodings(a) == encodings(b),
    ensures
        a == b,
    decreases a.len(),
{
    if a.len() == 0 {
        assert(a =~= b);
    } else {
        let p = encodings(a);
        let q = encodings(b);
        S::encoding_is_injective(a.last(), b.last());
        S::encoding_is_injective(b.last(), a.last());
        let k = p.len() - S::encoded_len();
        assert(p.subrange(0, k) =~= encodings(a.drop_last()));
        assert(q.subrange(0, k) =~= encodings(b.drop_last()));
        assert(p.subrange(k, p.len() as int) =~= a.last().encoded());
        assert(q.subrange(k, q.len() as int) =~= b.last().encoded());
        lemma_encodings(a.drop_last(), b.drop_last());
        assert(a =~= a.drop_last().push(a.last()));
        assert(b =~= b.drop_last().push(b.last()));
    }
}

/// The encoding is canonical: equal bytes mean the same epoch and the same
/// obligations, as long as the count fits its field.
pub proof fn canonical_bytes_identify_obligations<S: Obligation>(
    domain: &str,
    e: RaiEpoch,
    a: Set<S>,
    f: RaiEpoch,
    b: Set<S>,
)
    requires
        a.finite(),
        b.finite(),
        a.len() <= u32::MAX,
        b.len() <= u32::MAX,
        obligation_bytes(domain, e, a) == obligation_bytes(domain, f, b),
    ensures
        e == f,
        a == b,
{
    let p = obligation_bytes(domain, e, a);
    let q = obligation_bytes(domain, f, b);
    let d = text_bytes(domain).len() as int;
    lemma_byte_spans();
    lemma_be_bytes_len(e.number as nat, 8);
    lemma_be_bytes_len(f.number as nat, 8);
    lemma_be_bytes_len(a.len(), 4);
    lemma_be_bytes_len(b.len(), 4);
    assert(p.subrange(d, d + 8) =~= be_bytes(e.number as nat, 8));
    assert(q.subrange(d, d + 8) =~= be_bytes(f.number as nat, 8));
    lemma_be_bytes_injective(e.number as nat, f.number as nat, 8);
    assert(p.subrange(d + 8, d + 12) =~= be_bytes(a.len(), 4));
    assert(q.subrange(d + 8, d + 12) =~= be_bytes(b.len(), 4));
    lemma_be_bytes_injective(a.len(), b.len(), 4);
    lemma_ascending(a);
    lemma_ascending(b);
    assert(p.subrange(d + 12, p.len() as int) =~= encodings(ascending(a)));
    assert(q.subrange(d + 12, q.len() as int) =~= encodings(ascending(b)));
    lemma_encodings(ascending(a), ascending(b));
}

fn canonical_obligations<S: Obligation>(domain: &str, epoch: RaiEpoch, obligations: &SortedSet<S>) -> (r: Vec<u8>)
    ensures
        r@ == obligation_bytes(domain, epoch, obligations@),
{
    let n: usize = obligations.len();
    let ghost list = ascending(obligations@);
    let mut bytes: Vec<u8> = Vec::new();
    push_text(&mut bytes, domain);
    push_be(&mut bytes, epoch.number() as u128, 8);
    push_be(&mut bytes, n as u128, 4);
    let ghost head = bytes@;
    for i in 0..n
        invariant
            n == obligations@.len(),
            n == list.len(),
            list == ascending(obligations@),
            bytes@ == head + encodings(list.take(i as int)),
    {
        obligations.at(i).push_encoded(&mut bytes);
        proof {
            assert(list.take(i + 1).drop_last() =~= list.take(i as int));
            assert(bytes@ =~= head + encodings(list.take(i + 1)));
        }
    }
    proof {
        assert(list.take(n as int) =~= list);
        assert(bytes@ =~= obligation_bytes(domain, epoch, obligations@));
    }
    bytes
}

/// A signed assertion of the slot obligations visible to a representative.
/// The obligations are kept in order, so what is signed is canonical.
pub struct RaiReport<S: Obligation> {
    pub reporter: PublicKey,
    pub epoch: RaiEpoch,
    pub visible_obligations: SortedSet<S>,
    pub signature: Signature,
}

/// The model of a report.
#[verifier::ext_equal]
#[verifier::reject_recursive_types(S)]
pub struct Report<S> {
    pub reporter: PublicKey,
    pub epoch: RaiEpoch,
    pub visible_obligations: Set<S>,
    pub signature: Signature,
}

impl<S: Obligation> DeepView for RaiReport<S> {
    type V = Report<S>;

    open spec fn deep_view(&self) -> Report<S> {
        Report {
            reporter: self.reporter,
            epoch: self.epoch,
            visible_obligations: self.visible_obligations@,
            signature: self.signature,
        }
    }
}

impl<S: Obligation> Duplicate for RaiReport<S> {
    fn duplicate(&self) -> (r: Self) {
        RaiReport {
            reporter: self.reporter,
            epoch: self.epoch,
            visible_obligations: self.visible_obligations.duplicate(),
            signature: self.signature,
        }
    }

    fn agrees(&self, other: &Self) -> (r: bool) {
        self.reporter == other.reporter && self.epoch == other.epoch && self.visible_obligations.agrees(
            &other.visible_obligations,
        ) && self.signature == other.signature
    }
}

impl<S: Obligation> RaiReport<S> {
    /// A report with the given signature over its signing bytes.
    pub fn new(reporter: PublicKey, epoch: RaiEpoch, obligations: Vec<S>, signature: Signature) -> (r: Self)
        ensures
            r.deep_view() == (Report {
                reporter,
                epoch,
                visible_obligations: obligations@.to_set(),
                signature,
            }),
    {
        RaiReport {
            reporter,
            epoch,
            visible_obligations: SortedSet::from_vec(&obligations),
            signature,
        }
    }

    /// What the reporter signs.
    pub fn signing_bytes(&self) -> (r: Vec<u8>)
        ensures
            r@ == obligation_bytes("RAI/Report/v1", self.epoch, self.visible_obligations@),
    {
        canonical_obligations("RAI/Report/v1", self.epoch, &self.visible_obligations)
    }
}

#[derive(Clone, Copy, Debug, PartialEq, Eq, Structural)]
pub enum ReportInsert {
    Added,
    Duplicate,
    Equivocation,
}

#[derive(Clone, Copy, Debug, PartialEq, Eq, Structural)]
pub enum ReportError {
    InvalidSignature,
}

impl ReportError {
    pub fn message(&self) -> (r: &'static str)
        ensures
            r@ == "invalid report signature"@,
    {
        "invalid report signature"
    }
}

/// Keeps one report of each reporter and epoch, and for good excludes a
/// reporter from an epoch after two different authentic reports.
pub struct RaiReportStore<S: Obligation> {
    reports: SortedMap<Pair<RaiEpoch, PublicKey>, RaiReport<S>>,
    equivocators: SortedSet<Pair<RaiEpoch, PublicKey>>,
}

/// The model of a report store.
#[verifier::ext_equal]
#[verifier::reject_recursive_types(S)]
pub struct Reports<S> {
    pub reports: Map<Pair<RaiEpoch, PublicKey>, Report<S>>,
    pub equivocators: Set<Pair<RaiEpoch, PublicKey>>,
}

impl<S: Obligation> View for RaiReportStore<S> {
    type V = Reports<S>;

    closed spec fn view(&self) -> Reports<S> {
        Reports { reports: self.reports@, equivocators: self.equivocators@ }
    }
}

impl<S: Obligation> DeepView for RaiReportStore<S> {
    type V = Reports<S>;

    open spec fn deep_view(&self) -> Reports<S> {
        self.view()
    }
}

impl<S: Obligation> Reports<S> {
    pub open spec fn none() -> Reports<S> {
        Reports { reports: Map::empty(), equivocators: Set::empty() }
    }

    /// Every report stands under its own epoch and reporter, and no
    /// equivocator has one.
    pub open spec fn well_formed(self) -> bool {
        &&& self.reports.dom().finite()
        &&& forall|key: Pair<RaiEpoch, PublicKey>| #[trigger]
            self.reports.contains_key(key) ==> {
                &&& self.reports[key].epoch == key.0
                &&& self.reports[key].reporter == key.1
                &&& !self.equivocators.contains(key)
            }
    }

    /// How the store receives an authentic report.
    pub open spec fn reception(self, report: Report<S>) -> ReportInsert {
        let key = Pair(report.epoch, report.reporter);
        if self.equivocators.contains(key) {
            ReportInsert::Equivocation
        } else if !self.reports.contains_key(key) {
            ReportInsert::Added
        } else if self.reports[key].visible_obligations == report.visible_obligations {
            ReportInsert::Duplicate
        } else {
            ReportInsert::Equivocation
        }
    }

    /// The store after it has received an authentic report.
    pub open spec fn with_report(self, report: Report<S>) -> Reports<S> {
        let key = Pair(report.epoch, report.reporter);
        match self.reception(report) {
            ReportInsert::Added => Reports { reports: self.reports.insert(key, report), ..self },
            ReportInsert::Duplicate => self,
            ReportInsert::Equivocation => Reports {
                reports: self.reports.remove(key),
                equivocators: self.equivocators.insert(key),
            },
        }
    }

    /// Those whose report for the epoch counts.
    pub open spec fn reporters(self, epoch: RaiEpoch) -> Set<PublicKey> {
        Set::new(|reporter: PublicKey| self.reports.contains_key(Pair(epoch, reporter)))
    }

    /// What at least one member of the committee reports.
    pub open spec fn visible(self, epoch: RaiEpoch, committee: Map<PublicKey, Amount>) -> Set<S> {
        Set::new(
            |slot: S|
                exists|reporter: PublicKey| #[trigger]
                    self.reporters(epoch).contains(reporter) && weight_of(committee, reporter) > 0
                        && self.reports[Pair(epoch, reporter)].visible_obligations.contains(slot),
        )
    }

    /// The reporters that name an obligation.
    pub open spec fn naming(self, epoch: RaiEpoch, slot: S) -> Set<PublicKey> {
        Set::new(
            |reporter: PublicKey|
                self.reporters(epoch).contains(reporter) && self.reports[Pair(
                    epoch,
                    reporter,
                )].visible_obligations.contains(slot),
        )
    }

    /// What more weight reports than may be faulty.
    pub open spec fn supported(self, epoch: RaiEpoch, committee: Map<PublicKey, Amount>) -> Set<S> {
        Set::new(
            |slot: S| tally(committee, self.naming(epoch, slot)) > minus(total_weight(committee) as int, 1) / 5,
        )
    }

    /// The reporters hold all weight but what may be faulty.
    pub open spec fn has_quorum(self, epoch: RaiEpoch, committee: Map<PublicKey, Amount>) -> bool {
        let total = total_weight(committee) as int;
        tally(committee, self.reporters(epoch)) >= total - minus(total, 1) / 5
    }

    /// Every member with weight has a report that counts.
    pub open spec fn has_full_coverage(self, epoch: RaiEpoch, committee: Map<PublicKey, Amount>) -> bool {
        forall|rep: PublicKey| #[trigger]
            weight_of(committee, rep) > 0 ==> self.reporters(epoch).contains(rep)
    }
}

impl<S: Obligation> Default for RaiReportStore<S> {
    fn default() -> (r: Self)
        ensures
            r@ == Reports::<S>::none(),
    {
        let reports: SortedMap<Pair<RaiEpoch, PublicKey>, RaiReport<S>> = SortedMap::new();
        RaiReportStore { reports, equivocators: SortedSet::new() }
    }
}

impl<S: Obligation> RaiReportStore<S> {
    #[verifier::type_invariant]
    spec fn is_well_formed(&self) -> bool {
        self.view().well_formed()
    }

    /// Receives a report. `authentic` tells whether its signature is the
    /// reporter's over the signing bytes.
    pub fn insert(&mut self, report: RaiReport<S>, authentic: bool) -> (r: Result<ReportInsert, ReportError>)
        ensures
            match r {
                Ok(reception) => {
                    &&& authentic
                    &&& reception == old(self)@.reception(report.deep_view())
                    &&& final(self)@ == old(self)@.with_report(report.deep_view())
                },
                Err(error) => !authentic && error == ReportError::InvalidSignature && final(self)@ == old(self)@,
            },
    {
        proof {
            use_type_invariant(&*self);
        }
        if !authentic {
            return Err(ReportError::InvalidSignature);
        }
        let key = Pair(report.epoch, report.reporter);
        if self.equivocators.contains(&key) {
            proof {
                assert(self@.reports.remove(key) =~= self@.reports);
                assert(self@.equivocators.insert(key) =~= self@.equivocators);
            }
            return Ok(ReportInsert::Equivocation);
        }
        let known = match self.reports.get(&key) {
            None => None,
            Some(old) => Some(old.visible_obligations.agrees(&report.visible_obligations)),
        };
        match known {
            Some(true) => Ok(ReportInsert::Duplicate),
            None => {
                let mut taken: RaiReportStore<S> = RaiReportStore::default();
                core::mem::swap(&mut taken, self);
                let RaiReportStore { mut reports, equivocators } = taken;
                reports.insert(key, report);
                *self = RaiReportStore { reports, equivocators };
                Ok(ReportInsert::Added)
            },
            Some(false) => {
                let mut taken: RaiReportStore<S> = RaiReportStore::default();
                core::mem::swap(&mut taken, self);
                let RaiReportStore { mut reports, mut equivocators } = taken;
                reports.remove(&key);
                equivocators.insert(key);
                *self = RaiReportStore { reports, equivocators };
                Ok(ReportInsert::Equivocation)
            },
        }
    }

    pub fn is_equivocator(&self, epoch: RaiEpoch, reporter: &PublicKey) -> (r: bool)
        ensures
            r == self@.equivocators.contains(Pair(epoch, *reporter)),
    {
        self.equivocators.contains(&Pair(epoch, *reporter))
    }

    pub fn report_weight(&self, epoch: RaiEpoch, reporter: &PublicKey, committee: &RepWeights) -> (r: Amount)
        ensures
            r.raw == if self@.equivocators.contains(Pair(epoch, *reporter)) {
                0
            } else {
                weight_of(committee@, *reporter)
            },
    {
        if self.is_equivocator(epoch, reporter) {
            Amount::zero()
        } else {
            committee.weight(reporter)
        }
    }

    /// An obligation is report-visible when at least one member of the
    /// committee that did not equivocate reports it.
    pub fn visible_from_reports(&self, epoch: RaiEpoch, committee: &RepWeights) -> (r: SortedSet<S>)
        ensures
            r@ == self@.visible(epoch, committee@),
    {
        let mut visible: SortedSet<S> = SortedSet::new();
        let n: usize = self.reports.len();
        let ghost keys = ascending(self.reports@.dom());
        let ghost m = self@;
        proof {
            use_type_invariant(self);
            lemma_ascending(self.reports@.dom());
        }
        for i in 0..n
            invariant
                m == self@,
                n == self.reports@.len(),
                n == keys.len(),
                keys == ascending(self.reports@.dom()),
                forall|j: int| 0 <= j < n ==> self.reports@.contains_key(#[trigger] keys[j]),
                forall|slot: S| #[trigger]
                    visible@.contains(slot) == exists|j: int|
                        0 <= j < i && (#[trigger] keys[j]).0 == epoch && weight_of(committee@, keys[j].1) > 0
                            && m.reports[keys[j]].visible_obligations.contains(slot),
        {
            let key = self.reports.key_at(i);
            let ghost before = visible@;
            if key.0 == epoch && !committee.weight(&key.1).is_zero() {
                visible.extend(&self.reports.value_at(i).visible_obligations);
            }
            proof {
                assert(key == keys[i as int]);
                assert forall|slot: S| #[trigger]
                    visible@.contains(slot) == exists|j: int|
                        0 <= j < i + 1 && (#[trigger] keys[j]).0 == epoch && weight_of(committee@, keys[j].1) > 0
                            && m.reports[keys[j]].visible_obligations.contains(slot) by {
                    if before.contains(slot) {
                        let j = choose|j: int|
                            0 <= j < i && (#[trigger] keys[j]).0 == epoch && weight_of(committee@, keys[j].1) > 0
                                && m.reports[keys[j]].visible_obligations.contains(slot);
                        assert(keys[j].0 == epoch);
                    }
                }
            }
        }
        proof {
            assert forall|slot: S| visible@.contains(slot) == m.visible(epoch, committee@).contains(slot) by {
                if visible@.contains(slot) {
                    let j = choose|j: int|
                        0 <= j < n && (#[trigger] keys[j]).0 == epoch && weight_of(committee@, keys[j].1) > 0
                            && m.reports[keys[j]].visible_obligations.contains(slot);
                    assert(keys[j] == Pair(epoch, keys[j].1));
                    assert(m.reporters(epoch).contains(keys[j].1));
                }
                if m.visible(epoch, committee@).contains(slot) {
                    let reporter = choose|reporter: PublicKey| #[trigger]
                        m.reporters(epoch).contains(reporter) && weight_of(committee@, reporter) > 0
                            && m.reports[Pair(epoch, reporter)].visible_obligations.contains(slot);
                    assert(keys.contains(Pair(epoch, reporter)));
                    let j = choose|j: int| 0 <= j < keys.len() && keys[j] == Pair(epoch, reporter);
                    assert(keys[j].0 == epoch);
                }
            }
            assert(visible@ =~= m.visible(epoch, committee@));
        }
        visible
    }

    /// The committee members that name an obligation.
    fn naming(&self, epoch: RaiEpoch, slot: &S, committee: &RepWeights) -> (r: SortedSet<PublicKey>)
        ensures
            r@ == committee@.dom().intersect(self@.naming(epoch, *slot)),
    {
        let mut naming: SortedSet<PublicKey> = SortedSet::new();
        let n: usize = committee.len();
        let ghost reps = ascending(committee@.dom());
        proof {
            lemma_ascending(committee@.dom());
        }
        for i in 0..n
            invariant
                n == committee@.len(),
                n == reps.len(),
                reps == ascending(committee@.dom()),
                naming@ == reps.take(i as int).to_set().intersect(self@.naming(epoch, *slot)),
        {
            let rep = committee.rep_at(i);
            proof {
                lemma_take_set(reps, i as int);
            }
            if let Some(report) = self.reports.get(&Pair(epoch, rep)) {
                if report.visible_obligations.contains(slot) {
                    naming.insert(rep);
                }
            }
            proof {
                assert(naming@ =~= reps.take(i + 1).to_set().intersect(self@.naming(epoch, *slot)));
            }
        }
        proof {
            assert(reps.take(n as int) =~= reps);
        }
        naming
    }

    /// The obligations that more of the committee's weight reports than may be faulty.
    pub fn supported_by_reports(&self, epoch: RaiEpoch, committee: &RepWeights) -> (r: SortedSet<S>)
        ensures
            r@ == self@.supported(epoch, committee@),
    {
        let visible = self.visible_from_reports(epoch, committee);
        let slots = visible.to_vec();
        let total: u128 = committee.total().raw;
        let mut supported: SortedSet<S> = SortedSet::new();
        for i in 0..slots.len()
            invariant
                total == total_weight(committee@),
                supported@ == slots@.take(i as int).to_set().intersect(self@.supported(epoch, committee@)),
        {
            let slot = slots[i];
            let naming = self.naming(epoch, &slot, committee);
            proof {
                lemma_take_set(slots@, i as int);
                assert(committee@.dom().intersect(naming@) =~= committee@.dom().intersect(self@.naming(epoch, slot)));
            }
            if committee.tally(&naming).raw > total.saturating_sub(1) / 5 {
                supported.insert(slot);
            }
            proof {
                assert(supported@ =~= slots@.take(i + 1).to_set().intersect(self@.supported(epoch, committee@)));
            }
        }
        proof {
            lemma_ascending(visible@);
            assert(slots@.take(slots@.len() as int) =~= slots@);
            assert forall|slot: S| self@.supported(epoch, committee@).contains(slot) implies visible@.contains(slot) by {
                lemma_supported_is_visible(self@, epoch, committee@, slot);
            }
            assert(supported@ =~= self@.supported(epoch, committee@));
        }
        supported
    }

    fn reporters(&self, epoch: RaiEpoch, committee: &RepWeights) -> (r: SortedSet<PublicKey>)
        ensures
            r@ == committee@.dom().intersect(self@.reporters(epoch)),
    {
        let mut reporters: SortedSet<PublicKey> = SortedSet::new();
        let n: usize = committee.len();
        let ghost reps = ascending(committee@.dom());
        proof {
            lemma_ascending(committee@.dom());
        }
        for i in 0..n
            invariant
                n == committee@.len(),
                n == reps.len(),
                reps == ascending(committee@.dom()),
                reporters@ == reps.take(i as int).to_set().intersect(self@.reporters(epoch)),
        {
            let rep = committee.rep_at(i);
            proof {
                lemma_take_set(reps, i as int);
            }
            if self.reports.contains_key(&Pair(epoch, rep)) {
                reporters.insert(rep);
            }
            proof {
                assert(reporters@ =~= reps.take(i + 1).to_set().intersect(self@.reporters(epoch)));
            }
        }
        proof {
            assert(reps.take(n as int) =~= reps);
        }
        reporters
    }

    /// Whether the reporters hold all of the committee's weight but what may be faulty.
    pub fn has_quorum(&self, epoch: RaiEpoch, committee: &RepWeights) -> (r: bool)
        ensures
            r == self@.has_quorum(epoch, committee@),
    {
        let reporters = self.reporters(epoch, committee);
        let weight: u128 = committee.tally(&reporters).raw;
        let total: u128 = committee.total().raw;
        proof {
            assert(committee@.dom().intersect(reporters@) =~= committee@.dom().intersect(self@.reporters(epoch)));
        }
        weight >= total - total.saturating_sub(1) / 5
    }

    /// Whether every committee member with weight has a report that counts.
    pub fn has_full_coverage(&self, epoch: RaiEpoch, committee: &RepWeights) -> (r: bool)
        ensures
            r == self@.has_full_coverage(epoch, committee@),
    {
        let reporters = self.reporters(epoch, committee);
        let n: usize = committee.len();
        let ghost reps = ascending(committee@.dom());
        proof {
            lemma_ascending(committee@.dom());
        }
        for i in 0..n
            invariant
                n == committee@.len(),
                n == reps.len(),
                reps == ascending(committee@.dom()),
                forall|j: int| 0 <= j < n ==> committee@.contains_key(#[trigger] reps[j]),
                reporters@ == committee@.dom().intersect(self@.reporters(epoch)),
                forall|j: int|
                    0 <= j < i && weight_of(committee@, #[trigger] reps[j]) > 0 ==> self@.reporters(epoch).contains(
                        reps[j],
                    ),
        {
            let rep = committee.rep_at(i);
            if !committee.amount_at(i).is_zero() && !reporters.contains(&rep) {
                proof {
                    assert(weight_of(committee@, rep) > 0);
                }
                return false;
            }
        }
        proof {
            assert forall|rep: PublicKey| #[trigger] weight_of(committee@, rep) > 0 implies self@.reporters(
                epoch,
            ).contains(rep) by {
                assert(reps.contains(rep));
                let j = choose|j: int| 0 <= j < reps.len() && reps[j] == rep;
                assert(weight_of(committee@, reps[j]) > 0);
            }
        }
        true
    }
}

/// An equivocator stays excluded, whatever reports follow.
pub proof fn equivocation_is_permanent<S: Obligation>(m: Reports<S>, epoch: RaiEpoch, reporter: PublicKey, report: Report<S>)
    requires
        m.well_formed(),
        m.equivocators.contains(Pair(epoch, reporter)),
    ensures
        m.with_report(report).equivocators.contains(Pair(epoch, reporter)),
        !m.with_report(report).reporters(epoch).contains(reporter),
        m.with_report(report).well_formed(),
{
    assert(!m.reports.contains_key(Pair(epoch, reporter)));
}

/// The order of two authentic reports does not matter for who counts.
pub proof fn report_order_does_not_matter<S: Obligation>(m: Reports<S>, a: Report<S>, b: Report<S>)
    requires
        m.well_formed(),
    ensures
        ({
            let x = m.with_report(a).with_report(b);
            let y = m.with_report(b).with_report(a);
            &&& x.equivocators == y.equivocators
            &&& x.reports.dom() == y.reports.dom()
            &&& forall|key: Pair<RaiEpoch, PublicKey>| #[trigger]
                x.reports.contains_key(key) ==> x.reports[key].visible_obligations
                    == y.reports[key].visible_obligations
        }),
{
    let x = m.with_report(a).with_report(b);
    let y = m.with_report(b).with_report(a);
    assert(x.equivocators =~= y.equivocators);
    assert(x.reports.dom() =~= y.reports.dom());
}

/// The obligations that a voter in any of the slot's committees voted for.
pub open spec fn vote_visible<S>(votes: Seq<(PublicKey, S)>, committees: Seq<Map<PublicKey, Amount>>) -> Set<S> {
    Set::new(
        |slot: S|
            exists|i: int, c: int|
                0 <= i < votes.len() && 0 <= c < committees.len() && (#[trigger] votes[i]).1 == slot && weight_of(
                    #[trigger] committees[c],
                    votes[i].0,
                ) > 0,
    )
}

/// Returns obligations supported by a voter in any applicable slot committee.
pub fn visible_from_slot_votes<S: Obligation>(
    votes: &Vec<(PublicKey, S)>,
    slot_committees: &Vec<Arc<RepWeights>>,
) -> (r: SortedSet<S>)
    ensures
        r@ == vote_visible(votes@, slot_committees.deep_view()),
{
    let mut visible: SortedSet<S> = SortedSet::new();
    let ghost committees = slot_committees.deep_view();
    for i in 0..votes.len()
        invariant
            committees == slot_committees.deep_view(),
            visible@ == vote_visible(votes@.take(i as int), committees),
    {
        let mut member = false;
        for c in 0..slot_committees.len()
            invariant
                i < votes@.len(),
                committees == slot_committees.deep_view(),
                member == exists|d: int| 0 <= d < c && weight_of(#[trigger] committees[d], votes@[i as int].0) > 0,
        {
            proof {
                assert(committees[c as int] == slot_committees@[c as int].deep_view());
            }
            if !slot_committees[c].weight(&votes[i].0).is_zero() {
                member = true;
            }
        }
        let ghost before = visible@;
        if member {
            visible.insert(votes[i].1);
        }
        proof {
            let p = votes@.take(i as int);
            let q = votes@.take(i + 1);
            assert(q[i as int] == votes@[i as int]);
            assert forall|slot: S| visible@.contains(slot) == vote_visible(q, committees).contains(slot) by {
                if before.contains(slot) {
                    let (j, d) = choose|j: int, d: int|
                        0 <= j < p.len() && 0 <= d < committees.len() && (#[trigger] p[j]).1 == slot && weight_of(
                            #[trigger] committees[d],
                            p[j].0,
                        ) > 0;
                    assert(q[j] == p[j]);
                    assert(weight_of(committees[d], q[j].0) > 0);
                }
                if member && slot == votes@[i as int].1 {
                    let d = choose|d: int|
                        0 <= d < committees.len() && weight_of(#[trigger] committees[d], votes@[i as int].0) > 0;
                    assert(weight_of(committees[d], q[i as int].0) > 0);
                }
                if vote_visible(q, committees).contains(slot) {
                    let (j, d) = choose|j: int, d: int|
                        0 <= j < q.len() && 0 <= d < committees.len() && (#[trigger] q[j]).1 == slot && weight_of(
                            #[trigger] committees[d],
                            q[j].0,
                        ) > 0;
                    if j < i {
                        assert(p[j] == q[j]);
                        assert(weight_of(committees[d], p[j].0) > 0);
                    }
                }
            }
            assert(visible@ =~= vote_visible(q, committees));
        }
    }
    proof {
        assert(votes@.take(votes@.len() as int) =~= votes@);
    }
    visible
}

/// The obligations that an epoch has to settle before it closes.
pub struct RaiCloseCut<S: Obligation> {
    pub epoch: RaiEpoch,
    pub obligations: SortedSet<S>,
}

/// The model of a cut.
#[verifier::ext_equal]
#[verifier::reject_recursive_types(S)]
pub struct CloseCut<S> {
    pub epoch: RaiEpoch,
    pub obligations: Set<S>,
}

impl<S: Obligation> CloseCut<S> {
    /// The hash that names the cut.
    pub open spec fn hash(self) -> BlockHash {
        BlockHash::of_bytes(blake2b_256(obligation_bytes("RAI/CloseCut/v1", self.epoch, self.obligations)))
    }
}

impl<S: Obligation> DeepView for RaiCloseCut<S> {
    type V = CloseCut<S>;

    open spec fn deep_view(&self) -> CloseCut<S> {
        CloseCut { epoch: self.epoch, obligations: self.obligations@ }
    }
}

impl<S: Obligation> Duplicate for RaiCloseCut<S> {
    fn duplicate(&self) -> (r: Self) {
        RaiCloseCut { epoch: self.epoch, obligations: self.obligations.duplicate() }
    }

    fn agrees(&self, other: &Self) -> (r: bool) {
        self.epoch == other.epoch && self.obligations.agrees(&other.obligations)
    }
}

impl<S: Obligation> RaiCloseCut<S> {
    pub fn new(epoch: RaiEpoch, obligations: Vec<S>) -> (r: Self)
        ensures
            r.deep_view() == (CloseCut { epoch, obligations: obligations@.to_set() }),
    {
        RaiCloseCut { epoch, obligations: SortedSet::from_vec(&obligations) }
    }

    pub fn canonical_bytes(&self) -> (r: Vec<u8>)
        ensures
            r@ == obligation_bytes("RAI/CloseCut/v1", self.epoch, self.obligations@),
    {
        canonical_obligations("RAI/CloseCut/v1", self.epoch, &self.obligations)
    }

    pub fn hash(&self) -> (r: BlockHash)
        ensures
            r == self.deep_view().hash(),
    {
        digest_hash(&self.canonical_bytes())
    }
}

/// Cuts by their hash. A hash only ever names the cut it is the hash of.
pub struct RaiCloseCutStore<S: Obligation> {
    cuts: SortedMap<BlockHash, RaiCloseCut<S>>,
}

impl<S: Obligation> View for RaiCloseCutStore<S> {
    type V = Map<BlockHash, CloseCut<S>>;

    closed spec fn view(&self) -> Map<BlockHash, CloseCut<S>> {
        self.cuts@
    }
}

impl<S: Obligation> DeepView for RaiCloseCutStore<S> {
    type V = Map<BlockHash, CloseCut<S>>;

    open spec fn deep_view(&self) -> Map<BlockHash, CloseCut<S>> {
        self.view()
    }
}

/// Every hash names the cut it is the hash of.
pub open spec fn names_cuts<S: Obligation>(cuts: Map<BlockHash, CloseCut<S>>) -> bool {
    forall|hash: BlockHash| #[trigger] cuts.contains_key(hash) ==> cuts[hash].hash() == hash
}

#[derive(Clone, Copy, Debug, PartialEq, Eq, Structural)]
pub enum CloseCutDecisionError {
    WrongPhase,
    MissingPreimage,
    InvalidCut,
    ImmutableDecision,
}

impl CloseCutDecisionError {
    pub fn message(&self) -> (r: &'static str)
        ensures
            r@ == match *self {
                CloseCutDecisionError::WrongPhase => "epoch is not closing its cut"@,
                CloseCutDecisionError::MissingPreimage => "canonical cut preimage is unavailable"@,
                CloseCutDecisionError::InvalidCut => "cut does not match currently visible obligations"@,
                CloseCutDecisionError::ImmutableDecision => "the epoch already has a different decided cut"@,
            },
    {
        match self {
            CloseCutDecisionError::WrongPhase => "epoch is not closing its cut",
            CloseCutDecisionError::MissingPreimage => "canonical cut preimage is unavailable",
            CloseCutDecisionError::InvalidCut => "cut does not match currently visible obligations",
            CloseCutDecisionError::ImmutableDecision => "the epoch already has a different decided cut",
        }
    }
}

impl<S: Obligation> Default for RaiCloseCutStore<S> {
    fn default() -> (r: Self)
        ensures
            r@ == Map::<BlockHash, CloseCut<S>>::empty(),
    {
        let cuts: SortedMap<BlockHash, RaiCloseCut<S>> = SortedMap::new();
        RaiCloseCutStore { cuts }
    }
}

impl<S: Obligation> RaiCloseCutStore<S> {
    #[verifier::type_invariant]
    spec fn well_formed(&self) -> bool {
        names_cuts(self.cuts@)
    }

    /// Stores a cut under its hash, unless the hash is taken.
    pub fn insert(&mut self, cut: RaiCloseCut<S>) -> (r: BlockHash)
        ensures
            r == cut.deep_view().hash(),
            final(self)@ == if old(self)@.contains_key(r) {
                old(self)@
            } else {
                old(self)@.insert(r, cut.deep_view())
            },
    {
        let hash = cut.hash();
        proof {
            use_type_invariant(&*self);
        }
        if !self.cuts.contains_key(&hash) {
            let mut cuts: SortedMap<BlockHash, RaiCloseCut<S>> = SortedMap::new();
            core::mem::swap(&mut cuts, &mut self.cuts);
            cuts.insert(hash, cut);
            self.cuts = cuts;
        }
        hash
    }

    pub fn get(&self, hash: &BlockHash) -> (r: Option<&RaiCloseCut<S>>)
        ensures
            match r {
                Some(cut) => self@.contains_key(*hash) && cut.deep_view() == self@[*hash]
                    && cut.deep_view().hash() == *hash,
                None => !self@.contains_key(*hash),
            },
    {
        proof {
            use_type_invariant(self);
        }
        self.cuts.get(hash)
    }

    /// Every cut, in the order of the hashes.
    pub fn all(&self) -> (r: Vec<RaiCloseCut<S>>)
        ensures
            r.deep_view() == ascending(self@.dom()).map_values(|hash: BlockHash| self@[hash]),
            self@.dom().finite(),
    {
        let mut all: Vec<RaiCloseCut<S>> = Vec::new();
        let n: usize = self.cuts.len();
        for i in 0..n
            invariant
                n == self.cuts@.len(),
                n == ascending(self.cuts@.dom()).len(),
                all@.len() == i,
                forall|j: int|
                    0 <= j < i ==> (#[trigger] all@[j]).deep_view() == self.cuts@[ascending(self.cuts@.dom())[j]],
        {
            all.push(self.cuts.value_at(i).duplicate());
        }
        proof {
            assert(all.deep_view() =~= ascending(self@.dom()).map_values(|hash: BlockHash| self@[hash]));
        }
        all
    }
}

impl<S: Obligation> Duplicate for RaiCloseCutStore<S> {
    fn duplicate(&self) -> (r: Self) {
        proof {
            use_type_invariant(self);
        }
        RaiCloseCutStore { cuts: self.cuts.duplicate() }
    }

    fn agrees(&self, other: &Self) -> (r: bool) {
        self.cuts.agrees(&other.cuts)
    }
}

proof fn lemma_weightless(committee: Map<PublicKey, Amount>, reps: Set<PublicKey>)
    requires
        reps.finite(),
        forall|rep: PublicKey| #[trigger] reps.contains(rep) ==> weight_of(committee, rep) == 0,
    ensures
        weight_in(committee, reps) == 0,
    decreases reps.len(),
{
    if reps.len() > 0 {
        let rep = reps.choose();
        assert(reps.contains(rep));
        lemma_weightless(committee, reps.remove(rep));
    }
}

/// What enough weight reports is reported by a member with weight.
pub proof fn lemma_supported_is_visible<S: Obligation>(
    m: Reports<S>,
    epoch: RaiEpoch,
    committee: Map<PublicKey, Amount>,
    slot: S,
)
    requires
        committee.dom().finite(),
        m.supported(epoch, committee).contains(slot),
    ensures
        m.visible(epoch, committee).contains(slot),
{
    let reps = committee.dom().intersect(m.naming(epoch, slot));
    if forall|rep: PublicKey| #[trigger] reps.contains(rep) ==> weight_of(committee, rep) == 0 {
        lemma_weightless(committee, reps);
    }
    let rep = choose|rep: PublicKey| #[trigger] reps.contains(rep) && weight_of(committee, rep) != 0;
    assert(m.reporters(epoch).contains(rep));
}

/// Of a committee's weight, with `f` the largest amount below a fifth of it: the
/// reports of an epoch are enough exactly if all but at most `f` of it has reported,
/// and a slot is supported exactly if more than `f` of it has reported the slot.
pub proof fn reports_outweigh_the_faulty<S: Obligation>(
    m: Reports<S>,
    epoch: RaiEpoch,
    committee: Map<PublicKey, Amount>,
    f: nat,
    slot: S,
    reporters: Set<PublicKey>,
    named: Set<PublicKey>,
)
    requires
        5 * f < total_weight(committee) <= 5 * f + 5,
        forall|k: PublicKey| #[trigger] reporters.contains(k) <==> m.reports.contains_key(Pair(epoch, k)),
        forall|k: PublicKey| #[trigger]
            named.contains(k) <==> m.reports.contains_key(Pair(epoch, k)) && m.reports[Pair(
                epoch,
                k,
            )].visible_obligations.contains(slot),
    ensures
        m.has_quorum(epoch, committee) <==> tally(committee, reporters) + f >= total_weight(committee),
        m.supported(epoch, committee).contains(slot) <==> tally(committee, named) >= f + 1,
{
    assert(m.reporters(epoch) =~= reporters);
    assert(m.naming(epoch, slot) =~= named);
}

/// Every member that weighs anything has reported exactly if the reports cover the
/// committee; a slot is visible exactly if such a member reported it.
pub proof fn weightless_reports_show_nothing<S: Obligation>(
    m: Reports<S>,
    epoch: RaiEpoch,
    committee: Map<PublicKey, Amount>,
    slot: S,
)
    ensures
        m.has_full_coverage(epoch, committee) <==> forall|k: PublicKey|
            committee.contains_key(k) && committee[k].raw > 0 ==> #[trigger] m.reports.contains_key(Pair(epoch, k)),
        m.visible(epoch, committee).contains(slot) <==> exists|k: PublicKey|
            committee.contains_key(k) && committee[k].raw > 0 && #[trigger] m.reports.contains_key(Pair(epoch, k))
                && m.reports[Pair(epoch, k)].visible_obligations.contains(slot),
{
    if m.has_full_coverage(epoch, committee) {
        assert forall|k: PublicKey| committee.contains_key(k) && committee[k].raw > 0 implies #[trigger] m.reports.contains_key(
            Pair(epoch, k),
        ) by {
            assert(weight_of(committee, k) > 0);
            assert(m.reporters(epoch).contains(k));
        }
    }
    if m.visible(epoch, committee).contains(slot) {
        let k = choose|k: PublicKey| #[trigger]
            m.reporters(epoch).contains(k) && weight_of(committee, k) > 0 && m.reports[Pair(
                epoch,
                k,
            )].visible_obligations.contains(slot);
        assert(m.reports.contains_key(Pair(epoch, k)));
    }
    if exists|k: PublicKey|
        committee.contains_key(k) && committee[k].raw > 0 && #[trigger] m.reports.contains_key(Pair(epoch, k))
            && m.reports[Pair(epoch, k)].visible_obligations.contains(slot) {
        let k = choose|k: PublicKey|
            committee.contains_key(k) && committee[k].raw > 0 && #[trigger] m.reports.contains_key(Pair(epoch, k))
                && m.reports[Pair(epoch, k)].visible_obligations.contains(slot);
        assert(m.reporters(epoch).contains(k));
    }
}

/// The first report of a reporter about an epoch is added, the same one again is a
/// duplicate, and a different one is an equivocation, which takes the first one
/// back; other reporters and epochs are left alone.
pub proof fn reporters_speak_once<S: Obligation>(m: Reports<S>, a: Report<S>, b: Report<S>, key: Pair<RaiEpoch, PublicKey>)
    requires
        a.epoch == b.epoch,
        a.reporter == b.reporter,
        !m.reports.contains_key(Pair(a.epoch, a.reporter)),
        !m.equivocators.contains(Pair(a.epoch, a.reporter)),
        key != Pair(a.epoch, a.reporter),
    ensures
        ({
            let own = Pair(a.epoch, a.reporter);
            let one = m.with_report(a);
            let two = one.with_report(b);
            &&& m.reception(a) == ReportInsert::Added
            &&& one.reports.contains_key(own) && one.reports[own] == a
            &&& a.visible_obligations == b.visible_obligations ==> one.reception(b) == ReportInsert::Duplicate && two == one
            &&& a.visible_obligations != b.visible_obligations ==> one.reception(b) == ReportInsert::Equivocation
                && !two.reports.contains_key(own) && two.equivocators.contains(own)
            &&& two.reports.contains_key(key) <==> m.reports.contains_key(key)
            &&& m.reports.contains_key(key) ==> two.reports[key] == m.reports[key]
            &&& two.equivocators.contains(key) <==> m.equivocators.contains(key)
        }),
{
}

/// A vote shows its slot exactly if some committee gives the voter weight.
pub proof fn weighty_votes_show_their_slot<S>(votes: Seq<(PublicKey, S)>, committees: Seq<Map<PublicKey, Amount>>, i: int)
    requires
        0 <= i < votes.len(),
    ensures
        (exists|c: int|
            0 <= c < committees.len() && (#[trigger] committees[c]).contains_key(votes[i].0) && committees[c][votes[i].0].raw
                > 0) ==> vote_visible(votes, committees).contains(votes[i].1),
        (forall|j: int, c: int|
            0 <= j < votes.len() && 0 <= c < committees.len() && (#[trigger] votes[j]).1 == votes[i].1 ==> !(
            #[trigger] committees[c]).contains_key(votes[j].0) || committees[c][votes[j].0].raw == 0) ==> !vote_visible(
            votes,
            committees,
        ).contains(votes[i].1),
{
    if exists|c: int|
        0 <= c < committees.len() && (#[trigger] committees[c]).contains_key(votes[i].0) && committees[c][votes[i].0].raw > 0 {
        let c = choose|c: int|
            0 <= c < committees.len() && (#[trigger] committees[c]).contains_key(votes[i].0) && committees[c][votes[i].0].raw
                > 0;
        assert(weight_of(committees[c], votes[i].0) > 0);
    }
}

/// What a report or a cut is signed or named by: the tag, eight bytes with the epoch, four
/// with the number of obligations, then the obligations in ascending order.
pub proof fn obligation_bytes_layout<S: Obligation>(domain: &str, epoch: RaiEpoch, obligations: Set<S>)
    ensures
        ({
            let m = obligation_bytes(domain, epoch, obligations);
            let t = text_bytes(domain);
            let n = t.len() as int;
            &&& m.subrange(0, n) == t
            &&& m.subrange(n, n + 8) == be_bytes(epoch.number as nat, 8)
            &&& m.subrange(n + 8, n + 12) == be_bytes(obligations.len(), 4)
            &&& m.skip(n + 12) == encodings(ascending(obligations))
            &&& m.len() >= n + 12
        }),
        forall|a: Seq<S>, s: S| #[trigger] encodings(a.push(s)) == encodings(a) + s.encoded(),
        encodings(Seq::<S>::empty()) == Seq::<u8>::empty(),
        ({
            let cut = CloseCut { epoch, obligations };
            cut.hash() == BlockHash::of_bytes(blake2b_256(obligation_bytes("RAI/CloseCut/v1", epoch, obligations)))
        }),
{
    let m = obligation_bytes(domain, epoch, obligations);
    let t = text_bytes(domain);
    let n = t.len() as int;
    lemma_be_bytes_len(epoch.number as nat, 8);
    lemma_be_bytes_len(obligations.len(), 4);
    assert(m.subrange(0, n) =~= t);
    assert(m.subrange(n, n + 8) =~= be_bytes(epoch.number as nat, 8));
    assert(m.subrange(n + 8, n + 12) =~= be_bytes(obligations.len(), 4));
    assert(m.skip(n + 12) =~= encodings(ascending(obligations)));
    assert forall|a: Seq<S>, s: S| #[trigger] encodings(a.push(s)) == encodings(a) + s.encoded() by {
        assert(a.push(s).drop_last() =~= a);
    }
}

}
