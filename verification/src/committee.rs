//! Committees of equal members, derived from balances fixed by epoch close.
use vstd::prelude::*;

use crate::ordered::{is_sorted, lemma_stable_sorted, stable_sort, stable_sorted, Duplicate, Key, Sortable, SortedMap};
use crate::rep_weights::{amount_sum, RepWeights};
use crate::types::{Amount, PublicKey, RaiElectionId, RaiVoteScope};

verus! {

/// A principal holds at least the total divided by this.
pub const RAI_PRINCIPAL_WEIGHT_DIVISOR: u128 = 1000;

/// The number of an epoch.
pub type RaiEpoch = u64;

#[derive(Clone, Copy, Debug, PartialEq, Eq, Structural)]
pub struct RaiCommitteeMember {
    pub account: PublicKey,
    pub balance: Amount,
}

impl DeepView for RaiCommitteeMember {
    type V = RaiCommitteeMember;

    open spec fn deep_view(&self) -> RaiCommitteeMember {
        *self
    }
}

impl Duplicate for RaiCommitteeMember {
    fn duplicate(&self) -> (r: Self) {
        *self
    }

    fn agrees(&self, other: &Self) -> (r: bool) {
        *self == *other
    }
}

impl Sortable for RaiCommitteeMember {
    open spec fn order(self) -> int {
        self.account.rank()
    }

    fn comes_before(&self, other: &Self) -> (r: bool) {
        self.account.precedes(&other.account)
    }
}

#[derive(Clone, Copy, Debug, PartialEq, Eq, Structural)]
pub struct RaiRepWeight {
    pub representative: PublicKey,
    pub weight: Amount,
}

impl DeepView for RaiRepWeight {
    type V = RaiRepWeight;

    open spec fn deep_view(&self) -> RaiRepWeight {
        *self
    }
}

impl Duplicate for RaiRepWeight {
    fn duplicate(&self) -> (r: Self) {
        *self
    }

    fn agrees(&self, other: &Self) -> (r: bool) {
        *self == *other
    }
}

impl Sortable for RaiRepWeight {
    open spec fn order(self) -> int {
        self.representative.rank()
    }

    fn comes_before(&self, other: &Self) -> (r: bool) {
        self.representative.precedes(&other.representative)
    }
}

/// The numbers of votes that a committee asks for.
#[derive(Clone, Copy, Debug, PartialEq, Eq, Structural)]
pub struct RaiCommitteeThresholds {
    pub size: usize,
    pub max_faulty: usize,
    pub max_offline: usize,
    pub notarization: usize,
    pub fast: usize,
    pub finalization: usize,
}

impl DeepView for RaiCommitteeThresholds {
    type V = RaiCommitteeThresholds;

    open spec fn deep_view(&self) -> RaiCommitteeThresholds {
        *self
    }
}

impl Duplicate for RaiCommitteeThresholds {
    fn duplicate(&self) -> (r: Self) {
        *self
    }

    fn agrees(&self, other: &Self) -> (r: bool) {
        *self == *other
    }
}

/// The thresholds of a committee that tolerates these faults.
pub open spec fn thresholds_with(size: int, max_faulty: int, max_offline: int) -> RaiCommitteeThresholds {
    let slow = if size < max_faulty + max_offline {
        0
    } else {
        size - (max_faulty + max_offline)
    };
    let fast = if size < max_offline {
        0
    } else {
        size - max_offline
    };
    RaiCommitteeThresholds {
        size: size as usize,
        max_faulty: max_faulty as usize,
        max_offline: max_offline as usize,
        notarization: slow as usize,
        fast: fast as usize,
        finalization: slow as usize,
    }
}

/// A committee of this size tolerates less than a third of faulty members.
pub open spec fn thresholds_of(size: int) -> RaiCommitteeThresholds {
    thresholds_with(
        size,
        if size == 0 {
            0
        } else {
            (size - 1) / 3
        },
        0,
    )
}

impl RaiCommitteeThresholds {
    pub fn for_size(size: usize) -> (r: Self)
        ensures
            r == thresholds_of(size as int),
    {
        RaiCommitteeThresholds::with_faults(size, size.saturating_sub(1) / 3, 0)
    }

    pub fn with_faults(size: usize, max_faulty: usize, max_offline: usize) -> (r: Self)
        requires
            max_faulty + max_offline <= usize::MAX,
        ensures
            r == thresholds_with(size as int, max_faulty as int, max_offline as int),
    {
        let slow: usize = size.saturating_sub(max_faulty + max_offline);
        let fast: usize = size.saturating_sub(max_offline);
        RaiCommitteeThresholds { size, max_faulty, max_offline, notarization: slow, fast, finalization: slow }
    }
}

/// Two groups of members that each reach the notarization threshold of a
/// nonempty committee share more members than may be faulty.
pub proof fn committee_quorums_intersect<T>(members: Set<T>, a: Set<T>, b: Set<T>)
    requires
        members.finite(),
        members.len() > 0,
        members.len() <= usize::MAX,
        a.subset_of(members),
        b.subset_of(members),
        a.len() >= thresholds_of(members.len() as int).notarization,
        b.len() >= thresholds_of(members.len() as int).notarization,
    ensures
        a.intersect(b).len() > thresholds_of(members.len() as int).max_faulty,
{
    vstd::set_lib::lemma_set_subset_finite(members, a);
    vstd::set_lib::lemma_set_subset_finite(members, b);
    vstd::set_lib::lemma_len_subset(a.union(b), members);
    vstd::set_lib::lemma_set_intersect_union_lens(a, b);
    assert(a + b =~= a.union(b));
}

/// A committee: its members in account order, and what it asks of them.
#[derive(Debug, PartialEq, Eq)]
pub struct RaiCommittee {
    members: Vec<RaiCommitteeMember>,
    thresholds: RaiCommitteeThresholds,
}

/// The model of a committee.
#[verifier::ext_equal]
pub struct Membership {
    pub members: Seq<RaiCommitteeMember>,
    pub thresholds: RaiCommitteeThresholds,
}

impl View for RaiCommittee {
    type V = Membership;

    closed spec fn view(&self) -> Membership {
        Membership { members: self.members@, thresholds: self.thresholds }
    }
}

impl DeepView for RaiCommittee {
    type V = Membership;

    open spec fn deep_view(&self) -> Membership {
        self.view()
    }
}

impl Membership {
    pub open spec fn contains(self, account: PublicKey) -> bool {
        exists|i: int| 0 <= i < self.members.len() && (#[trigger] self.members[i]).account == account
    }

    /// Whether so many votes reach a threshold. An empty committee never does.
    pub open spec fn reaches(self, votes: int, threshold: int) -> bool {
        self.members.len() > 0 && votes >= threshold
    }

    pub open spec fn accounts(self) -> Seq<PublicKey> {
        self.members.map_values(|member: RaiCommitteeMember| member.account)
    }
}

fn copy_members(members: &Vec<RaiCommitteeMember>) -> (r: Vec<RaiCommitteeMember>)
    ensures
        r@ == members@,
{
    let mut r: Vec<RaiCommitteeMember> = Vec::new();
    for i in 0..members.len()
        invariant
            r@ == members@.take(i as int),
    {
        r.push(members[i]);
        proof {
            assert(r@ =~= members@.take(i + 1));
        }
    }
    proof {
        assert(members@.take(members@.len() as int) =~= members@);
    }
    r
}

impl RaiCommittee {
    #[verifier::type_invariant]
    spec fn well_formed(&self) -> bool {
        is_sorted(self.members@)
    }

    /// A committee as it was stored. Members are put in account order.
    pub fn from_snapshot(snapshot: RaiCommitteeSnapshot) -> (r: Self)
        ensures
            r@ == (Membership { members: stable_sorted(snapshot.members@), thresholds: snapshot.thresholds }),
    {
        let members = stable_sort(&snapshot.members);
        proof {
            lemma_stable_sorted(snapshot.members@);
        }
        RaiCommittee { members, thresholds: snapshot.thresholds }
    }

    pub fn snapshot(&self) -> (r: RaiCommitteeSnapshot)
        ensures
            r.members@ == self@.members,
            r.thresholds == self@.thresholds,
    {
        RaiCommitteeSnapshot { members: copy_members(&self.members), thresholds: self.thresholds }
    }

    pub fn members(&self) -> (r: &Vec<RaiCommitteeMember>)
        ensures
            r@ == self@.members,
            is_sorted(self@.members),
    {
        proof {
            use_type_invariant(self);
        }
        &self.members
    }

    pub fn thresholds(&self) -> (r: RaiCommitteeThresholds)
        ensures
            r == self@.thresholds,
    {
        self.thresholds
    }

    pub fn len(&self) -> (r: usize)
        ensures
            r == self@.members.len(),
    {
        self.members.len()
    }

    pub fn is_empty(&self) -> (r: bool)
        ensures
            r == (self@.members.len() == 0),
    {
        self.members.len() == 0
    }

    pub fn contains(&self, account: &PublicKey) -> (r: bool)
        ensures
            r == self@.contains(*account),
    {
        proof {
            use_type_invariant(self);
        }
        let mut lo: usize = 0;
        let mut hi: usize = self.members.len();
        while lo < hi
            invariant
                lo <= hi <= self.members@.len(),
                is_sorted(self.members@),
                forall|i: int| 0 <= i < lo ==> (#[trigger] self.members@[i]).order() < account.rank(),
                forall|i: int|
                    hi <= i < self.members@.len() ==> (#[trigger] self.members@[i]).order() >= account.rank(),
            decreases hi - lo,
        {
            let mid: usize = lo + (hi - lo) / 2;
            if self.members[mid].account.precedes(account) {
                proof {
                    assert forall|i: int| 0 <= i < mid + 1 implies (#[trigger] self.members@[i]).order()
                        < account.rank() by {
                        if i < mid {
                            assert(self.members@[i].order() <= self.members@[mid as int].order());
                        }
                    }
                }
                lo = mid + 1;
            } else {
                proof {
                    assert forall|i: int| mid <= i < self.members@.len() implies (#[trigger] self.members@[i]).order()
                        >= account.rank() by {
                        if i > mid {
                            assert(self.members@[mid as int].order() <= self.members@[i].order());
                        }
                    }
                }
                hi = mid;
            }
        }
        let found = lo < self.members.len() && self.members[lo].account == *account;
        proof {
            if self@.contains(*account) {
                let i = choose|i: int| 0 <= i < self@.members.len() && (#[trigger] self@.members[i]).account == *account;
                assert(self.members@[i].order() == account.rank());
                assert(i >= lo);
                assert(self.members@[lo as int].order() >= account.rank());
                if i > lo {
                    assert(self.members@[lo as int].order() <= self.members@[i].order());
                }
                PublicKey::rank_is_injective(self.members@[lo as int].account, *account);
            }
            if found {
                assert(self@.members[lo as int].account == *account);
            }
        }
        found
    }

    pub fn has_final_quorum(&self, votes: usize) -> (r: bool)
        ensures
            r == self@.reaches(votes as int, self@.thresholds.finalization as int),
    {
        !self.is_empty() && votes >= self.thresholds.finalization
    }

    pub fn has_fast_quorum(&self, votes: usize) -> (r: bool)
        ensures
            r == self@.reaches(votes as int, self@.thresholds.fast as int),
    {
        !self.is_empty() && votes >= self.thresholds.fast
    }

    pub fn has_notarization_quorum(&self, votes: usize) -> (r: bool)
        ensures
            r == self@.reaches(votes as int, self@.thresholds.notarization as int),
    {
        !self.is_empty() && votes >= self.thresholds.notarization
    }

    /// Whether so many members include one that is not faulty.
    pub fn has_visibility_quorum(&self, votes: usize) -> (r: bool)
        ensures
            r == self@.reaches(votes as int, self@.thresholds.max_faulty + 1),
    {
        !self.is_empty() && votes > self.thresholds.max_faulty
    }

    fn has_same_members_as(&self, other: &Self) -> (r: bool)
        ensures
            r == (self@.accounts() == other@.accounts()),
    {
        proof {
            assert(self@.accounts().len() == self.members@.len());
            assert(other@.accounts().len() == other.members@.len());
        }
        if self.members.len() != other.members.len() {
            return false;
        }
        for i in 0..self.members.len()
            invariant
                self.members@.len() == other.members@.len(),
                forall|j: int| 0 <= j < i ==> (#[trigger] self.members@[j]).account == other.members@[j].account,
        {
            if self.members[i].account != other.members[i].account {
                proof {
                    assert(self@.accounts()[i as int] != other@.accounts()[i as int]);
                }
                return false;
            }
        }
        proof {
            assert(self@.accounts() =~= other@.accounts());
        }
        true
    }
}

impl Duplicate for RaiCommittee {
    fn duplicate(&self) -> (r: Self) {
        proof {
            use_type_invariant(self);
        }
        RaiCommittee { members: copy_members(&self.members), thresholds: self.thresholds }
    }

    fn agrees(&self, other: &Self) -> (r: bool) {
        if self.thresholds != other.thresholds {
            return false;
        }
        let same = self.members.agrees(&other.members);
        proof {
            assert(self.members.deep_view() =~= self.members@);
            assert(other.members.deep_view() =~= other.members@);
        }
        same
    }
}

/// A committee as it is stored.
#[derive(Debug, PartialEq, Eq)]
pub struct RaiCommitteeSnapshot {
    pub members: Vec<RaiCommitteeMember>,
    pub thresholds: RaiCommitteeThresholds,
}

impl DeepView for RaiCommitteeSnapshot {
    type V = Membership;

    open spec fn deep_view(&self) -> Membership {
        Membership { members: self.members@, thresholds: self.thresholds }
    }
}

/// A stored committee is read back as it was.
pub proof fn committee_snapshot_round_trip(m: Membership)
    requires
        is_sorted(m.members),
    ensures
        (Membership { members: stable_sorted(m.members), thresholds: m.thresholds }) == m,
{
    lemma_sorted_stays(m.members);
}

proof fn lemma_sorted_stays(q: Seq<RaiCommitteeMember>)
    requires
        is_sorted(q),
    ensures
        stable_sorted(q) == q,
    decreases q.len(),
{
    if q.len() == 0 {
        assert(stable_sorted(q) =~= q);
    } else {
        let front = q.drop_last();
        lemma_sorted_stays(front);
        if front.len() > 0 {
            assert(front.last() == q[q.len() - 2]);
            assert(q[q.len() - 2].order() <= q[q.len() - 1].order());
        }
        assert(stable_sorted(q) =~= q);
    }
}

/// The weights of all representatives at some moment, in key order. Their sum
/// fits an amount.
#[derive(Debug, PartialEq, Eq)]
pub struct RaiRepWeightSnapshot {
    weights: Vec<RaiRepWeight>,
}

impl View for RaiRepWeightSnapshot {
    type V = Seq<RaiRepWeight>;

    closed spec fn view(&self) -> Seq<RaiRepWeight> {
        self.weights@
    }
}

impl DeepView for RaiRepWeightSnapshot {
    type V = Seq<RaiRepWeight>;

    open spec fn deep_view(&self) -> Seq<RaiRepWeight> {
        self.view()
    }
}

/// The entries with weight.
pub open spec fn weighty(entries: Seq<(PublicKey, Amount)>) -> Seq<RaiRepWeight>
    decreases entries.len(),
{
    if entries.len() == 0 {
        Seq::empty()
    } else {
        let front = weighty(entries.drop_last());
        let (representative, weight) = entries.last();
        if weight.raw == 0 {
            front
        } else {
            front.push(RaiRepWeight { representative, weight })
        }
    }
}

/// The entries of a snapshot as balances.
pub open spec fn balances_of(weights: Seq<RaiRepWeight>) -> Seq<(PublicKey, Amount)> {
    weights.map_values(|entry: RaiRepWeight| (entry.representative, entry.weight))
}

impl RaiRepWeightSnapshot {
    #[verifier::type_invariant]
    spec fn well_formed(&self) -> bool {
        amount_sum(balances_of(self.weights@)) <= u128::MAX
    }

    pub fn from_weights(weights: Vec<(PublicKey, Amount)>) -> (r: Self)
        requires
            amount_sum(weights@) <= u128::MAX,
        ensures
            r@ == stable_sorted(weighty(weights@)),
    {
        let mut kept: Vec<RaiRepWeight> = Vec::new();
        for i in 0..weights.len()
            invariant
                kept@ == weighty(weights@.take(i as int)),
        {
            proof {
                assert(weights@.take(i + 1).drop_last() =~= weights@.take(i as int));
            }
            let (representative, weight) = weights[i];
            if !weight.is_zero() {
                kept.push(RaiRepWeight { representative, weight });
            }
        }
        proof {
            assert(weights@.take(weights@.len() as int) =~= weights@);
            lemma_weighty_sum(weights@);
            lemma_sorted_sum(kept@);
        }
        RaiRepWeightSnapshot { weights: stable_sort(&kept) }
    }

    /// The current weights.
    pub fn from_rep_weights(weights: &RepWeights) -> (r: Self)
        ensures
            exists|entries: Seq<(PublicKey, Amount)>| #[trigger]
                stable_sorted(weighty(entries)) == r@ && entries.len() == crate::ordered::ascending(
                    weights@.dom(),
                ).len() && forall|i: int|
                    0 <= i < entries.len() ==> #[trigger] entries[i] == (
                        crate::ordered::ascending(weights@.dom())[i],
                        weights@[crate::ordered::ascending(weights@.dom())[i]],
                    ),
    {
        let entries = weights.entries();
        let ghost list = entries@;
        let r = RaiRepWeightSnapshot::from_weights(entries);
        proof {
            assert(stable_sorted(weighty(list)) == r@);
        }
        r
    }

    pub fn weights(&self) -> (r: &Vec<RaiRepWeight>)
        ensures
            r@ == self@,
            amount_sum(balances_of(self@)) <= u128::MAX,
    {
        proof {
            use_type_invariant(self);
        }
        &self.weights
    }

    fn balances(&self) -> (r: Vec<(PublicKey, Amount)>)
        ensures
            r@ == balances_of(self@),
            amount_sum(r@) <= u128::MAX,
    {
        proof {
            use_type_invariant(self);
        }
        let mut r: Vec<(PublicKey, Amount)> = Vec::new();
        for i in 0..self.weights.len()
            invariant
                r@ == balances_of(self.weights@.take(i as int)),
        {
            r.push((self.weights[i].representative, self.weights[i].weight));
            proof {
                assert(r@ =~= balances_of(self.weights@.take(i + 1)));
            }
        }
        proof {
            assert(self.weights@.take(self.weights@.len() as int) =~= self.weights@);
        }
        r
    }
}

impl Default for RaiRepWeightSnapshot {
    fn default() -> (r: Self)
        ensures
            r@ == Seq::<RaiRepWeight>::empty(),
    {
        let weights: Vec<RaiRepWeight> = Vec::new();
        proof {
            assert(balances_of(weights@) =~= Seq::<(PublicKey, Amount)>::empty());
        }
        RaiRepWeightSnapshot { weights }
    }
}

impl Duplicate for RaiRepWeightSnapshot {
    fn duplicate(&self) -> (r: Self) {
        proof {
            use_type_invariant(self);
        }
        let mut weights: Vec<RaiRepWeight> = Vec::new();
        for i in 0..self.weights.len()
            invariant
                weights@ == self.weights@.take(i as int),
        {
            weights.push(self.weights[i]);
            proof {
                assert(weights@ =~= self.weights@.take(i + 1));
            }
        }
        proof {
            assert(self.weights@.take(self.weights@.len() as int) =~= self.weights@);
        }
        RaiRepWeightSnapshot { weights }
    }

    fn agrees(&self, other: &Self) -> (r: bool) {
        proof {
            assert(self.weights.deep_view() =~= self.weights@);
            assert(other.weights.deep_view() =~= other.weights@);
        }
        self.weights.agrees(&other.weights)
    }
}

proof fn lemma_sum_insert(q: Seq<RaiRepWeight>, k: int, x: RaiRepWeight)
    requires
        0 <= k <= q.len(),
    ensures
        amount_sum(balances_of(q.insert(k, x))) == amount_sum(balances_of(q)) + x.weight.raw,
    decreases q.len(),
{
    let r = q.insert(k, x);
    assert(balances_of(r).drop_last() =~= balances_of(r.drop_last()));
    if k == q.len() {
        assert(r.drop_last() =~= q);
    } else {
        lemma_sum_insert(q.drop_last(), k, x);
        assert(r.drop_last() =~= q.drop_last().insert(k, x));
        assert(balances_of(q).drop_last() =~= balances_of(q.drop_last()));
    }
}

proof fn lemma_sorted_sum(q: Seq<RaiRepWeight>)
    ensures
        amount_sum(balances_of(stable_sorted(q))) == amount_sum(balances_of(q)),
    decreases q.len(),
{
    if q.len() > 0 {
        let front = stable_sorted(q.drop_last());
        lemma_sorted_sum(q.drop_last());
        lemma_stable_sorted(q.drop_last());
        let k = crate::ordered::place_of(front, q.last());
        lemma_place_bounds(front, q.last());
        lemma_sum_insert(front, k, q.last());
        assert(balances_of(q).drop_last() =~= balances_of(q.drop_last()));
    }
}

proof fn lemma_place_bounds(q: Seq<RaiRepWeight>, x: RaiRepWeight)
    ensures
        0 <= crate::ordered::place_of(q, x) <= q.len(),
    decreases q.len(),
{
    if q.len() > 0 {
        lemma_place_bounds(q.drop_last(), x);
    }
}

proof fn lemma_weighty_sum(entries: Seq<(PublicKey, Amount)>)
    ensures
        amount_sum(balances_of(weighty(entries))) == amount_sum(entries),
    decreases entries.len(),
{
    if entries.len() > 0 {
        lemma_weighty_sum(entries.drop_last());
        let front = weighty(entries.drop_last());
        let (representative, weight) = entries.last();
        if weight.raw != 0 {
            let x = RaiRepWeight { representative, weight };
            assert(balances_of(front.push(x)).drop_last() =~= balances_of(front));
        }
    } else {
        assert(balances_of(weighty(entries)) =~= Seq::<(PublicKey, Amount)>::empty());
    }
}

/// The distinct committees that take part in an election.
#[derive(Debug, PartialEq, Eq)]
pub struct RaiCommitteeSet {
    committees: Vec<RaiCommittee>,
}

impl View for RaiCommitteeSet {
    type V = Seq<Membership>;

    closed spec fn view(&self) -> Seq<Membership> {
        self.committees.deep_view()
    }
}

/// The first committee of each group with the same members.
pub open spec fn distinct_committees(all: Seq<Membership>) -> Seq<Membership>
    decreases all.len(),
{
    if all.len() == 0 {
        Seq::empty()
    } else {
        let earlier = distinct_committees(all.drop_last());
        if has_members(earlier, all.last().accounts()) {
            earlier
        } else {
            earlier.push(all.last())
        }
    }
}

pub open spec fn has_members(committees: Seq<Membership>, accounts: Seq<PublicKey>) -> bool {
    exists|i: int| 0 <= i < committees.len() && (#[trigger] committees[i]).accounts() == accounts
}

/// The indexes of the committees that an account is a member of.
pub open spec fn is_index_of(committees: Seq<Membership>, account: PublicKey, scope: RaiVoteScope, i: int) -> bool {
    &&& 0 <= i < committees.len()
    &&& committees[i].contains(account)
    &&& scope matches RaiVoteScope::Committee(index) ==> i == index
}

impl RaiCommitteeSet {
    pub fn new(committees: Vec<RaiCommittee>) -> (r: Self)
        ensures
            r@ == distinct_committees(committees.deep_view()),
    {
        let mut result: Vec<RaiCommittee> = Vec::new();
        let ghost all = committees.deep_view();
        for i in 0..committees.len()
            invariant
                all == committees.deep_view(),
                result.deep_view() == distinct_committees(all.take(i as int)),
        {
            let mut known = false;
            let ghost earlier = result.deep_view();
            for j in 0..result.len()
                invariant
                    i < committees.len(),
                    all == committees.deep_view(),
                    earlier == result.deep_view(),
                    known == has_members(earlier.take(j as int), all[i as int].accounts()),
            {
                let ghost accounts = all[i as int].accounts();
                let ghost p = earlier.take(j as int);
                let ghost q = earlier.take(j + 1);
                if result[j].has_same_members_as(&committees[i]) {
                    known = true;
                }
                proof {
                    assert(earlier[j as int] == result@[j as int].deep_view());
                    assert(q[j as int] == earlier[j as int]);
                    if has_members(p, accounts) {
                        let x = choose|x: int| 0 <= x < p.len() && (#[trigger] p[x]).accounts() == accounts;
                        assert(q[x].accounts() == accounts);
                    }
                    if has_members(q, accounts) && earlier[j as int].accounts() != accounts {
                        let x = choose|x: int| 0 <= x < q.len() && (#[trigger] q[x]).accounts() == accounts;
                        assert(p[x].accounts() == accounts);
                    }
                }
            }
            proof {
                assert(earlier.len() == result@.len());
                assert(earlier.take(earlier.len() as int) =~= earlier);
                assert(all.take(i + 1).drop_last() =~= all.take(i as int));
            }
            if !known {
                result.push(committees[i].duplicate());
                proof {
                    assert(result.deep_view() =~= earlier.push(all[i as int]));
                }
            }
        }
        proof {
            assert(all.take(all.len() as int) =~= all);
        }
        RaiCommitteeSet { committees: result }
    }

    pub fn single(committee: RaiCommittee) -> (r: Self)
        ensures
            r@ == seq![committee@],
    {
        let mut committees: Vec<RaiCommittee> = Vec::new();
        committees.push(committee);
        proof {
            assert(committees.deep_view() =~= seq![committee@]);
        }
        let r = RaiCommitteeSet { committees };
        r
    }

    pub fn len(&self) -> (r: usize)
        ensures
            r == self@.len(),
    {
        self.committees.len()
    }

    pub fn is_empty(&self) -> (r: bool)
        ensures
            r == (self@.len() == 0),
    {
        self.committees.len() == 0
    }

    /// The committee at an index.
    pub fn at(&self, i: usize) -> (r: &RaiCommittee)
        requires
            i < self@.len(),
        ensures
            r@ == self@[i as int],
    {
        &self.committees[i]
    }

    pub fn contains(&self, account: &PublicKey) -> (r: bool)
        ensures
            r == exists|i: int| 0 <= i < self@.len() && (#[trigger] self@[i]).contains(*account),
    {
        for i in 0..self.committees.len()
            invariant
                forall|j: int| 0 <= j < i ==> !(#[trigger] self@[j]).contains(*account),
        {
            if self.committees[i].contains(account) {
                proof {
                    assert(self@[i as int].contains(*account));
                }
                return true;
            }
        }
        false
    }

    pub fn committee_indexes_for(&self, account: &PublicKey) -> (r: Vec<usize>)
        ensures
            is_index_list(r@, self@, *account, RaiVoteScope::All),
    {
        self.indexes(account, RaiVoteScope::All)
    }

    pub fn scoped_committee_indexes_for(&self, account: &PublicKey, scope: RaiVoteScope) -> (r: Vec<usize>)
        ensures
            is_index_list(r@, self@, *account, scope),
    {
        self.indexes(account, scope)
    }

    fn indexes(&self, account: &PublicKey, scope: RaiVoteScope) -> (r: Vec<usize>)
        ensures
            is_index_list(r@, self@, *account, scope),
    {
        let mut r: Vec<usize> = Vec::new();
        for i in 0..self.committees.len()
            invariant
                forall|x: int, y: int| 0 <= x < y < r@.len() ==> r@[x] < r@[y],
                forall|x: int|
                    0 <= x < r@.len() ==> (#[trigger] r@[x]) < i && is_index_of(self@, *account, scope, r@[x] as int),
                forall|j: int|
                    0 <= j < i && #[trigger] is_index_of(self@, *account, scope, j) ==> r@.contains(j as usize),
        {
            let meant = match scope {
                RaiVoteScope::All => true,
                RaiVoteScope::Committee(index) => i == index as usize,
            };
            if meant && self.committees[i].contains(account) {
                let ghost before = r@;
                r.push(i);
                proof {
                    assert(r@[before.len() as int] == i);
                    assert forall|j: int| 0 <= j < i + 1 && #[trigger] is_index_of(self@, *account, scope, j) implies r@.contains(
                        j as usize,
                    ) by {
                        if j < i {
                            assert(before.contains(j as usize));
                            let x = choose|x: int| 0 <= x < before.len() && before[x] == j as usize;
                            assert(r@[x] == j as usize);
                        }
                    }
                }
            }
        }
        r
    }
}

/// `list` holds, in order, the indexes of the committees that a vote of the
/// account with this scope is meant for.
pub open spec fn is_index_list(
    list: Seq<usize>,
    committees: Seq<Membership>,
    account: PublicKey,
    scope: RaiVoteScope,
) -> bool {
    &&& forall|x: int, y: int| 0 <= x < y < list.len() ==> list[x] < list[y]
    &&& forall|x: int|
        0 <= x < list.len() ==> is_index_of(committees, account, scope, (#[trigger] list[x]) as int)
    &&& forall|i: int| #[trigger]
        is_index_of(committees, account, scope, i) ==> list.contains(i as usize)
}

/// The members that a list of balances yields: those with at least a fixed
/// share of the total.
pub open spec fn principals(balances: Seq<(PublicKey, Amount)>, minimum: int) -> Seq<RaiCommitteeMember>
    decreases balances.len(),
{
    if balances.len() == 0 {
        Seq::empty()
    } else {
        let front = principals(balances.drop_last(), minimum);
        let (account, balance) = balances.last();
        if balance.raw == 0 || balance.raw < minimum {
            front
        } else {
            front.push(RaiCommitteeMember { account, balance })
        }
    }
}

/// The committee that a list of balances yields.
pub open spec fn derived_committee(balances: Seq<(PublicKey, Amount)>) -> Membership {
    let members = stable_sorted(principals(balances, (amount_sum(balances) / 1000) as int));
    Membership { members, thresholds: thresholds_of(members.len() as int) }
}

/// Derives committees from balances.
#[derive(Clone, Copy)]
pub struct RaiCommitteeDeriver {}

impl RaiCommitteeDeriver {
    pub fn new() -> (r: Self)
        ensures
            r == (RaiCommitteeDeriver {  }),
    {
        RaiCommitteeDeriver {  }
    }

    pub fn derive_genesis_committee(&self, balances: &Vec<(PublicKey, Amount)>) -> (r: RaiCommittee)
        requires
            amount_sum(balances@) <= u128::MAX,
        ensures
            r@ == derived_committee(balances@),
    {
        self.derive_committee(balances)
    }

    pub fn derive_closed_epoch_committee(&self, _epoch: RaiEpoch, balances: &Vec<(PublicKey, Amount)>) -> (r:
        RaiCommittee)
        requires
            amount_sum(balances@) <= u128::MAX,
        ensures
            r@ == derived_committee(balances@),
    {
        self.derive_committee(balances)
    }

    pub fn derive_committee(&self, balances: &Vec<(PublicKey, Amount)>) -> (r: RaiCommittee)
        requires
            amount_sum(balances@) <= u128::MAX,
        ensures
            r@ == derived_committee(balances@),
    {
        let mut total: u128 = 0;
        for i in 0..balances.len()
            invariant
                amount_sum(balances@) <= u128::MAX,
                total == amount_sum(balances@.take(i as int)),
        {
            proof {
                assert(balances@.take(i + 1).drop_last() =~= balances@.take(i as int));
                lemma_sum_prefix(balances@, i + 1);
            }
            total = total + balances[i].1.raw;
        }
        proof {
            assert(balances@.take(balances@.len() as int) =~= balances@);
        }
        let minimum: u128 = total / RAI_PRINCIPAL_WEIGHT_DIVISOR;
        let mut candidates: Vec<RaiCommitteeMember> = Vec::new();
        for i in 0..balances.len()
            invariant
                candidates@ == principals(balances@.take(i as int), minimum as int),
        {
            proof {
                assert(balances@.take(i + 1).drop_last() =~= balances@.take(i as int));
            }
            let (account, balance) = balances[i];
            if !balance.is_zero() && balance.raw >= minimum {
                candidates.push(RaiCommitteeMember { account, balance });
            }
        }
        let members = stable_sort(&candidates);
        proof {
            lemma_stable_sorted(candidates@);
        }
        let thresholds = RaiCommitteeThresholds::for_size(members.len());
        RaiCommittee { members, thresholds }
    }
}

proof fn lemma_sum_prefix(entries: Seq<(PublicKey, Amount)>, n: int)
    requires
        0 <= n <= entries.len(),
    ensures
        amount_sum(entries.take(n)) <= amount_sum(entries),
    decreases entries.len(),
{
    if n == entries.len() {
        assert(entries.take(n) =~= entries);
    } else {
        assert(entries.drop_last().take(n) =~= entries.take(n));
        lemma_sum_prefix(entries.drop_last(), n);
    }
}

/// The epoch `n` before `epoch`, if there is one.
pub open spec fn before(epoch: RaiEpoch, n: int) -> Option<RaiEpoch> {
    if epoch < n {
        None
    } else {
        Some((epoch - n) as u64)
    }
}

fn epochs_before(epoch: RaiEpoch, n: u64) -> (r: Option<RaiEpoch>)
    ensures
        r == before(epoch, n as int),
{
    epoch.checked_sub(n)
}

/// The committee of an epoch, if its history is known. Before the first epoch
/// it is the genesis one; `closed` is what the epoch fixed.
pub open spec fn known(genesis: Membership, epoch: Option<RaiEpoch>, closed: Option<Membership>) -> Option<Membership> {
    if epoch is None {
        Some(genesis)
    } else {
        closed
    }
}

/// A known committee, or the genesis one.
pub open spec fn or_genesis(genesis: Membership, known: Option<Membership>) -> Membership {
    match known {
        Some(committee) => committee,
        None => genesis,
    }
}

/// Two committees that vote together, if both are known.
pub open spec fn joined(first: Option<Membership>, second: Option<Membership>) -> Option<Seq<Membership>> {
    match (first, second) {
        (Some(first), Some(second)) => Some(distinct_committees(seq![first, second])),
        _ => None,
    }
}

/// The weights of a snapshot.
pub type SnapshotWeights = Seq<RaiRepWeight>;

/// What the close of an epoch fixes: its committee, and the weights behind it.
#[verifier::ext_equal]
pub struct Fixing {
    pub committee: Membership,
    pub weights: SnapshotWeights,
}

/// Provides committees derived from balances fixed by epoch close.
pub trait RaiCommitteeProvider: Sized {
    /// The committee before any epoch closed.
    spec fn genesis(&self) -> Membership;

    /// The committee that a closed epoch fixed.
    spec fn closed(&self, epoch: RaiEpoch) -> Option<Membership>;

    /// The weights that a closed epoch fixed, if they are kept.
    spec fn closed_weights(&self, epoch: RaiEpoch) -> Option<SnapshotWeights>;

    /// What the close of an epoch fixes with the current weights; `None` where a
    /// close fixes nothing.
    spec fn fixing(live: SnapshotWeights) -> Option<Fixing>;

    fn genesis_committee(&self) -> (r: RaiCommittee)
        ensures
            r@ == self.genesis(),
    ;

    fn committee_for_closed_epoch(&self, epoch: RaiEpoch) -> (r: Option<RaiCommittee>)
        ensures
            match r {
                Some(committee) => self.closed(epoch) == Some(committee@),
                None => self.closed(epoch) is None,
            },
    ;

    fn closed_epoch_rep_weight_snapshot(&self, epoch: RaiEpoch) -> (r: Option<RaiRepWeightSnapshot>)
        ensures
            match r {
                Some(snapshot) => self.closed_weights(epoch) == Some(snapshot@),
                None => self.closed_weights(epoch) is None,
            },
    ;

    /// Fixes the committee of a closed epoch, unless it is fixed already, and
    /// returns it, or the genesis one where a close fixes nothing.
    fn snapshot_closed_epoch_committee(&mut self, epoch: RaiEpoch, live: RaiRepWeightSnapshot) -> (r: RaiCommittee)
        ensures
            final(self).genesis() == old(self).genesis(),
            forall|e: RaiEpoch| #[trigger]
                final(self).closed(e) == if e == epoch && old(self).closed(e) is None && Self::fixing(live@) is Some {
                    Some(Self::fixing(live@)->0.committee)
                } else {
                    old(self).closed(e)
                },
            forall|e: RaiEpoch| #[trigger]
                final(self).closed_weights(e) == if e == epoch && old(self).closed(e) is None && Self::fixing(
                    live@,
                ) is Some {
                    Some(Self::fixing(live@)->0.weights)
                } else {
                    old(self).closed_weights(e)
                },
            r@ == or_genesis(final(self).genesis(), final(self).closed(epoch)),
    ;

    /// The committee fixed by an epoch, or the genesis one.
    fn committee_at(&self, epoch: Option<RaiEpoch>) -> (r: RaiCommittee)
        ensures
            r@ == or_genesis(self.genesis(), known(self.genesis(), epoch, self.closed(epoch->0))),
    {
        match epoch {
            Some(epoch) => match self.committee_for_closed_epoch(epoch) {
                Some(committee) => committee,
                None => self.genesis_committee(),
            },
            None => self.genesis_committee(),
        }
    }

    /// The committee fixed by an epoch, if its history is known.
    fn try_committee_at(&self, epoch: Option<RaiEpoch>) -> (r: Option<RaiCommittee>)
        ensures
            match r {
                Some(committee) => known(self.genesis(), epoch, self.closed(epoch->0)) == Some(committee@),
                None => known(self.genesis(), epoch, self.closed(epoch->0)) is None,
            },
    {
        match epoch {
            None => Some(self.genesis_committee()),
            Some(epoch) => self.committee_for_closed_epoch(epoch),
        }
    }

    /// The committees of an election, with the genesis one where history is missing.
    fn committees_for(&self, election_id: &RaiElectionId) -> (r: RaiCommitteeSet)
        ensures
            ({
                let older = before(election_id.epoch_of(), 3);
                let newer = before(election_id.epoch_of(), 2);
                let genesis = self.genesis();
                r@ == distinct_committees(
                    seq![
                        or_genesis(genesis, known(genesis, older, self.closed(older->0))),
                        or_genesis(genesis, known(genesis, newer, self.closed(newer->0))),
                    ],
                )
            }),
    {
        let epoch = election_id.epoch();
        let first = self.committee_at(epochs_before(epoch, 3));
        let second = self.committee_at(epochs_before(epoch, 2));
        let mut committees: Vec<RaiCommittee> = Vec::new();
        committees.push(first);
        committees.push(second);
        proof {
            assert(committees.deep_view() =~= seq![first@, second@]);
        }
        RaiCommitteeSet::new(committees)
    }

    /// The committees of an election, if their history is known.
    fn try_committees_for(&self, election_id: &RaiElectionId) -> (r: Option<RaiCommitteeSet>)
        ensures
            ({
                let older = before(election_id.epoch_of(), 3);
                let newer = before(election_id.epoch_of(), 2);
                let both = joined(
                    known(self.genesis(), older, self.closed(older->0)),
                    known(self.genesis(), newer, self.closed(newer->0)),
                );
                match r {
                    Some(committees) => both == Some(committees@),
                    None => both is None,
                }
            }),
    {
        let epoch = election_id.epoch();
        let first = match self.try_committee_at(epochs_before(epoch, 3)) {
            Some(committee) => committee,
            None => return None,
        };
        let second = match self.try_committee_at(epochs_before(epoch, 2)) {
            Some(committee) => committee,
            None => return None,
        };
        let mut committees: Vec<RaiCommittee> = Vec::new();
        committees.push(first);
        committees.push(second);
        proof {
            assert(committees.deep_view() =~= seq![first@, second@]);
        }
        Some(RaiCommitteeSet::new(committees))
    }
}

/// The committees of an election: those fixed three and two epochs before it,
/// if their history is known.
pub open spec fn election_committees<P: RaiCommitteeProvider>(provider: &P, id: RaiElectionId) -> Option<
    Seq<Membership>,
> {
    let older = before(id.epoch_of(), 3);
    let newer = before(id.epoch_of(), 2);
    joined(
        known(provider.genesis(), older, provider.closed(older->0)),
        known(provider.genesis(), newer, provider.closed(newer->0)),
    )
}

/// The model of a provider: the genesis committee, and what closed epochs fixed.
#[verifier::ext_equal]
pub struct Committees {
    pub genesis: Membership,
    pub closed: Map<RaiEpoch, Membership>,
    pub weights: Map<RaiEpoch, SnapshotWeights>,
}

impl Committees {
    /// The committee that a closed epoch fixed.
    pub open spec fn at(self, epoch: RaiEpoch) -> Option<Membership> {
        if self.closed.contains_key(epoch) {
            Some(self.closed[epoch])
        } else {
            None
        }
    }

    /// The committees of an election, if their history is known.
    pub open spec fn for_election(self, id: RaiElectionId) -> Option<Seq<Membership>> {
        let older = before(id.epoch_of(), 3);
        let newer = before(id.epoch_of(), 2);
        joined(known(self.genesis, older, self.at(older->0)), known(self.genesis, newer, self.at(newer->0)))
    }

    /// The committees once an epoch has closed. What is fixed stays.
    pub open spec fn with_close(self, epoch: RaiEpoch, fixing: Option<Fixing>) -> Committees {
        match fixing {
            Some(fixing) => if self.closed.contains_key(epoch) {
                self
            } else {
                Committees {
                    closed: self.closed.insert(epoch, fixing.committee),
                    weights: self.weights.insert(epoch, fixing.weights),
                    ..self
                }
            },
            None => self,
        }
    }
}

/// The model of a provider.
pub open spec fn committees_of<P: RaiCommitteeProvider>(provider: &P) -> Committees {
    Committees {
        genesis: provider.genesis(),
        closed: Map::new(
            |epoch: RaiEpoch| provider.closed(epoch) is Some,
            |epoch: RaiEpoch| provider.closed(epoch)->0,
        ),
        weights: Map::new(
            |epoch: RaiEpoch| provider.closed_weights(epoch) is Some,
            |epoch: RaiEpoch| provider.closed_weights(epoch)->0,
        ),
    }
}

/// Committees derived from weights: those at the start, and those that were
/// current when an epoch closed.
pub struct RepWeightRaiCommitteeProvider {
    genesis_snapshot: RaiRepWeightSnapshot,
    closed_rep_weight_snapshots: SortedMap<RaiEpoch, RaiRepWeightSnapshot>,
    closed_committees: SortedMap<RaiEpoch, RaiCommittee>,
}

/// The model of that provider.
#[verifier::ext_equal]
pub struct CommitteeHistory {
    pub genesis: Seq<RaiRepWeight>,
    pub snapshots: Map<RaiEpoch, Seq<RaiRepWeight>>,
    pub committees: Map<RaiEpoch, Membership>,
}

impl View for RepWeightRaiCommitteeProvider {
    type V = CommitteeHistory;

    closed spec fn view(&self) -> CommitteeHistory {
        CommitteeHistory {
            genesis: self.genesis_snapshot@,
            snapshots: self.closed_rep_weight_snapshots@,
            committees: self.closed_committees@,
        }
    }
}

impl CommitteeHistory {
    /// The committee that a closed epoch fixed. Weights take precedence over a
    /// committee that was stored on its own.
    pub open spec fn closed(self, epoch: RaiEpoch) -> Option<Membership> {
        if self.snapshots.contains_key(epoch) {
            Some(derived_committee(balances_of(self.snapshots[epoch])))
        } else if self.committees.contains_key(epoch) {
            Some(self.committees[epoch])
        } else {
            None
        }
    }

    /// The history once an epoch has closed with these weights.
    pub open spec fn with_close(self, epoch: RaiEpoch, live: Seq<RaiRepWeight>) -> CommitteeHistory {
        if self.closed(epoch) is Some {
            self
        } else {
            CommitteeHistory {
                snapshots: self.snapshots.insert(epoch, live),
                committees: self.committees.insert(epoch, derived_committee(balances_of(live))),
                ..self
            }
        }
    }
}

impl RepWeightRaiCommitteeProvider {
    pub fn new(live: RaiRepWeightSnapshot) -> (r: Self)
        ensures
            r@ == (CommitteeHistory { genesis: live@, snapshots: Map::empty(), committees: Map::empty() }),
    {
        RepWeightRaiCommitteeProvider::with_closed_epoch_snapshots(live, SortedMap::new(), SortedMap::new())
    }

    pub fn with_closed_epoch_snapshots(
        live: RaiRepWeightSnapshot,
        closed_rep_weight_snapshots: SortedMap<RaiEpoch, RaiRepWeightSnapshot>,
        closed_committees: SortedMap<RaiEpoch, RaiCommittee>,
    ) -> (r: Self)
        ensures
            r@ == (CommitteeHistory {
                genesis: live@,
                snapshots: closed_rep_weight_snapshots@,
                committees: closed_committees@,
            }),
    {
        RepWeightRaiCommitteeProvider { genesis_snapshot: live, closed_rep_weight_snapshots, closed_committees }
    }

    pub fn with_closed_committees(
        live: RaiRepWeightSnapshot,
        closed_committees: SortedMap<RaiEpoch, RaiCommittee>,
    ) -> (r: Self)
        ensures
            r@ == (CommitteeHistory {
                genesis: live@,
                snapshots: Map::empty(),
                committees: closed_committees@,
            }),
    {
        RepWeightRaiCommitteeProvider::with_closed_epoch_snapshots(live, SortedMap::new(), closed_committees)
    }
}

impl RaiCommitteeProvider for RepWeightRaiCommitteeProvider {
    open spec fn genesis(&self) -> Membership {
        derived_committee(balances_of(self@.genesis))
    }

    open spec fn closed(&self, epoch: RaiEpoch) -> Option<Membership> {
        self@.closed(epoch)
    }

    open spec fn closed_weights(&self, epoch: RaiEpoch) -> Option<SnapshotWeights> {
        if self@.snapshots.contains_key(epoch) {
            Some(self@.snapshots[epoch])
        } else {
            None
        }
    }

    open spec fn fixing(live: SnapshotWeights) -> Option<Fixing> {
        Some(Fixing { committee: derived_committee(balances_of(live)), weights: live })
    }

    fn closed_epoch_rep_weight_snapshot(&self, epoch: RaiEpoch) -> (r: Option<RaiRepWeightSnapshot>) {
        match self.closed_rep_weight_snapshots.get(&epoch) {
            Some(snapshot) => Some(snapshot.duplicate()),
            None => None,
        }
    }

    /// Fixes the committee of a closed epoch from the current weights, unless
    /// it is fixed already.
    fn snapshot_closed_epoch_committee(&mut self, epoch: RaiEpoch, live: RaiRepWeightSnapshot) -> (r: RaiCommittee)
        ensures
            final(self)@ == old(self)@.with_close(epoch, live@),
    {
        if let Some(committee) = self.committee_for_closed_epoch(epoch) {
            return committee;
        }
        let committee = RaiCommitteeDeriver::new().derive_closed_epoch_committee(epoch, &live.balances());
        self.closed_rep_weight_snapshots.insert(epoch, live);
        self.closed_committees.insert(epoch, committee.duplicate());
        committee
    }

    fn genesis_committee(&self) -> (r: RaiCommittee) {
        RaiCommitteeDeriver::new().derive_genesis_committee(&self.genesis_snapshot.balances())
    }

    fn committee_for_closed_epoch(&self, epoch: RaiEpoch) -> (r: Option<RaiCommittee>) {
        match self.closed_rep_weight_snapshots.get(&epoch) {
            Some(snapshot) => Some(
                RaiCommitteeDeriver::new().derive_closed_epoch_committee(epoch, &snapshot.balances()),
            ),
            None => match self.closed_committees.get(&epoch) {
                Some(committee) => Some(committee.duplicate()),
                None => None,
            },
        }
    }
}

/// A closed epoch's committee is fixed: whatever the weights are later, and
/// whichever epochs close, it stays the same.
pub proof fn closed_committee_is_fixed(h: CommitteeHistory, epoch: RaiEpoch, other: RaiEpoch, later: Seq<RaiRepWeight>)
    requires
        h.closed(epoch) is Some,
    ensures
        h.with_close(other, later).closed(epoch) == h.closed(epoch),
{
}

/// With any provider, what a closed epoch fixed stays, whichever epochs close.
pub proof fn fixed_committee_stays(c: Committees, epoch: RaiEpoch, other: RaiEpoch, fixing: Option<Fixing>)
    requires
        c.at(epoch) is Some,
    ensures
        c.with_close(other, fixing).at(epoch) == c.at(epoch),
        c.with_close(other, fixing).genesis == c.genesis,
{
}

proof fn lemma_sum_remove(entries: Seq<(PublicKey, Amount)>, k: int)
    requires
        0 <= k < entries.len(),
    ensures
        amount_sum(entries) == amount_sum(entries.remove(k)) + entries[k].1.raw,
    decreases entries.len(),
{
    if k == entries.len() - 1 {
        assert(entries.remove(k) =~= entries.drop_last());
    } else {
        lemma_sum_remove(entries.drop_last(), k);
        assert(entries.remove(k).drop_last() =~= entries.drop_last().remove(k));
    }
}

proof fn lemma_sum_of_order(a: Seq<(PublicKey, Amount)>, b: Seq<(PublicKey, Amount)>)
    requires
        a.to_multiset() == b.to_multiset(),
    ensures
        amount_sum(a) == amount_sum(b),
    decreases a.len(),
{
    broadcast use vstd::seq_lib::group_to_multiset_ensures;

    assert(a.len() == a.to_multiset().len() && b.len() == b.to_multiset().len());
    if a.len() > 0 {
        let n = a.len() - 1;
        assert(a.contains(a[n]));
        assert(b.to_multiset().count(a[n]) > 0);
        assert(b.contains(a[n]));
        let k = choose|k: int| 0 <= k < b.len() && b[k] == a[n];
        assert(a.remove(n) =~= a.drop_last());
        assert(a.drop_last().to_multiset() =~= b.remove(k).to_multiset());
        lemma_sum_of_order(a.drop_last(), b.remove(k));
        lemma_sum_remove(b, k);
    }
}

proof fn lemma_principals(balances: Seq<(PublicKey, Amount)>, minimum: int)
    requires
        distinct_accounts(balances),
    ensures
        forall|m: RaiCommitteeMember| #[trigger]
            principals(balances, minimum).contains(m) == (balances.contains((m.account, m.balance)) && m.balance.raw != 0
                && m.balance.raw >= minimum),
        principals(balances, minimum).no_duplicates(),
    decreases balances.len(),
{
    if balances.len() > 0 {
        let rest = balances.drop_last();
        let front = principals(rest, minimum);
        let (account, balance) = balances.last();
        lemma_principals(rest, minimum);
        assert(balances =~= rest.push(balances.last()));
        assert forall|m: RaiCommitteeMember| #[trigger]
            principals(balances, minimum).contains(m) == (balances.contains((m.account, m.balance)) && m.balance.raw != 0
                && m.balance.raw >= minimum) by {
            let entry = (m.account, m.balance);
            assert(balances.contains(entry) == (rest.contains(entry) || entry == balances.last())) by {
                if rest.contains(entry) {
                    let i = choose|i: int| 0 <= i < rest.len() && rest[i] == entry;
                    assert(balances[i] == entry);
                }
                if entry == balances.last() {
                    assert(balances[balances.len() - 1] == entry);
                }
            }
            if balance.raw != 0 && balance.raw >= minimum {
                let new = RaiCommitteeMember { account, balance };
                assert(front.push(new).contains(m) == (front.contains(m) || m == new)) by {
                    if front.contains(m) {
                        let i = choose|i: int| 0 <= i < front.len() && front[i] == m;
                        assert(front.push(new)[i] == m);
                    }
                    if m == new {
                        assert(front.push(new)[front.len() as int] == m);
                    }
                }
            }
        }
        if balance.raw != 0 && balance.raw >= minimum {
            let new = RaiCommitteeMember { account, balance };
            assert(!front.contains(new)) by {
                if front.contains(new) {
                    assert(rest.contains((account, balance)));
                    let i = choose|i: int| 0 <= i < rest.len() && rest[i] == (account, balance);
                    assert(balances[i].0 == balances[balances.len() - 1].0);
                }
            }
        }
    }
}

/// Two strictly sorted lists with the same members are the same list.
proof fn lemma_sorted_members(a: Seq<RaiCommitteeMember>, b: Seq<RaiCommitteeMember>)
    requires
        forall|i: int, j: int| 0 <= i < j < a.len() ==> (#[trigger] a[i]).order() < (#[trigger] a[j]).order(),
        forall|i: int, j: int| 0 <= i < j < b.len() ==> (#[trigger] b[i]).order() < (#[trigger] b[j]).order(),
        forall|m: RaiCommitteeMember| #[trigger] a.contains(m) == b.contains(m),
    ensures
        a == b,
    decreases a.len(),
{
    if a.len() == 0 {
        if b.len() > 0 {
            assert(b.contains(b[0]));
            assert(a.contains(b[0]));
        }
        assert(a =~= b);
    } else {
        assert(a.contains(a.last()));
        assert(b.contains(a.last()));
        let k = choose|k: int| 0 <= k < b.len() && b[k] == a.last();
        assert(b.contains(b.last()));
        assert(a.contains(b.last()));
        let l = choose|l: int| 0 <= l < a.len() && a[l] == b.last();
        assert(a.last() == b.last());
        let x = a.drop_last();
        let y = b.drop_last();
        assert forall|m: RaiCommitteeMember| #[trigger] x.contains(m) == y.contains(m) by {
            if x.contains(m) {
                let i = choose|i: int| 0 <= i < x.len() && x[i] == m;
                assert(a[i] == m && a[i].order() < a[a.len() - 1].order());
                assert(a.contains(m));
                assert(b.contains(m));
                let j = choose|j: int| 0 <= j < b.len() && b[j] == m;
                assert(y[j] == m);
            }
            if y.contains(m) {
                let i = choose|i: int| 0 <= i < y.len() && y[i] == m;
                assert(b[i] == m && b[i].order() < b[b.len() - 1].order());
                assert(b.contains(m));
                assert(a.contains(m));
                let j = choose|j: int| 0 <= j < a.len() && a[j] == m;
                assert(x[j] == m);
            }
        }
        lemma_sorted_members(x, y);
        assert(a =~= x.push(a.last()));
        assert(b =~= y.push(b.last()));
    }
}

/// The members of distinct accounts are strictly sorted.
proof fn lemma_members_strictly_sorted(balances: Seq<(PublicKey, Amount)>, minimum: int)
    requires
        distinct_accounts(balances),
    ensures
        ({
            let members = stable_sorted(principals(balances, minimum));
            &&& forall|i: int, j: int|
                0 <= i < j < members.len() ==> (#[trigger] members[i]).order() < (#[trigger] members[j]).order()
            &&& forall|m: RaiCommitteeMember| #[trigger]
                members.contains(m) == (balances.contains((m.account, m.balance)) && m.balance.raw != 0 && m.balance.raw
                    >= minimum)
        }),
{
    let found = principals(balances, minimum);
    let members = stable_sorted(found);
    lemma_principals(balances, minimum);
    lemma_stable_sorted(found);
    found.lemma_multiset_has_no_duplicates();
    members.lemma_multiset_has_no_duplicates_conv();
    assert forall|m: RaiCommitteeMember| #[trigger]
        members.contains(m) == (balances.contains((m.account, m.balance)) && m.balance.raw != 0 && m.balance.raw
            >= minimum) by {
        assert(found.contains(m) == members.contains(m));
    }
    assert forall|i: int, j: int| 0 <= i < j < members.len() implies (#[trigger] members[i]).order() < (
    #[trigger] members[j]).order() by {
        let x = members[i];
        let y = members[j];
        if x.order() == y.order() {
            PublicKey::rank_is_injective(x.account, y.account);
            assert(members.contains(x) && members.contains(y));
            let k = choose|k: int| 0 <= k < balances.len() && balances[k] == (x.account, x.balance);
            let l = choose|l: int| 0 <= l < balances.len() && balances[l] == (y.account, y.balance);
            assert(balances[k].0 == balances[l].0);
            assert(x == y);
        }
    }
}

/// Every account is listed once.
pub open spec fn distinct_accounts(balances: Seq<(PublicKey, Amount)>) -> bool {
    forall|i: int, j: int|
        0 <= i < balances.len() && 0 <= j < balances.len() && (#[trigger] balances[i]).0 == (#[trigger] balances[j]).0
            ==> i == j
}

/// Balances in any order yield the same committee, if every account is listed
/// once.
pub proof fn committee_ignores_order(a: Seq<(PublicKey, Amount)>, b: Seq<(PublicKey, Amount)>)
    requires
        distinct_accounts(a),
        a.to_multiset() == b.to_multiset(),
    ensures
        derived_committee(a) == derived_committee(b),
{
    broadcast use vstd::seq_lib::group_to_multiset_ensures;

    assert(a.no_duplicates());
    a.lemma_multiset_has_no_duplicates();
    b.lemma_multiset_has_no_duplicates_conv();
    assert forall|x: (PublicKey, Amount)| #[trigger] a.contains(x) == b.contains(x) by {
        assert(a.contains(x) == (a.to_multiset().count(x) > 0));
        assert(b.contains(x) == (b.to_multiset().count(x) > 0));
    }
    assert forall|i: int, j: int|
        0 <= i < b.len() && 0 <= j < b.len() && (#[trigger] b[i]).0 == (#[trigger] b[j]).0 implies i == j by {
        assert(b.contains(b[i]) && b.contains(b[j]));
        assert(a.contains(b[i]) && a.contains(b[j]));
        let k = choose|k: int| 0 <= k < a.len() && a[k] == b[i];
        let l = choose|l: int| 0 <= l < a.len() && a[l] == b[j];
        assert(a[k].0 == a[l].0);
        assert(b[i] == b[j]);
    }
    lemma_sum_of_order(a, b);
    let minimum = (amount_sum(a) / 1000) as int;
    lemma_members_strictly_sorted(a, minimum);
    lemma_members_strictly_sorted(b, minimum);
    lemma_sorted_members(stable_sorted(principals(a, minimum)), stable_sorted(principals(b, minimum)));
}

/// An account is a member of the derived committee exactly if its balance is not
/// zero and reaches a thousandth of the total, rounded down; nobody else is, and
/// the members stand in account order.
pub proof fn principals_hold_a_thousandth(balances: Seq<(PublicKey, Amount)>, account: PublicKey, balance: Amount)
    requires
        distinct_accounts(balances),
    ensures
        ({
            let members = derived_committee(balances).members;
            &&& members.contains(RaiCommitteeMember { account, balance }) <==> {
                &&& balances.contains((account, balance))
                &&& balance.raw > 0
                &&& 1000 * (balance.raw + 1) > amount_sum(balances)
            }
            &&& forall|i: int, j: int|
                0 <= i < j < members.len() ==> (#[trigger] members[i]).account.rank() < (#[trigger] members[j]).account.rank()
        }),
{
    let minimum = (amount_sum(balances) / 1000) as int;
    lemma_members_strictly_sorted(balances, minimum);
    let m = RaiCommitteeMember { account, balance };
    let members = derived_committee(balances).members;
    assert(members.contains(m) == (balances.contains((m.account, m.balance)) && m.balance.raw != 0 && m.balance.raw
        >= minimum));
    assert forall|i: int, j: int| 0 <= i < j < members.len() implies (#[trigger] members[i]).account.rank() < (
    #[trigger] members[j]).account.rank() by {
        assert(members[i].order() < members[j].order());
    }
}

/// A larger balance never costs an account its seat: where an account is a member,
/// every account with at least its balance is one too.
pub proof fn seats_go_by_balance(balances: Seq<(PublicKey, Amount)>, i: int, j: int)
    requires
        distinct_accounts(balances),
        0 <= i < balances.len(),
        0 <= j < balances.len(),
        balances[i].1.raw <= balances[j].1.raw,
        derived_committee(balances).contains(balances[i].0),
    ensures
        derived_committee(balances).contains(balances[j].0),
{
    let members = derived_committee(balances).members;
    let k = choose|k: int| 0 <= k < members.len() && (#[trigger] members[k]).account == balances[i].0;
    assert(members.contains(members[k]));
    principals_hold_a_thousandth(balances, members[k].account, members[k].balance);
    let l = choose|l: int| 0 <= l < balances.len() && balances[l] == (members[k].account, members[k].balance);
    assert(l == i);
    assert(balances.contains(balances[j]));
    principals_hold_a_thousandth(balances, balances[j].0, balances[j].1);
    let m = RaiCommitteeMember { account: balances[j].0, balance: balances[j].1 };
    let n = choose|n: int| 0 <= n < members.len() && members[n] == m;
    assert(members[n].account == balances[j].0);
}

/// A committee tolerates the largest number of faulty members that is below a
/// third, and needs all the others for a notarization or a finalization, and
/// everybody for a fast one.
pub proof fn committee_tolerates_a_third(size: int)
    requires
        0 < size <= usize::MAX,
    ensures
        ({
            let t = thresholds_of(size);
            &&& t.size == size
            &&& 3 * t.max_faulty < size <= 3 * t.max_faulty + 3
            &&& t.max_offline == 0
            &&& t.notarization + t.max_faulty == size
            &&& t.finalization + t.max_faulty == size
            &&& t.fast == size
        }),
{
}

/// The members that are left when the faulty and the offline ones are silent
/// reach the slow thresholds with nobody to spare, those left by the offline ones
/// alone the fast one.
pub proof fn thresholds_leave_out_the_absent(size: int, max_faulty: int, max_offline: int)
    requires
        0 <= max_faulty,
        0 <= max_offline,
        max_faulty + max_offline <= size <= usize::MAX,
    ensures
        ({
            let t = thresholds_with(size, max_faulty, max_offline);
            &&& t.size == size && t.max_faulty == max_faulty && t.max_offline == max_offline
            &&& t.notarization + max_faulty + max_offline == size
            &&& t.finalization + max_faulty + max_offline == size
            &&& t.fast + max_offline == size
        }),
{
}

/// An election's committees are those fixed by the close of the third and of the
/// second epoch before its own, the genesis one standing in where there is no
/// such epoch; the same members take part once.
pub proof fn committees_close_before_they_vote<P: RaiCommitteeProvider>(provider: &P, id: RaiElectionId)
    ensures
        ({
            let epoch = id.epoch_of();
            let found = election_committees(provider, id);
            let older = if epoch < 3 {
                Some(provider.genesis())
            } else {
                provider.closed((epoch - 3) as u64)
            };
            let newer = if epoch < 2 {
                Some(provider.genesis())
            } else {
                provider.closed((epoch - 2) as u64)
            };
            &&& found is Some <==> older is Some && newer is Some
            &&& found is Some ==> {
                &&& 1 <= found->0.len() <= 2
                &&& found->0[0] == older->0
                &&& found->0.len() == 1 <==> older->0.accounts() == newer->0.accounts()
                &&& found->0.len() == 2 ==> found->0[1] == newer->0
            }
        }),
{
    let older = known(provider.genesis(), before(id.epoch_of(), 3), provider.closed(before(id.epoch_of(), 3)->0));
    let newer = known(provider.genesis(), before(id.epoch_of(), 2), provider.closed(before(id.epoch_of(), 2)->0));
    if older is Some && newer is Some {
        lemma_two_committees(older->0, newer->0);
    }
}

proof fn lemma_two_committees(a: Membership, b: Membership)
    ensures
        distinct_committees(seq![a, b]) == if a.accounts() == b.accounts() {
            seq![a]
        } else {
            seq![a, b]
        },
{
    reveal_with_fuel(distinct_committees, 3);
    let none = Seq::<Membership>::empty();
    assert(seq![a, b].drop_last() =~= seq![a]);
    assert(seq![a].drop_last() =~= none);
    assert(!has_members(none, a.accounts()));
    assert(distinct_committees(seq![a]) =~= seq![a]);
    if a.accounts() == b.accounts() {
        assert(seq![a][0].accounts() == b.accounts());
        assert(has_members(seq![a], b.accounts()));
    } else {
        assert(!has_members(seq![a], b.accounts()));
        assert(seq![a].push(b) =~= seq![a, b]);
    }
}

/// The recorded committees serve an election from the same two epochs.
pub proof fn recorded_committees_serve_elections(c: Committees, id: RaiElectionId)
    requires
        id.epoch_of() >= 3,
    ensures
        ({
            let older = (id.epoch_of() - 3) as u64;
            let newer = (id.epoch_of() - 2) as u64;
            let found = c.for_election(id);
            &&& found is Some <==> c.closed.contains_key(older) && c.closed.contains_key(newer)
            &&& found is Some ==> {
                &&& found->0[0] == c.closed[older]
                &&& found->0.last() == if c.closed[older].accounts() == c.closed[newer].accounts() {
                    c.closed[older]
                } else {
                    c.closed[newer]
                }
            }
        }),
{
    let older = c.at((id.epoch_of() - 3) as u64);
    let newer = c.at((id.epoch_of() - 2) as u64);
    if older is Some && newer is Some {
        lemma_two_committees(older->0, newer->0);
    }
}

/// Closing an epoch for the first time fixes the committee of the weights at hand,
/// and leaves every other epoch alone.
pub proof fn close_fixes_the_weights_at_hand(h: CommitteeHistory, epoch: RaiEpoch, live: Seq<RaiRepWeight>, other: RaiEpoch)
    requires
        !h.snapshots.contains_key(epoch),
        !h.committees.contains_key(epoch),
    ensures
        ({
            let after = h.with_close(epoch, live);
            &&& after.snapshots.contains_key(epoch) && after.snapshots[epoch] == live
            &&& after.closed(epoch) is Some
            &&& distinct_accounts(balances_of(live)) ==> forall|i: int|
                0 <= i < live.len() ==> ((after.closed(epoch)->0).members.contains(
                    (RaiCommitteeMember { account: (#[trigger] live[i]).representative, balance: live[i].weight }),
                ) <==> live[i].weight.raw > 0 && 1000 * (live[i].weight.raw + 1) > amount_sum(balances_of(live)))
            &&& other != epoch ==> after.closed(other) == h.closed(other)
        }),
{
    let balances = balances_of(live);
    if distinct_accounts(balances) {
        assert forall|i: int| 0 <= i < live.len() implies (derived_committee(balances).members.contains(
            (RaiCommitteeMember { account: (#[trigger] live[i]).representative, balance: live[i].weight }),
        ) <==> live[i].weight.raw > 0 && 1000 * (live[i].weight.raw + 1) > amount_sum(balances)) by {
            principals_hold_a_thousandth(balances, live[i].representative, live[i].weight);
            assert(balances[i] == (live[i].representative, live[i].weight));
        }
    }
}

/// A list of weights keeps the entries that weigh anything, and no others.
pub proof fn weightless_entries_are_dropped(entries: Seq<(PublicKey, Amount)>, representative: PublicKey, weight: Amount)
    ensures
        weighty(entries).contains(RaiRepWeight { representative, weight }) <==> entries.contains((representative, weight))
            && weight.raw > 0,
    decreases entries.len(),
{
    let entry = (representative, weight);
    let kept = RaiRepWeight { representative, weight };
    if entries.len() > 0 {
        let rest = entries.drop_last();
        weightless_entries_are_dropped(rest, representative, weight);
        assert(entries =~= rest.push(entries.last()));
        assert(entries.contains(entry) == (rest.contains(entry) || entry == entries.last())) by {
            if rest.contains(entry) {
                let i = choose|i: int| 0 <= i < rest.len() && rest[i] == entry;
                assert(entries[i] == entry);
            }
            if entry == entries.last() {
                assert(entries[entries.len() - 1] == entry);
            }
        }
        let front = weighty(rest);
        if entries.last().1.raw != 0 {
            let last = RaiRepWeight { representative: entries.last().0, weight: entries.last().1 };
            assert(front.push(last).contains(kept) == (front.contains(kept) || kept == last)) by {
                if front.contains(kept) {
                    let i = choose|i: int| 0 <= i < front.len() && front[i] == kept;
                    assert(front.push(last)[i] == kept);
                }
                if kept == last {
                    assert(front.push(last)[front.len() as int] == kept);
                }
            }
        }
    }
}

/// A close fixes what it is given once; later closes of the epoch, and closes that give
/// nothing, change nothing.
pub proof fn close_fixes_once(c: Committees, epoch: RaiEpoch, fixing: Fixing, other: RaiEpoch)
    ensures
        c.with_close(epoch, None) == c,
        ({
            let after = c.with_close(epoch, Some(fixing));
            &&& !c.closed.contains_key(epoch) ==> after.closed.contains_key(epoch) && after.closed[epoch] == fixing.committee
                && after.weights.contains_key(epoch) && after.weights[epoch] == fixing.weights
            &&& c.closed.contains_key(epoch) ==> after == c
            &&& other != epoch ==> (after.closed.contains_key(other) <==> c.closed.contains_key(other))
            &&& other != epoch && c.closed.contains_key(other) ==> after.closed[other] == c.closed[other]
        }),
{
}

/// The committee of a closed epoch is derived from the weights kept of it; only where none
/// are kept it is the one given for it.
pub proof fn kept_weights_come_first(h: CommitteeHistory, epoch: RaiEpoch, account: PublicKey, balance: Amount)
    requires
        h.snapshots.contains_key(epoch) ==> distinct_accounts(balances_of(h.snapshots[epoch])),
    ensures
        h.snapshots.contains_key(epoch) ==> h.closed(epoch) is Some && ((h.closed(epoch)->0).members.contains(
            RaiCommitteeMember { account, balance },
        ) <==> balances_of(h.snapshots[epoch]).contains((account, balance)) && balance.raw > 0 && 1000 * (balance.raw + 1)
            > amount_sum(balances_of(h.snapshots[epoch]))),
        !h.snapshots.contains_key(epoch) && h.committees.contains_key(epoch) ==> h.closed(epoch) == Some(h.committees[epoch]),
        !h.snapshots.contains_key(epoch) && !h.committees.contains_key(epoch) ==> h.closed(epoch) is None,
{
    if h.snapshots.contains_key(epoch) {
        principals_hold_a_thousandth(balances_of(h.snapshots[epoch]), account, balance);
    }
}

/// An empty committee reaches no threshold; another reaches one with at least as many votes.
pub proof fn nobody_reaches_nothing(m: Membership, votes: int, threshold: int)
    ensures
        m.members.len() == 0 ==> !m.reaches(votes, threshold),
        m.members.len() > 0 ==> (m.reaches(votes, threshold) <==> votes >= threshold),
{
}

/// The genesis committee stands in exactly where none is known.
pub proof fn genesis_stands_in(genesis: Membership, known: Membership)
    ensures
        or_genesis(genesis, Some(known)) == known,
        or_genesis(genesis, None) == genesis,
{
}

}
