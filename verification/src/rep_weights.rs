//! Voting weights of representatives.
use vstd::prelude::*;

use crate::ordered::{ascending, lemma_ascending, lemma_take_distinct, Duplicate, SortedMap, SortedSet};
use crate::types::{Amount, PublicKey};

verus! {

/// The weight of one representative; strangers weigh nothing.
pub open spec fn weight_of(weights: Map<PublicKey, Amount>, rep: PublicKey) -> nat {
    if weights.contains_key(rep) {
        weights[rep].raw as nat
    } else {
        0
    }
}

/// The sum of the weights of the members of a finite set.
pub open spec fn weight_in(weights: Map<PublicKey, Amount>, reps: Set<PublicKey>) -> nat
    decreases reps.len(),
    when reps.finite()
{
    if reps.len() == 0 {
        0
    } else {
        let rep = reps.choose();
        weight_of(weights, rep) + weight_in(weights, reps.remove(rep))
    }
}

/// The combined weight of those representatives that are among `voters`.
pub open spec fn tally(weights: Map<PublicKey, Amount>, voters: Set<PublicKey>) -> nat {
    weight_in(weights, weights.dom().intersect(voters))
}

/// The combined weight of all representatives.
pub open spec fn total_weight(weights: Map<PublicKey, Amount>) -> nat {
    weight_in(weights, weights.dom())
}

/// The sum of the amounts of a list.
pub open spec fn amount_sum(entries: Seq<(PublicKey, Amount)>) -> nat
    decreases entries.len(),
{
    if entries.len() == 0 {
        0
    } else {
        amount_sum(entries.drop_last()) + entries.last().1.raw as nat
    }
}

/// A member's weight can be split off the sum, whichever member it is.
pub proof fn lemma_weight_split(weights: Map<PublicKey, Amount>, reps: Set<PublicKey>, rep: PublicKey)
    requires
        reps.finite(),
        reps.contains(rep),
    ensures
        weight_in(weights, reps) == weight_of(weights, rep) + weight_in(weights, reps.remove(rep)),
    decreases reps.len(),
{
    let head = reps.choose();
    assert(reps.contains(head));
    if head != rep {
        lemma_weight_split(weights, reps.remove(head), rep);
        lemma_weight_split(weights, reps.remove(rep), head);
        assert(reps.remove(head).remove(rep) =~= reps.remove(rep).remove(head));
    }
}

/// A larger set weighs at least as much.
pub proof fn lemma_weight_monotonic(weights: Map<PublicKey, Amount>, a: Set<PublicKey>, b: Set<PublicKey>)
    requires
        a.subset_of(b),
        b.finite(),
    ensures
        weight_in(weights, a) <= weight_in(weights, b),
    decreases b.len(),
{
    vstd::set_lib::lemma_set_subset_finite(b, a);
    if b.len() == 0 {
        assert(a =~= b);
    } else {
        let rep = b.choose();
        assert(b.contains(rep));
        lemma_weight_monotonic(weights, a.remove(rep), b.remove(rep));
        if a.contains(rep) {
            lemma_weight_split(weights, a, rep);
        } else {
            assert(a.remove(rep) =~= a);
        }
    }
}

/// Two sets weigh together what their union and their intersection weigh.
pub proof fn lemma_weight_union(weights: Map<PublicKey, Amount>, a: Set<PublicKey>, b: Set<PublicKey>)
    requires
        a.finite(),
        b.finite(),
    ensures
        weight_in(weights, a) + weight_in(weights, b) == weight_in(weights, a.union(b)) + weight_in(
            weights,
            a.intersect(b),
        ),
    decreases a.len(),
{
    if a.len() == 0 {
        assert(a.union(b) =~= b);
        assert(a.intersect(b) =~= a);
    } else {
        let rep = a.choose();
        assert(a.contains(rep));
        let rest = a.remove(rep);
        lemma_weight_union(weights, rest, b);
        if b.contains(rep) {
            assert(rest.union(b) =~= a.union(b));
            lemma_weight_split(weights, a.intersect(b), rep);
            assert(a.intersect(b).remove(rep) =~= rest.intersect(b));
        } else {
            lemma_weight_split(weights, a.union(b), rep);
            assert(a.union(b).remove(rep) =~= rest.union(b));
            assert(a.intersect(b) =~= rest.intersect(b));
        }
    }
}

/// Weights that agree on a set give it the same sum.
pub proof fn lemma_weight_congruent(
    v: Map<PublicKey, Amount>,
    w: Map<PublicKey, Amount>,
    reps: Set<PublicKey>,
)
    requires
        reps.finite(),
        forall|rep: PublicKey| reps.contains(rep) ==> weight_of(v, rep) == #[trigger] weight_of(w, rep),
    ensures
        weight_in(v, reps) == weight_in(w, reps),
    decreases reps.len(),
{
    if reps.len() > 0 {
        let rep = reps.choose();
        assert(reps.contains(rep));
        assert(weight_of(v, rep) == weight_of(w, rep));
        assert forall|k: PublicKey| reps.remove(rep).contains(k) implies weight_of(v, k)
            == #[trigger] weight_of(w, k) by {
            assert(reps.contains(k));
        }
        lemma_weight_congruent(v, w, reps.remove(rep));
    }
}

/// Binding a representative anew replaces its share of the total.
pub proof fn lemma_total_insert(weights: Map<PublicKey, Amount>, rep: PublicKey, amount: Amount)
    requires
        weights.dom().finite(),
    ensures
        total_weight(weights.insert(rep, amount)) == total_weight(weights) - weight_of(weights, rep)
            + amount.raw,
{
    let after = weights.insert(rep, amount);
    let rest = weights.dom().remove(rep);
    lemma_weight_split(after, after.dom(), rep);
    assert(after.dom().remove(rep) =~= rest);
    lemma_weight_congruent(weights, after, rest);
    if weights.contains_key(rep) {
        lemma_weight_split(weights, weights.dom(), rep);
    } else {
        assert(rest =~= weights.dom());
    }
}

/// The weight of every representative of a committee. Their sum fits an amount.
pub struct RepWeights {
    weights: SortedMap<PublicKey, Amount>,
}

impl View for RepWeights {
    type V = Map<PublicKey, Amount>;

    closed spec fn view(&self) -> Map<PublicKey, Amount> {
        self.weights@
    }
}

impl DeepView for RepWeights {
    type V = Map<PublicKey, Amount>;

    open spec fn deep_view(&self) -> Map<PublicKey, Amount> {
        self.view()
    }
}

impl RepWeights {
    #[verifier::type_invariant]
    spec fn well_formed(&self) -> bool {
        self.weights@.dom().finite() && total_weight(self.weights@) <= u128::MAX
    }

    pub fn new() -> (r: Self)
        ensures
            r@ == Map::<PublicKey, Amount>::empty(),
    {
        let weights: SortedMap<PublicKey, Amount> = SortedMap::new();
        RepWeights { weights }
    }

    /// Sets the weight of a representative.
    pub fn insert(&mut self, rep: PublicKey, amount: Amount)
        requires
            total_weight(old(self)@) - weight_of(old(self)@, rep) + amount.raw <= u128::MAX,
        ensures
            final(self)@ == old(self)@.insert(rep, amount),
    {
        proof {
            use_type_invariant(&*self);
            lemma_total_insert(self.weights@, rep, amount);
        }
        let mut weights: SortedMap<PublicKey, Amount> = SortedMap::new();
        proof {
            assert(total_weight(weights@) == 0);
        }
        core::mem::swap(&mut weights, &mut self.weights);
        weights.insert(rep, amount);
        self.weights = weights;
    }

    pub fn weight(&self, rep: &PublicKey) -> (r: Amount)
        ensures
            r.raw == weight_of(self@, *rep),
    {
        match self.weights.get(rep) {
            Some(amount) => *amount,
            None => Amount::zero(),
        }
    }

    pub fn len(&self) -> (r: usize)
        ensures
            r == self@.len(),
            self@.dom().finite(),
            r == ascending(self@.dom()).len(),
    {
        self.weights.len()
    }

    pub fn is_empty(&self) -> (r: bool)
        ensures
            r == (self@ == Map::<PublicKey, Amount>::empty()),
    {
        self.weights.is_empty()
    }

    /// The representative at position `i` of the key order.
    pub fn rep_at(&self, i: usize) -> (r: PublicKey)
        requires
            i < self@.len(),
        ensures
            r == ascending(self@.dom())[i as int],
            self@.contains_key(r),
    {
        self.weights.key_at(i)
    }

    /// The weight of the representative at position `i` of the key order.
    pub fn amount_at(&self, i: usize) -> (r: Amount)
        requires
            i < self@.len(),
        ensures
            r == self@[ascending(self@.dom())[i as int]],
    {
        *self.weights.value_at(i)
    }

    /// The combined weight of those representatives that are among `voters`.
    pub fn tally(&self, voters: &SortedSet<PublicKey>) -> (r: Amount)
        ensures
            r.raw == tally(self@, voters@),
            self@.dom().finite(),
            total_weight(self@) <= u128::MAX,
    {
        let n: usize = self.weights.len();
        let ghost keys = ascending(self@.dom());
        proof {
            use_type_invariant(self);
            lemma_ascending(self@.dom());
            assert(keys.take(0).to_set().intersect(voters@) =~= Set::<PublicKey>::empty());
        }
        let mut sum: u128 = 0;
        for i in 0..n
            invariant
                keys == ascending(self@.dom()),
                n == self@.len(),
                n == keys.len(),
                keys.no_duplicates(),
                keys.to_set() == self@.dom(),
                self@.dom().finite(),
                total_weight(self@) <= u128::MAX,
                sum == weight_in(self@, keys.take(i as int).to_set().intersect(voters@)),
        {
            let rep = self.weights.key_at(i);
            let amount = self.weights.value_at(i).raw;
            proof {
                lemma_take_distinct(keys, i as int);
                let before = keys.take(i as int).to_set().intersect(voters@);
                let after = keys.take(i + 1).to_set().intersect(voters@);
                lemma_weight_monotonic(self@, after, self@.dom());
                vstd::set_lib::lemma_set_subset_finite(self@.dom(), after);
                if voters@.contains(rep) {
                    assert(after.contains(rep));
                    lemma_weight_split(self@, after, rep);
                    assert(after.remove(rep) =~= before);
                } else {
                    assert(after =~= before);
                }
            }
            if voters.contains(&rep) {
                sum = sum + amount;
            }
        }
        proof {
            assert(keys.take(n as int) =~= keys);
            assert(keys.to_set().intersect(voters@) =~= self@.dom().intersect(voters@));
        }
        Amount { raw: sum }
    }

    /// The representatives with their weights, in key order.
    pub fn entries(&self) -> (r: Vec<(PublicKey, Amount)>)
        ensures
            r@.len() == ascending(self@.dom()).len(),
            forall|i: int|
                0 <= i < r@.len() ==> #[trigger] r@[i] == (
                    ascending(self@.dom())[i],
                    self@[ascending(self@.dom())[i]],
                ),
            amount_sum(r@) == total_weight(self@),
            total_weight(self@) <= u128::MAX,
            self@.dom().finite(),
    {
        proof {
            use_type_invariant(self);
        }
        let mut entries: Vec<(PublicKey, Amount)> = Vec::new();
        let n: usize = self.weights.len();
        let ghost keys = ascending(self@.dom());
        proof {
            lemma_ascending(self@.dom());
            assert(keys.take(0).to_set() =~= Set::<PublicKey>::empty());
        }
        for i in 0..n
            invariant
                keys == ascending(self@.dom()),
                n == self@.len(),
                n == keys.len(),
                keys.no_duplicates(),
                keys.to_set() == self@.dom(),
                self@.dom().finite(),
                forall|j: int| 0 <= j < n ==> self@.contains_key(#[trigger] keys[j]),
                entries@.len() == i,
                forall|j: int| 0 <= j < i ==> #[trigger] entries@[j] == (keys[j], self@[keys[j]]),
                amount_sum(entries@) == weight_in(self@, keys.take(i as int).to_set()),
        {
            let rep = self.weights.key_at(i);
            let amount = *self.weights.value_at(i);
            proof {
                lemma_take_distinct(keys, i as int);
                let after = keys.take(i + 1).to_set();
                vstd::set_lib::lemma_set_subset_finite(self@.dom(), after);
                assert(after.contains(rep));
                lemma_weight_split(self@, after, rep);
                assert(after.remove(rep) =~= keys.take(i as int).to_set());
                assert(self@.contains_key(keys[i as int]));
                assert(entries@.push((rep, amount)).drop_last() =~= entries@);
            }
            entries.push((rep, amount));
        }
        proof {
            assert(keys.take(n as int) =~= keys);
        }
        entries
    }

    /// The representatives.
    pub fn reps(&self) -> (r: SortedSet<PublicKey>)
        ensures
            r@ == self@.dom(),
    {
        self.weights.key_set()
    }

    /// The combined weight of all representatives.
    pub fn total(&self) -> (r: Amount)
        ensures
            r.raw == total_weight(self@),
            self@.dom().finite(),
    {
        let all = self.weights.key_set();
        proof {
            assert(self@.dom().intersect(all@) =~= self@.dom());
        }
        self.tally(&all)
    }
}

impl Duplicate for RepWeights {
    fn duplicate(&self) -> (r: Self) {
        proof {
            use_type_invariant(self);
        }
        RepWeights { weights: self.weights.duplicate() }
    }

    fn agrees(&self, other: &Self) -> (r: bool) {
        self.weights.agrees(&other.weights)
    }
}

/// Weights add up: a representative alone weighs what it is listed with, a stranger
/// nothing, groups without a common member weigh together what they weigh apart, and
/// everybody together weighs the total.
pub proof fn weights_add_up(weights: Map<PublicKey, Amount>, rep: PublicKey, a: Set<PublicKey>, b: Set<PublicKey>)
    requires
        weights.dom().finite(),
        a.disjoint(b),
    ensures
        tally(weights, set![rep]) == if weights.contains_key(rep) {
            weights[rep].raw as nat
        } else {
            0
        },
        tally(weights, a.union(b)) == tally(weights, a) + tally(weights, b),
        tally(weights, Set::empty()) == 0,
        weights.dom().subset_of(a) ==> tally(weights, a) == total_weight(weights),
{
    let one = weights.dom().intersect(set![rep]);
    if weights.contains_key(rep) {
        lemma_weight_split(weights, one, rep);
        assert(one.remove(rep) =~= Set::empty());
    } else {
        assert(one =~= Set::empty());
    }
    let x = weights.dom().intersect(a);
    let y = weights.dom().intersect(b);
    lemma_weight_union(weights, x, y);
    assert(x.union(y) =~= weights.dom().intersect(a.union(b)));
    assert(x.intersect(y) =~= Set::empty());
    assert(weights.dom().intersect(Set::empty()) =~= Set::<PublicKey>::empty());
    if weights.dom().subset_of(a) {
        assert(x =~= weights.dom());
    }
}

/// The sum of a list is that of its parts; one entry sums to its amount.
pub proof fn sums_add_up(a: Seq<(PublicKey, Amount)>, b: Seq<(PublicKey, Amount)>, entry: (PublicKey, Amount))
    ensures
        amount_sum(a + b) == amount_sum(a) + amount_sum(b),
        amount_sum(seq![entry]) == entry.1.raw,
    decreases b.len(),
{
    reveal_with_fuel(amount_sum, 2);
    assert(seq![entry].drop_last() =~= Seq::empty());
    if b.len() == 0 {
        assert(a + b =~= a);
    } else {
        sums_add_up(a, b.drop_last(), entry);
        assert((a + b).drop_last() =~= a + b.drop_last());
        assert((a + b).last() == b.last());
    }
}

}
