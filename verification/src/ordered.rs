//! Sets and maps kept in ascending key order.
//!
//! The order of a key is the order of its rank, an integer, so walking a
//! collection always yields its keys in one canonical sequence.
use vstd::prelude::*;

verus! {

/// A copyable value with a total order.
pub trait Key: Copy + Sized {
    /// Position of the value in the order.
    spec fn rank(self) -> int;

    /// Every rank is smaller than the span.
    spec fn span() -> int;

    proof fn rank_in_span(self)
        ensures
            0 <= self.rank() < Self::span(),
    ;

    proof fn rank_is_injective(a: Self, b: Self)
        requires
            a.rank() == b.rank(),
        ensures
            a == b,
    ;

    fn precedes(&self, other: &Self) -> (r: bool)
        ensures
            r == (self.rank() < other.rank()),
    ;
}

impl Key for u128 {
    open spec fn rank(self) -> int {
        self as int
    }

    open spec fn span() -> int {
        u128::MAX + 1
    }

    proof fn rank_in_span(self) {
    }

    proof fn rank_is_injective(a: Self, b: Self) {
    }

    fn precedes(&self, other: &Self) -> (r: bool) {
        *self < *other
    }
}

impl Key for u64 {
    open spec fn rank(self) -> int {
        self as int
    }

    open spec fn span() -> int {
        u64::MAX + 1
    }

    proof fn rank_in_span(self) {
    }

    proof fn rank_is_injective(a: Self, b: Self) {
    }

    fn precedes(&self, other: &Self) -> (r: bool) {
        *self < *other
    }
}

impl Key for u32 {
    open spec fn rank(self) -> int {
        self as int
    }

    open spec fn span() -> int {
        u32::MAX + 1
    }

    proof fn rank_in_span(self) {
    }

    proof fn rank_is_injective(a: Self, b: Self) {
    }

    fn precedes(&self, other: &Self) -> (r: bool) {
        *self < *other
    }
}

impl Key for u16 {
    open spec fn rank(self) -> int {
        self as int
    }

    open spec fn span() -> int {
        u16::MAX + 1
    }

    proof fn rank_in_span(self) {
    }

    proof fn rank_is_injective(a: Self, b: Self) {
    }

    fn precedes(&self, other: &Self) -> (r: bool) {
        *self < *other
    }
}

impl Key for usize {
    open spec fn rank(self) -> int {
        self as int
    }

    open spec fn span() -> int {
        usize::MAX + 1
    }

    proof fn rank_in_span(self) {
    }

    proof fn rank_is_injective(a: Self, b: Self) {
    }

    fn precedes(&self, other: &Self) -> (r: bool) {
        *self < *other
    }
}

/// Comparing mixed-radix numbers compares their digits from the left.
pub proof fn lemma_digits(a: int, b: int, c: int, d: int, span: int)
    requires
        0 <= b < span,
        0 <= d < span,
    ensures
        (a * span + b < c * span + d) == (a < c || (a == c && b < d)),
        (a * span + b == c * span + d) == (a == c && b == d),
{
    assert(a < c ==> a * span + span <= c * span) by (nonlinear_arith)
        requires
            span > 0,
    ;
    assert(c < a ==> c * span + span <= a * span) by (nonlinear_arith)
        requires
            span > 0,
    ;
}

/// Pairs are ordered by their first component, then by their second.
#[derive(Clone, Copy, Debug, PartialEq, Eq, PartialOrd, Ord, Hash, Structural)]
pub struct Pair<A, B>(pub A, pub B);

impl<A: Key, B: Key> Key for Pair<A, B> {
    open spec fn rank(self) -> int {
        self.0.rank() * B::span() + self.1.rank()
    }

    open spec fn span() -> int {
        A::span() * B::span()
    }

    proof fn rank_in_span(self) {
        self.0.rank_in_span();
        self.1.rank_in_span();
        let (a, b, s, t) = (self.0.rank(), self.1.rank(), A::span(), B::span());
        assert(0 <= a * t + b < s * t) by (nonlinear_arith)
            requires
                0 <= a < s,
                0 <= b < t,
        ;
    }

    proof fn rank_is_injective(x: Self, y: Self) {
        x.1.rank_in_span();
        y.1.rank_in_span();
        lemma_digits(x.0.rank(), x.1.rank(), y.0.rank(), y.1.rank(), B::span());
        A::rank_is_injective(x.0, y.0);
        B::rank_is_injective(x.1, y.1);
    }

    fn precedes(&self, other: &Self) -> (r: bool) {
        proof {
            self.1.rank_in_span();
            other.1.rank_in_span();
            lemma_digits(
                self.0.rank(),
                self.1.rank(),
                other.0.rank(),
                other.1.rank(),
                B::span(),
            );
        }
        if self.0.precedes(&other.0) {
            true
        } else if other.0.precedes(&self.0) {
            false
        } else {
            self.1.precedes(&other.1)
        }
    }
}

/// A value that can be copied and compared through its deep view.
pub trait Duplicate: DeepView + Sized {
    fn duplicate(&self) -> (r: Self)
        ensures
            r.deep_view() == self.deep_view(),
    ;

    fn agrees(&self, other: &Self) -> (r: bool)
        ensures
            r == (self.deep_view() == other.deep_view()),
    ;
}

impl Duplicate for u64 {
    fn duplicate(&self) -> (r: Self) {
        *self
    }

    fn agrees(&self, other: &Self) -> (r: bool) {
        *self == *other
    }
}

impl Duplicate for usize {
    fn duplicate(&self) -> (r: Self) {
        *self
    }

    fn agrees(&self, other: &Self) -> (r: bool) {
        *self == *other
    }
}

impl<T: Duplicate> Duplicate for Option<T> {
    fn duplicate(&self) -> (r: Self) {
        match self {
            Some(v) => Some(v.duplicate()),
            None => None,
        }
    }

    fn agrees(&self, other: &Self) -> (r: bool) {
        match (self, other) {
            (Some(a), Some(b)) => a.agrees(b),
            (None, None) => true,
            _ => false,
        }
    }
}

impl<T: Duplicate> Duplicate for Vec<T> {
    fn duplicate(&self) -> (r: Self) {
        let mut r: Vec<T> = Vec::new();
        for i in 0..self.len()
            invariant
                r@.len() == i,
                forall|j: int| 0 <= j < i ==> (#[trigger] r@[j]).deep_view() == self@[j].deep_view(),
        {
            r.push(self[i].duplicate());
        }
        proof {
            assert(r.deep_view() =~= self.deep_view());
        }
        r
    }

    fn agrees(&self, other: &Self) -> (r: bool) {
        if self.len() != other.len() {
            proof {
                assert(self.deep_view().len() != other.deep_view().len());
            }
            return false;
        }
        for i in 0..self.len()
            invariant
                self.len() == other.len(),
                forall|j: int| 0 <= j < i ==> (#[trigger] self@[j]).deep_view() == other@[j].deep_view(),
        {
            if !self[i].agrees(&other[i]) {
                proof {
                    assert(self.deep_view()[i as int] != other.deep_view()[i as int]);
                }
                return false;
            }
        }
        proof {
            assert(self.deep_view() =~= other.deep_view());
        }
        true
    }
}

/// The keys of `q` are strictly ascending.
pub open spec fn is_ascending<K: Key>(q: Seq<K>) -> bool {
    forall|i: int, j: int| 0 <= i < j < q.len() ==> #[trigger] q[i].rank() < #[trigger] q[j].rank()
}

/// `q` lists the members of `s`, each once, in ascending order.
pub open spec fn enumerates<K: Key>(q: Seq<K>, s: Set<K>) -> bool {
    is_ascending(q) && q.to_set() == s
}

/// The members of `s` in ascending order.
pub open spec fn ascending<K: Key>(s: Set<K>) -> Seq<K> {
    choose|q: Seq<K>| enumerates(q, s)
}

proof fn lemma_enumeration_is_unique<K: Key>(p: Seq<K>, q: Seq<K>)
    requires
        is_ascending(p),
        is_ascending(q),
        p.to_set() == q.to_set(),
    ensures
        p == q,
    decreases p.len(),
{
    if p.len() == 0 {
        if q.len() > 0 {
            assert(q.to_set().contains(q[0]));
            assert(p.contains(q[0]));
        }
        assert(p =~= q);
    } else {
        let a = p.last();
        assert(p.to_set().contains(a));
        assert(q.contains(a));
        let i = choose|i: int| 0 <= i < q.len() && q[i] == a;
        let b = q.last();
        assert(q.to_set().contains(b));
        assert(p.contains(b));
        let j = choose|j: int| 0 <= j < p.len() && p[j] == b;
        assert(a.rank() <= b.rank()) by {
            if i < q.len() - 1 {
                assert(q[i].rank() < q[q.len() - 1].rank());
            }
        }
        assert(b.rank() <= a.rank()) by {
            if j < p.len() - 1 {
                assert(p[j].rank() < p[p.len() - 1].rank());
            }
        }
        K::rank_is_injective(a, b);
        let p2 = p.drop_last();
        let q2 = q.drop_last();
        lemma_front_set(p);
        lemma_front_set(q);
        lemma_enumeration_is_unique(p2, q2);
        assert(p =~= p2.push(a));
        assert(q =~= q2.push(b));
    }
}

proof fn lemma_front_set<K: Key>(p: Seq<K>)
    requires
        is_ascending(p),
        p.len() > 0,
    ensures
        is_ascending(p.drop_last()),
        p.drop_last().to_set() == p.to_set().remove(p.last()),
{
    let p2 = p.drop_last();
    assert forall|k: K| p2.to_set().contains(k) == p.to_set().remove(p.last()).contains(k) by {
        if p2.to_set().contains(k) {
            let i = choose|i: int| 0 <= i < p2.len() && p2[i] == k;
            assert(p[i] == k);
            assert(p[i].rank() < p[p.len() - 1].rank());
            assert(p.contains(k));
        }
        if p.to_set().remove(p.last()).contains(k) {
            assert(p.contains(k));
            let i = choose|i: int| 0 <= i < p.len() && p[i] == k;
            assert(i < p.len() - 1);
            assert(p2[i] == k);
        }
    }
    assert(p2.to_set() =~= p.to_set().remove(p.last()));
}

proof fn lemma_ascending_len<K: Key>(q: Seq<K>)
    requires
        is_ascending(q),
    ensures
        q.to_set().finite(),
        q.to_set().len() == q.len(),
        q.no_duplicates(),
{
    assert forall|i: int, j: int| 0 <= i < q.len() && 0 <= j < q.len() && i != j implies q[i] != q[j] by {
        if i < j {
            assert(q[i].rank() < q[j].rank());
        } else {
            assert(q[j].rank() < q[i].rank());
        }
    }
    q.unique_seq_to_set();
}

proof fn lemma_enumerated<K: Key>(q: Seq<K>, s: Set<K>)
    requires
        enumerates(q, s),
    ensures
        ascending(s) == q,
        s.finite(),
        s.len() == q.len(),
{
    let p = ascending(s);
    assert(enumerates(p, s));
    lemma_enumeration_is_unique(p, q);
    lemma_ascending_len(q);
}

proof fn lemma_enumeration_exists<K: Key>(s: Set<K>)
    requires
        s.finite(),
    ensures
        exists|q: Seq<K>| enumerates(q, s),
    decreases s.len(),
{
    if s.len() == 0 {
        let q = Seq::<K>::empty();
        assert(q.to_set() =~= s);
        assert(enumerates(q, s));
    } else {
        let a = s.choose();
        let t = s.remove(a);
        lemma_enumeration_exists(t);
        let q = choose|q: Seq<K>| enumerates(q, t);
        let i = lemma_position(q, a);
        assert forall|j: int| 0 <= j < q.len() implies #[trigger] q[j].rank() != a.rank() by {
            if q[j].rank() == a.rank() {
                K::rank_is_injective(q[j], a);
                assert(q.contains(a));
                assert(q.to_set().contains(a));
            }
        }
        lemma_insert_enumerates(q, i, a);
        assert(t.insert(a) =~= s);
        assert(enumerates(q.insert(i, a), s));
    }
}

proof fn lemma_position<K: Key>(q: Seq<K>, a: K) -> (i: int)
    requires
        is_ascending(q),
    ensures
        0 <= i <= q.len(),
        forall|j: int| 0 <= j < i ==> #[trigger] q[j].rank() < a.rank(),
        forall|j: int| i <= j < q.len() ==> #[trigger] q[j].rank() >= a.rank(),
    decreases q.len(),
{
    if q.len() == 0 {
        0
    } else if q.last().rank() < a.rank() {
        assert forall|j: int| 0 <= j < q.len() implies #[trigger] q[j].rank() < a.rank() by {
            if j < q.len() - 1 {
                assert(q[j].rank() < q[q.len() - 1].rank());
            }
        }
        q.len() as int
    } else {
        let p = q.drop_last();
        let i = lemma_position(p, a);
        assert forall|j: int| 0 <= j < i implies #[trigger] q[j].rank() < a.rank() by {
            assert(p[j] == q[j]);
        }
        assert forall|j: int| i <= j < q.len() implies #[trigger] q[j].rank() >= a.rank() by {
            if j < p.len() {
                assert(p[j] == q[j]);
            }
        }
        i
    }
}

proof fn lemma_insert_enumerates<K: Key>(q: Seq<K>, i: int, a: K)
    requires
        is_ascending(q),
        0 <= i <= q.len(),
        forall|j: int| 0 <= j < i ==> #[trigger] q[j].rank() < a.rank(),
        forall|j: int| i <= j < q.len() ==> #[trigger] q[j].rank() > a.rank(),
    ensures
        enumerates(q.insert(i, a), q.to_set().insert(a)),
{
    let r = q.insert(i, a);
    assert forall|x: int, y: int| 0 <= x < y < r.len() implies #[trigger] r[x].rank() < #[trigger] r[y].rank() by {
        let x0 = if x < i { x } else { x - 1 };
        let y0 = if y < i { y } else { y - 1 };
        if x != i {
            assert(r[x] == q[x0]);
        }
        if y != i {
            assert(r[y] == q[y0]);
        }
        if x != i && y != i {
            assert(q[x0].rank() < q[y0].rank());
        }
    }
    assert forall|k: K| r.to_set().contains(k) == q.to_set().insert(a).contains(k) by {
        if r.to_set().contains(k) {
            let x = choose|x: int| 0 <= x < r.len() && r[x] == k;
            if x < i {
                assert(q[x] == k);
                assert(q.contains(k));
            } else if x > i {
                assert(q[x - 1] == k);
                assert(q.contains(k));
            }
        }
        if q.to_set().insert(a).contains(k) {
            if k == a {
                assert(r[i] == a);
            } else {
                assert(q.contains(k));
                let x = choose|x: int| 0 <= x < q.len() && q[x] == k;
                if x < i {
                    assert(r[x] == k);
                } else {
                    assert(r[x + 1] == k);
                }
            }
            assert(r.contains(k));
        }
    }
    assert(r.to_set() =~= q.to_set().insert(a));
}

proof fn lemma_remove_enumerates<K: Key>(q: Seq<K>, i: int)
    requires
        is_ascending(q),
        0 <= i < q.len(),
    ensures
        enumerates(q.remove(i), q.to_set().remove(q[i])),
{
    let r = q.remove(i);
    assert forall|x: int, y: int| 0 <= x < y < r.len() implies #[trigger] r[x].rank() < #[trigger] r[y].rank() by {
        let x0 = if x < i { x } else { x + 1 };
        let y0 = if y < i { y } else { y + 1 };
        assert(r[x] == q[x0]);
        assert(r[y] == q[y0]);
        assert(q[x0].rank() < q[y0].rank());
    }
    assert forall|k: K| r.to_set().contains(k) == q.to_set().remove(q[i]).contains(k) by {
        if r.to_set().contains(k) {
            let x = choose|x: int| 0 <= x < r.len() && r[x] == k;
            let x0 = if x < i { x } else { x + 1 };
            assert(q[x0] == k);
            assert(q.contains(k));
            if x0 < i {
                assert(q[x0].rank() < q[i].rank());
            } else {
                assert(q[i].rank() < q[x0].rank());
            }
        }
        if q.to_set().remove(q[i]).contains(k) {
            assert(q.contains(k));
            let x = choose|x: int| 0 <= x < q.len() && q[x] == k;
            assert(x != i);
            if x < i {
                assert(r[x] == k);
            } else {
                assert(r[x - 1] == k);
            }
            assert(r.contains(k));
        }
    }
    assert(r.to_set() =~= q.to_set().remove(q[i]));
}

/// Listing a finite set in ascending order yields each member exactly once.
pub proof fn lemma_ascending<K: Key>(s: Set<K>)
    requires
        s.finite(),
    ensures
        is_ascending(ascending(s)),
        ascending(s).to_set() == s,
        ascending(s).len() == s.len(),
        ascending(s).no_duplicates(),
        forall|i: int| 0 <= i < ascending(s).len() ==> s.contains(#[trigger] ascending(s)[i]),
        forall|k: K| s.contains(k) ==> #[trigger] ascending(s).contains(k),
{
    lemma_enumeration_exists(s);
    let q = ascending(s);
    assert(enumerates(q, s));
    lemma_ascending_len(q);
    assert forall|i: int| 0 <= i < q.len() implies s.contains(#[trigger] q[i]) by {
        assert(q.contains(q[i]));
        assert(q.to_set().contains(q[i]));
    }
    assert forall|k: K| s.contains(k) implies #[trigger] q.contains(k) by {
        assert(q.to_set().contains(k));
    }
}

/// A set of keys.
#[derive(Debug, PartialEq, Eq)]
pub struct SortedSet<K: Key> {
    items: Vec<K>,
}

impl<K: Key> View for SortedSet<K> {
    type V = Set<K>;

    closed spec fn view(&self) -> Set<K> {
        self.items@.to_set()
    }
}

impl<K: Key> DeepView for SortedSet<K> {
    type V = Set<K>;

    open spec fn deep_view(&self) -> Set<K> {
        self.view()
    }
}

impl<K: Key> SortedSet<K> {
    #[verifier::type_invariant]
    spec fn well_formed(&self) -> bool {
        is_ascending(self.items@)
    }

    pub fn new() -> (r: Self)
        ensures
            r@ == Set::<K>::empty(),
    {
        let r = SortedSet { items: Vec::new() };
        proof {
            assert(r.items@.to_set() =~= Set::<K>::empty());
        }
        r
    }

    pub fn len(&self) -> (r: usize)
        ensures
            r == self@.len(),
            self@.finite(),
            r == ascending(self@).len(),
            (r == 0) == (self@ == Set::<K>::empty()),
    {
        proof {
            use_type_invariant(self);
            lemma_enumerated(self.items@, self@);
            if self.items@.len() == 0 {
                assert(self@ =~= Set::<K>::empty());
            }
        }
        self.items.len()
    }

    pub fn is_empty(&self) -> (r: bool)
        ensures
            r == (self@ == Set::<K>::empty()),
            r == (self@.len() == 0),
            self@.finite(),
    {
        proof {
            use_type_invariant(self);
            lemma_enumerated(self.items@, self@);
            if self.items@.len() > 0 {
                assert(self@.contains(self.items@[0]));
            } else {
                assert(self@ =~= Set::<K>::empty());
            }
        }
        self.items.len() == 0
    }

    /// The member at position `i` of the ascending order.
    pub fn at(&self, i: usize) -> (r: K)
        requires
            i < self@.len(),
        ensures
            r == ascending(self@)[i as int],
            self@.contains(r),
    {
        proof {
            use_type_invariant(self);
            lemma_enumerated(self.items@, self@);
            assert(self.items@.contains(self.items@[i as int]));
        }
        self.items[i]
    }

    fn position(&self, key: &K) -> (r: usize)
        ensures
            r <= self.items@.len(),
            forall|i: int| 0 <= i < r ==> #[trigger] self.items@[i].rank() < key.rank(),
            forall|i: int| r <= i < self.items@.len() ==> #[trigger] self.items@[i].rank() >= key.rank(),
            is_ascending(self.items@),
            self@.contains(*key) == (r < self.items@.len() && self.items@[r as int] == *key),
    {
        proof {
            use_type_invariant(self);
        }
        let r = search(&self.items, key);
        proof {
            if self@.contains(*key) {
                let x = choose|x: int| 0 <= x < self.items@.len() && self.items@[x] == *key;
                assert(r <= x);
                if r < x {
                    assert(self.items@[r as int].rank() < self.items@[x].rank());
                }
            }
            if r < self.items@.len() && self.items@[r as int] == *key {
                assert(self.items@.contains(*key));
            }
        }
        r
    }

    pub fn contains(&self, key: &K) -> (r: bool)
        ensures
            r == self@.contains(*key),
    {
        let i = self.position(key);
        if i < self.items.len() && !key.precedes(&self.items[i]) {
            proof {
                K::rank_is_injective(self.items@[i as int], *key);
            }
            true
        } else {
            false
        }
    }

    /// Adds `key`; reports whether it was absent.
    pub fn insert(&mut self, key: K) -> (r: bool)
        ensures
            final(self)@ == old(self)@.insert(key),
            r == !old(self)@.contains(key),
    {
        let i = self.position(&key);
        if i < self.items.len() && !key.precedes(&self.items[i]) {
            proof {
                K::rank_is_injective(self.items@[i as int], key);
                assert(self@.insert(key) =~= self@);
            }
            false
        } else {
            let mut items: Vec<K> = Vec::new();
            core::mem::swap(&mut items, &mut self.items);
            proof {
                assert forall|j: int| i <= j < items@.len() implies #[trigger] items@[j].rank() > key.rank() by {
                    if j > i {
                        assert(items@[i as int].rank() < items@[j].rank());
                    }
                }
                lemma_insert_enumerates(items@, i as int, key);
            }
            items.insert(i, key);
            self.items = items;
            true
        }
    }

    /// Removes `key`; reports whether it was present.
    pub fn remove(&mut self, key: &K) -> (r: bool)
        ensures
            final(self)@ == old(self)@.remove(*key),
            r == old(self)@.contains(*key),
    {
        let i = self.position(key);
        if i < self.items.len() && !key.precedes(&self.items[i]) {
            proof {
                K::rank_is_injective(self.items@[i as int], *key);
            }
            let mut items: Vec<K> = Vec::new();
            core::mem::swap(&mut items, &mut self.items);
            proof {
                lemma_remove_enumerates(items@, i as int);
            }
            items.remove(i);
            self.items = items;
            true
        } else {
            proof {
                assert(self@.remove(*key) =~= self@);
            }
            false
        }
    }

    /// Adds every member of `other`; reports whether any was absent.
    pub fn extend(&mut self, other: &SortedSet<K>) -> (r: bool)
        ensures
            final(self)@ == old(self)@.union(other@),
            r == !other@.subset_of(old(self)@),
    {
        let ghost before = self@;
        let mut changed = false;
        for i in 0..other.items.len()
            invariant
                self@ == before.union(other.items@.take(i as int).to_set()),
                changed == !other.items@.take(i as int).to_set().subset_of(before),
        {
            proof {
                lemma_take_set(other.items@, i as int);
            }
            if self.insert(other.items[i]) {
                changed = true;
            }
            proof {
                assert(self@ =~= before.union(other.items@.take(i + 1).to_set()));
                let k = other.items@[i as int];
                if changed {
                    if !other.items@.take(i as int).to_set().subset_of(before) {
                        let x = choose|x: K| other.items@.take(i as int).to_set().contains(x) && !before.contains(x);
                        assert(other.items@.take(i + 1).to_set().contains(x));
                    } else {
                        assert(other.items@.take(i + 1).to_set().contains(k));
                        assert(!before.contains(k));
                    }
                }
            }
        }
        proof {
            assert(other.items@.take(other.items@.len() as int) =~= other.items@);
        }
        changed
    }

    /// Collects the values of a vector.
    pub fn from_vec(values: &Vec<K>) -> (r: Self)
        ensures
            r@ == values@.to_set(),
    {
        let mut r = SortedSet::new();
        for i in 0..values.len()
            invariant
                r@ == values@.take(i as int).to_set(),
        {
            proof {
                lemma_take_set(values@, i as int);
            }
            r.insert(values[i]);
            proof {
                assert(r@ =~= values@.take(i + 1).to_set());
            }
        }
        proof {
            assert(values@.take(values@.len() as int) =~= values@);
        }
        r
    }

    /// The members in ascending order.
    pub fn to_vec(&self) -> (r: Vec<K>)
        ensures
            r@ == ascending(self@),
            self@.finite(),
    {
        proof {
            use_type_invariant(self);
            lemma_enumerated(self.items@, self@);
        }
        let mut r: Vec<K> = Vec::new();
        for i in 0..self.items.len()
            invariant
                r@ == self.items@.take(i as int),
        {
            r.push(self.items[i]);
            proof {
                assert(r@ =~= self.items@.take(i + 1));
            }
        }
        proof {
            assert(self.items@.take(self.items@.len() as int) =~= self.items@);
        }
        r
    }

    pub fn is_subset(&self, other: &SortedSet<K>) -> (r: bool)
        ensures
            r == self@.subset_of(other@),
    {
        for i in 0..self.items.len()
            invariant
                forall|j: int| 0 <= j < i ==> other@.contains(#[trigger] self.items@[j]),
        {
            if !other.contains(&self.items[i]) {
                proof {
                    assert(self.items@.contains(self.items@[i as int]));
                    assert(self@.contains(self.items@[i as int]));
                }
                return false;
            }
        }
        proof {
            assert forall|k: K| self@.contains(k) implies other@.contains(k) by {
                let j = choose|j: int| 0 <= j < self.items@.len() && self.items@[j] == k;
                assert(other@.contains(self.items@[j]));
            }
        }
        true
    }

    pub fn is_disjoint(&self, other: &SortedSet<K>) -> (r: bool)
        ensures
            r == self@.disjoint(other@),
    {
        for i in 0..self.items.len()
            invariant
                forall|j: int| 0 <= j < i ==> !other@.contains(#[trigger] self.items@[j]),
        {
            if other.contains(&self.items[i]) {
                proof {
                    assert(self.items@.contains(self.items@[i as int]));
                    assert(self@.contains(self.items@[i as int]));
                }
                return false;
            }
        }
        proof {
            assert forall|k: K| self@.contains(k) implies !other@.contains(k) by {
                let j = choose|j: int| 0 <= j < self.items@.len() && self.items@[j] == k;
                assert(!other@.contains(self.items@[j]));
            }
        }
        true
    }

    /// The members that are not in `other`.
    pub fn difference(&self, other: &SortedSet<K>) -> (r: SortedSet<K>)
        ensures
            r@ == self@.difference(other@),
    {
        let mut r = SortedSet::new();
        for i in 0..self.items.len()
            invariant
                r@ == self.items@.take(i as int).to_set().difference(other@),
        {
            proof {
                lemma_take_set(self.items@, i as int);
            }
            if !other.contains(&self.items[i]) {
                r.insert(self.items[i]);
            }
            proof {
                assert(r@ =~= self.items@.take(i + 1).to_set().difference(other@));
            }
        }
        proof {
            assert(self.items@.take(self.items@.len() as int) =~= self.items@);
        }
        r
    }

    /// The members that are also in `other`.
    pub fn intersection(&self, other: &SortedSet<K>) -> (r: SortedSet<K>)
        ensures
            r@ == self@.intersect(other@),
    {
        let mut r = SortedSet::new();
        for i in 0..self.items.len()
            invariant
                r@ == self.items@.take(i as int).to_set().intersect(other@),
        {
            proof {
                lemma_take_set(self.items@, i as int);
            }
            if other.contains(&self.items[i]) {
                r.insert(self.items[i]);
            }
            proof {
                assert(r@ =~= self.items@.take(i + 1).to_set().intersect(other@));
            }
        }
        proof {
            assert(self.items@.take(self.items@.len() as int) =~= self.items@);
        }
        r
    }
}

impl<K: Key> Duplicate for SortedSet<K> {
    fn duplicate(&self) -> (r: Self) {
        let mut r = SortedSet::new();
        r.extend(self);
        proof {
            assert(Set::<K>::empty().union(self@) =~= self@);
        }
        r
    }

    fn agrees(&self, other: &Self) -> (r: bool) {
        let r = self.is_subset(other) && other.is_subset(self);
        proof {
            if r {
                assert(self@ =~= other@);
            }
        }
        r
    }
}

/// Taking one more element of a sequence adds that element to its set.
pub proof fn lemma_take_set<T>(q: Seq<T>, i: int)
    requires
        0 <= i < q.len(),
    ensures
        q.take(i + 1).to_set() == q.take(i).to_set().insert(q[i]),
{
    let a = q.take(i + 1);
    let b = q.take(i);
    assert forall|k: T| a.to_set().contains(k) == b.to_set().insert(q[i]).contains(k) by {
        if a.to_set().contains(k) {
            let x = choose|x: int| 0 <= x < a.len() && a[x] == k;
            if x < i {
                assert(b[x] == k);
                assert(b.contains(k));
            }
        }
        if b.to_set().insert(q[i]).contains(k) {
            if k == q[i] {
                assert(a[i] == k);
            } else {
                assert(b.contains(k));
                let x = choose|x: int| 0 <= x < b.len() && b[x] == k;
                assert(a[x] == k);
            }
            assert(a.contains(k));
        }
    }
    assert(a.to_set() =~= b.to_set().insert(q[i]));
}

/// In a sequence without repetition, the element after a prefix is not in it.
pub proof fn lemma_take_distinct<T>(q: Seq<T>, i: int)
    requires
        q.no_duplicates(),
        0 <= i < q.len(),
    ensures
        q.take(i + 1).to_set() == q.take(i).to_set().insert(q[i]),
        !q.take(i).to_set().contains(q[i]),
        q.take(i + 1).to_set().subset_of(q.to_set()),
{
    lemma_take_set(q, i);
    let a = q.take(i);
    let b = q.take(i + 1);
    if a.to_set().contains(q[i]) {
        let j = choose|j: int| 0 <= j < a.len() && a[j] == q[i];
        assert(q[j] == q[i]);
    }
    assert forall|k: T| b.to_set().contains(k) implies q.to_set().contains(k) by {
        let j = choose|j: int| 0 <= j < b.len() && b[j] == k;
        assert(q[j] == k);
        assert(q.contains(k));
    }
}

fn search<K: Key>(keys: &Vec<K>, key: &K) -> (r: usize)
    requires
        is_ascending(keys@),
    ensures
        r <= keys@.len(),
        forall|i: int| 0 <= i < r ==> #[trigger] keys@[i].rank() < key.rank(),
        forall|i: int| r <= i < keys@.len() ==> #[trigger] keys@[i].rank() >= key.rank(),
{
    let mut lo: usize = 0;
    let mut hi: usize = keys.len();
    while lo < hi
        invariant
            lo <= hi <= keys@.len(),
            is_ascending(keys@),
            forall|i: int| 0 <= i < lo ==> #[trigger] keys@[i].rank() < key.rank(),
            forall|i: int| hi <= i < keys@.len() ==> #[trigger] keys@[i].rank() >= key.rank(),
        decreases hi - lo,
    {
        let mid: usize = lo + (hi - lo) / 2;
        if keys[mid].precedes(key) {
            proof {
                assert forall|i: int| 0 <= i < mid + 1 implies #[trigger] keys@[i].rank() < key.rank() by {
                    if i < mid {
                        assert(keys@[i].rank() < keys@[mid as int].rank());
                    }
                }
            }
            lo = mid + 1;
        } else {
            proof {
                assert forall|i: int| mid <= i < keys@.len() implies #[trigger] keys@[i].rank()
                    >= key.rank() by {
                    if i > mid {
                        assert(keys@[mid as int].rank() < keys@[i].rank());
                    }
                }
            }
            hi = mid;
        }
    }
    lo
}

/// A map from keys to values.
#[derive(Debug, PartialEq, Eq)]
pub struct SortedMap<K: Key, V: DeepView> {
    keys: Vec<K>,
    values: Vec<V>,
}

impl<K: Key, V: DeepView> View for SortedMap<K, V> {
    type V = Map<K, V::V>;

    closed spec fn view(&self) -> Map<K, V::V> {
        Map::new(
            |k: K| self.keys@.contains(k),
            |k: K| self.values@[self.keys@.index_of(k)].deep_view(),
        )
    }
}

impl<K: Key, V: DeepView> DeepView for SortedMap<K, V> {
    type V = Map<K, V::V>;

    open spec fn deep_view(&self) -> Map<K, V::V> {
        self.view()
    }
}

impl<K: Key, V: DeepView> SortedMap<K, V> {
    #[verifier::type_invariant]
    spec fn well_formed(&self) -> bool {
        is_ascending(self.keys@) && self.keys@.len() == self.values@.len()
    }

    proof fn lemma_at(&self, i: int)
        requires
            self.well_formed(),
            0 <= i < self.keys@.len(),
        ensures
            self@.contains_key(self.keys@[i]),
            self@[self.keys@[i]] == self.values@[i].deep_view(),
    {
        let k = self.keys@[i];
        assert(self.keys@.contains(k));
        let j = self.keys@.index_of(k);
        assert(0 <= j < self.keys@.len() && self.keys@[j] == k);
        if i < j {
            assert(self.keys@[i].rank() < self.keys@[j].rank());
        } else if j < i {
            assert(self.keys@[j].rank() < self.keys@[i].rank());
        }
    }

    proof fn lemma_domain(&self)
        requires
            self.well_formed(),
        ensures
            enumerates(self.keys@, self@.dom()),
            ascending(self@.dom()) == self.keys@,
            self@.dom().finite(),
            self@.dom().len() == self.keys@.len(),
            self@.len() == self.keys@.len(),
    {
        assert(self@.dom() =~= self.keys@.to_set());
        lemma_enumerated(self.keys@, self@.dom());
    }

    pub fn new() -> (r: Self)
        ensures
            r@ == Map::<K, V::V>::empty(),
    {
        let r = SortedMap { keys: Vec::new(), values: Vec::new() };
        proof {
            assert(r@ =~= Map::<K, V::V>::empty());
        }
        r
    }

    pub fn len(&self) -> (r: usize)
        ensures
            r == self@.len(),
            r == self@.dom().len(),
            self@.dom().finite(),
            r == ascending(self@.dom()).len(),
            (r == 0) == (self@ == Map::<K, V::V>::empty()),
    {
        proof {
            use_type_invariant(self);
            self.lemma_domain();
            if self.keys@.len() == 0 {
                assert(self@ =~= Map::<K, V::V>::empty());
            }
        }
        self.keys.len()
    }

    pub fn is_empty(&self) -> (r: bool)
        ensures
            r == (self@ == Map::<K, V::V>::empty()),
            r == (self@.len() == 0),
            self@.dom().finite(),
    {
        proof {
            use_type_invariant(self);
            self.lemma_domain();
            if self.keys@.len() > 0 {
                assert(self.keys@.contains(self.keys@[0]));
                assert(self@.contains_key(self.keys@[0]));
            } else {
                assert(self@ =~= Map::<K, V::V>::empty());
            }
        }
        self.keys.len() == 0
    }

    /// The key at position `i` of the ascending order.
    pub fn key_at(&self, i: usize) -> (r: K)
        requires
            i < self@.len(),
        ensures
            r == ascending(self@.dom())[i as int],
            self@.contains_key(r),
    {
        proof {
            use_type_invariant(self);
            self.lemma_domain();
            self.lemma_at(i as int);
        }
        self.keys[i]
    }

    /// The value of the key at position `i` of the ascending order.
    pub fn value_at(&self, i: usize) -> (r: &V)
        requires
            i < self@.len(),
        ensures
            r.deep_view() == self@[ascending(self@.dom())[i as int]],
            self@.contains_key(ascending(self@.dom())[i as int]),
    {
        proof {
            use_type_invariant(self);
            self.lemma_domain();
            self.lemma_at(i as int);
        }
        &self.values[i]
    }

    fn position(&self, key: &K) -> (r: usize)
        ensures
            self.well_formed(),
            r <= self.keys@.len(),
            forall|i: int| 0 <= i < r ==> #[trigger] self.keys@[i].rank() < key.rank(),
            forall|i: int| r <= i < self.keys@.len() ==> #[trigger] self.keys@[i].rank() >= key.rank(),
            self@.contains_key(*key) == (r < self.keys@.len() && self.keys@[r as int] == *key),
            r < self.keys@.len() && self.keys@[r as int] == *key ==> self@[*key]
                == self.values@[r as int].deep_view(),
    {
        proof {
            use_type_invariant(self);
        }
        let r = search(&self.keys, key);
        proof {
            if self@.contains_key(*key) {
                let x = choose|x: int| 0 <= x < self.keys@.len() && self.keys@[x] == *key;
                assert(r <= x);
                if r < x {
                    assert(self.keys@[r as int].rank() < self.keys@[x].rank());
                }
            }
            if r < self.keys@.len() && self.keys@[r as int] == *key {
                self.lemma_at(r as int);
            }
        }
        r
    }

    pub fn contains_key(&self, key: &K) -> (r: bool)
        ensures
            r == self@.contains_key(*key),
    {
        let i = self.position(key);
        if i < self.keys.len() && !key.precedes(&self.keys[i]) {
            proof {
                K::rank_is_injective(self.keys@[i as int], *key);
            }
            true
        } else {
            false
        }
    }

    pub fn get(&self, key: &K) -> (r: Option<&V>)
        ensures
            match r {
                Some(v) => self@.contains_key(*key) && v.deep_view() == self@[*key],
                None => !self@.contains_key(*key),
            },
    {
        let i = self.position(key);
        if i < self.keys.len() && !key.precedes(&self.keys[i]) {
            proof {
                K::rank_is_injective(self.keys@[i as int], *key);
            }
            Some(&self.values[i])
        } else {
            None
        }
    }

    pub fn get_mut(&mut self, key: &K) -> (r: Option<&mut V>)
        ensures
            match r {
                Some(v) => {
                    &&& old(self)@.contains_key(*key)
                    &&& v.deep_view() == old(self)@[*key]
                    &&& final(self)@ == old(self)@.insert(*key, final(v).deep_view())
                },
                None => !old(self)@.contains_key(*key) && final(self)@ == old(self)@,
            },
    {
        let i = self.position(key);
        if i < self.keys.len() && !key.precedes(&self.keys[i]) {
            proof {
                K::rank_is_injective(self.keys@[i as int], *key);
            }
            Some(&mut self.values[i])
        } else {
            None
        }
    }

    /// Binds `key` to `value`, replacing what it was bound to.
    pub fn insert(&mut self, key: K, value: V)
        ensures
            final(self)@ == old(self)@.insert(key, value.deep_view()),
    {
        let i = self.position(&key);
        let mut taken: SortedMap<K, V> = SortedMap::new();
        core::mem::swap(&mut taken, self);
        let ghost before = taken;
        let SortedMap { mut keys, mut values } = taken;
        if i < keys.len() && !key.precedes(&keys[i]) {
            proof {
                K::rank_is_injective(keys@[i as int], key);
            }
            values.set(i, value);
            *self = SortedMap { keys, values };
            proof {
                lemma_map_update(before, *self, i as int, value);
            }
        } else {
            proof {
                assert forall|j: int| i <= j < keys@.len() implies #[trigger] keys@[j].rank() > key.rank() by {
                    if j > i {
                        assert(keys@[i as int].rank() < keys@[j].rank());
                    }
                }
                lemma_insert_enumerates(keys@, i as int, key);
            }
            keys.insert(i, key);
            values.insert(i, value);
            *self = SortedMap { keys, values };
            proof {
                lemma_map_insert(before, *self, i as int, key, value);
            }
        }
    }

    /// Removes the binding of `key`.
    pub fn remove(&mut self, key: &K) -> (r: Option<V>)
        ensures
            final(self)@ == old(self)@.remove(*key),
            match r {
                Some(v) => old(self)@.contains_key(*key) && v.deep_view() == old(self)@[*key],
                None => !old(self)@.contains_key(*key),
            },
    {
        let i = self.position(key);
        if i < self.keys.len() && !key.precedes(&self.keys[i]) {
            proof {
                K::rank_is_injective(self.keys@[i as int], *key);
            }
            let mut taken: SortedMap<K, V> = SortedMap::new();
            core::mem::swap(&mut taken, self);
            let ghost before = taken;
            let SortedMap { mut keys, mut values } = taken;
            proof {
                lemma_remove_enumerates(keys@, i as int);
            }
            keys.remove(i);
            let value = values.remove(i);
            *self = SortedMap { keys, values };
            proof {
                lemma_map_remove(before, *self, i as int);
            }
            Some(value)
        } else {
            proof {
                assert(self@.remove(*key) =~= self@);
            }
            None
        }
    }

    /// The set of bound keys.
    pub fn key_set(&self) -> (r: SortedSet<K>)
        ensures
            r@ == self@.dom(),
    {
        let r = SortedSet::from_vec(&self.keys);
        proof {
            assert(self@.dom() =~= self.keys@.to_set());
        }
        r
    }

    /// The bound keys in ascending order.
    pub fn keys_vec(&self) -> (r: Vec<K>)
        ensures
            r@ == ascending(self@.dom()),
            self@.dom().finite(),
    {
        proof {
            use_type_invariant(self);
            self.lemma_domain();
        }
        let mut r: Vec<K> = Vec::new();
        for i in 0..self.keys.len()
            invariant
                r@ == self.keys@.take(i as int),
        {
            r.push(self.keys[i]);
            proof {
                assert(r@ =~= self.keys@.take(i + 1));
            }
        }
        proof {
            assert(self.keys@.take(self.keys@.len() as int) =~= self.keys@);
        }
        r
    }
}

proof fn lemma_map_update<K: Key, V: DeepView>(a: SortedMap<K, V>, b: SortedMap<K, V>, i: int, v: V)
    requires
        a.well_formed(),
        0 <= i < a.keys@.len(),
        b.keys@ == a.keys@,
        b.values@ == a.values@.update(i, v),
    ensures
        b@ == a@.insert(a.keys@[i], v.deep_view()),
{
    let m = a@.insert(a.keys@[i], v.deep_view());
    assert(b@.dom() =~= m.dom()) by {
        assert(a.keys@.contains(a.keys@[i]));
    }
    assert forall|k: K| b@.contains_key(k) implies b@[k] == m[k] by {
        let j = choose|j: int| 0 <= j < a.keys@.len() && a.keys@[j] == k;
        a.lemma_at(j);
        b.lemma_at(j);
        if i < j {
            assert(a.keys@[i].rank() < a.keys@[j].rank());
        } else if j < i {
            assert(a.keys@[j].rank() < a.keys@[i].rank());
        }
    }
    assert(b@ =~= m);
}

proof fn lemma_map_insert<K: Key, V: DeepView>(
    a: SortedMap<K, V>,
    b: SortedMap<K, V>,
    i: int,
    key: K,
    v: V,
)
    requires
        a.well_formed(),
        0 <= i <= a.keys@.len(),
        b.keys@ == a.keys@.insert(i, key),
        enumerates(b.keys@, a.keys@.to_set().insert(key)),
        !a.keys@.contains(key),
        b.values@ == a.values@.insert(i, v),
    ensures
        b@ == a@.insert(key, v.deep_view()),
{
    let m = a@.insert(key, v.deep_view());
    assert(b.well_formed());
    assert forall|k: K| b@.dom().contains(k) == m.dom().contains(k) by {
        assert(b.keys@.to_set().contains(k) == a.keys@.to_set().insert(key).contains(k));
    }
    assert(b@.dom() =~= m.dom());
    assert forall|k: K| b@.contains_key(k) implies b@[k] == m[k] by {
        let j = choose|j: int| 0 <= j < b.keys@.len() && b.keys@[j] == k;
        b.lemma_at(j);
        if j < i {
            assert(a.keys@[j] == k);
            a.lemma_at(j);
        } else if j > i {
            assert(a.keys@[j - 1] == k);
            a.lemma_at(j - 1);
        }
    }
    assert(b@ =~= m);
}

proof fn lemma_map_remove<K: Key, V: DeepView>(a: SortedMap<K, V>, b: SortedMap<K, V>, i: int)
    requires
        a.well_formed(),
        0 <= i < a.keys@.len(),
        b.keys@ == a.keys@.remove(i),
        enumerates(b.keys@, a.keys@.to_set().remove(a.keys@[i])),
        b.values@ == a.values@.remove(i),
    ensures
        b@ == a@.remove(a.keys@[i]),
{
    let key = a.keys@[i];
    let m = a@.remove(key);
    assert(b.well_formed());
    assert forall|k: K| b@.dom().contains(k) == m.dom().contains(k) by {
        assert(b.keys@.to_set().contains(k) == a.keys@.to_set().remove(key).contains(k));
    }
    assert(b@.dom() =~= m.dom());
    assert forall|k: K| b@.contains_key(k) implies b@[k] == m[k] by {
        let j = choose|j: int| 0 <= j < b.keys@.len() && b.keys@[j] == k;
        b.lemma_at(j);
        let x = if j < i { j } else { j + 1 };
        assert(a.keys@[x] == k);
        a.lemma_at(x);
    }
    assert(b@ =~= m);
}

impl<K: Key, V: Duplicate> Duplicate for SortedMap<K, V> {
    fn duplicate(&self) -> (r: Self) {
        let keys = self.keys_vec();
        let mut values: Vec<V> = Vec::new();
        proof {
            use_type_invariant(self);
            self.lemma_domain();
        }
        for i in 0..self.values.len()
            invariant
                values@.len() == i,
                forall|j: int| 0 <= j < i ==> (#[trigger] values@[j]).deep_view() == self.values@[j].deep_view(),
        {
            values.push(self.values[i].duplicate());
        }
        let r = SortedMap { keys, values };
        proof {
            assert(r@.dom() =~= self@.dom());
            assert forall|k: K| r@.contains_key(k) implies r@[k] == self@[k] by {
                let j = choose|j: int| 0 <= j < self.keys@.len() && self.keys@[j] == k;
                self.lemma_at(j);
                r.lemma_at(j);
            }
            assert(r@ =~= self@);
        }
        r
    }

    fn agrees(&self, other: &Self) -> (r: bool) {
        proof {
            use_type_invariant(self);
            use_type_invariant(other);
            self.lemma_domain();
            other.lemma_domain();
        }
        if self.keys.len() != other.keys.len() {
            return false;
        }
        for i in 0..self.keys.len()
            invariant
                self.well_formed(),
                other.well_formed(),
                self.keys@.len() == other.keys@.len(),
                ascending(self@.dom()) == self.keys@,
                ascending(other@.dom()) == other.keys@,
                forall|j: int| 0 <= j < i ==> #[trigger] self.keys@[j] == other.keys@[j],
                forall|j: int|
                    0 <= j < i ==> (#[trigger] self.values@[j]).deep_view() == other.values@[j].deep_view(),
        {
            if self.keys[i].precedes(&other.keys[i]) || other.keys[i].precedes(&self.keys[i]) {
                return false;
            }
            proof {
                K::rank_is_injective(self.keys@[i as int], other.keys@[i as int]);
            }
            if !self.values[i].agrees(&other.values[i]) {
                proof {
                    self.lemma_at(i as int);
                    other.lemma_at(i as int);
                }
                return false;
            }
        }
        proof {
            assert(self.keys@ =~= other.keys@);
            assert(self@.dom() =~= other@.dom());
            assert forall|k: K| self@.contains_key(k) implies self@[k] == other@[k] by {
                let j = choose|j: int| 0 <= j < self.keys@.len() && self.keys@[j] == k;
                self.lemma_at(j);
                other.lemma_at(j);
            }
            assert(self@ =~= other@);
        }
        true
    }
}

/// A key that is its own deep view.
pub trait Atom: Key + DeepView<V = Self> {
    proof fn shows_itself(self)
        ensures
            self.deep_view() == self,
    ;
}

impl<K: Key, V: Atom> SortedMap<K, V> {
    /// The values that some key is bound to.
    pub fn value_set(&self) -> (r: SortedSet<V>)
        ensures
            r@ == self@.values(),
    {
        proof {
            use_type_invariant(self);
        }
        let mut r: SortedSet<V> = SortedSet::new();
        for i in 0..self.values.len()
            invariant
                r@ == self.values.deep_view().take(i as int).to_set(),
        {
            proof {
                lemma_take_set(self.values.deep_view(), i as int);
            }
            proof {
                self.values@[i as int].shows_itself();
            }
            r.insert(self.values[i]);
        }
        proof {
            let q = self.values.deep_view();
            assert(q.take(q.len() as int) =~= q);
            assert forall|v: V| r@.contains(v) == self@.values().contains(v) by {
                if q.to_set().contains(v) {
                    let i = choose|i: int| 0 <= i < q.len() && q[i] == v;
                    self.lemma_at(i);
                    assert(self@.contains_value(v));
                }
                if self@.values().contains(v) {
                    let k = choose|k: K| self@.contains_key(k) && self@[k] == v;
                    let i = choose|i: int| 0 <= i < self.keys@.len() && self.keys@[i] == k;
                    self.lemma_at(i);
                    assert(q[i] == v);
                    assert(q.contains(v));
                }
            }
            assert(r@ =~= self@.values());
        }
        r
    }
}

impl<K: Key, X: Key> SortedMap<K, SortedSet<X>> {
    /// The members of all sets that some key is bound to.
    pub fn member_set(&self) -> (r: SortedSet<X>)
        ensures
            r@ == members_of(self@),
    {
        proof {
            use_type_invariant(self);
        }
        let mut r: SortedSet<X> = SortedSet::new();
        for i in 0..self.values.len()
            invariant
                self.values@.len() == self.keys@.len(),
                forall|x: X|
                    r@.contains(x) == exists|j: int| 0 <= j < i && (#[trigger] self.values@[j])@.contains(x),
        {
            let ghost before = r@;
            r.extend(&self.values[i]);
            proof {
                assert forall|x: X|
                    r@.contains(x) == exists|j: int|
                        0 <= j < i + 1 && (#[trigger] self.values@[j])@.contains(x) by {
                    if before.contains(x) {
                        let j = choose|j: int| 0 <= j < i && (#[trigger] self.values@[j])@.contains(x);
                        assert(self.values@[j]@.contains(x));
                    }
                    if self.values@[i as int]@.contains(x) {
                        assert(r@.contains(x));
                    }
                }
            }
        }
        proof {
            assert forall|x: X| r@.contains(x) == members_of(self@).contains(x) by {
                if r@.contains(x) {
                    let j = choose|j: int|
                        0 <= j < self.values@.len() && (#[trigger] self.values@[j])@.contains(x);
                    self.lemma_at(j);
                    assert(self@.contains_key(self.keys@[j]) && self@[self.keys@[j]].contains(x));
                }
                if members_of(self@).contains(x) {
                    let k = choose|k: K| #[trigger] self@.contains_key(k) && self@[k].contains(x);
                    let j = choose|j: int| 0 <= j < self.keys@.len() && self.keys@[j] == k;
                    self.lemma_at(j);
                    assert(self.values@[j]@.contains(x));
                }
            }
            assert(r@ =~= members_of(self@));
        }
        r
    }
}

/// The members of all sets that a map has as values.
pub open spec fn members_of<K, X>(m: Map<K, Set<X>>) -> Set<X> {
    Set::new(|x: X| exists|k: K| #[trigger] m.contains_key(k) && m[k].contains(x))
}

/// A value that is sorted by one of its parts.
pub trait Sortable: Copy + Sized {
    spec fn order(self) -> int;

    fn comes_before(&self, other: &Self) -> (r: bool)
        ensures
            r == (self.order() < other.order()),
    ;
}

pub open spec fn is_sorted<T: Sortable>(q: Seq<T>) -> bool {
    forall|i: int, j: int| 0 <= i < j < q.len() ==> (#[trigger] q[i]).order() <= (#[trigger] q[j]).order()
}

/// Where `x` goes in a sorted sequence: behind everything not larger.
pub open spec fn place_of<T: Sortable>(q: Seq<T>, x: T) -> int
    decreases q.len(),
{
    if q.len() == 0 || q.last().order() <= x.order() {
        q.len() as int
    } else {
        place_of(q.drop_last(), x)
    }
}

/// The elements sorted; equal ones keep their order.
pub open spec fn stable_sorted<T: Sortable>(q: Seq<T>) -> Seq<T>
    decreases q.len(),
{
    if q.len() == 0 {
        Seq::empty()
    } else {
        let front = stable_sorted(q.drop_last());
        front.insert(place_of(front, q.last()), q.last())
    }
}

proof fn lemma_place<T: Sortable>(q: Seq<T>, x: T)
    requires
        is_sorted(q),
    ensures
        0 <= place_of(q, x) <= q.len(),
        forall|i: int| 0 <= i < place_of(q, x) ==> (#[trigger] q[i]).order() <= x.order(),
        forall|i: int| place_of(q, x) <= i < q.len() ==> (#[trigger] q[i]).order() > x.order(),
    decreases q.len(),
{
    if q.len() > 0 {
        if q.last().order() <= x.order() {
            assert forall|i: int| 0 <= i < q.len() implies (#[trigger] q[i]).order() <= x.order() by {
                if i < q.len() - 1 {
                    assert(q[i].order() <= q[q.len() - 1].order());
                }
            }
        } else {
            let p = q.drop_last();
            assert(is_sorted(p));
            lemma_place(p, x);
            assert forall|i: int| 0 <= i < place_of(q, x) implies (#[trigger] q[i]).order() <= x.order() by {
                assert(p[i] == q[i]);
            }
            assert forall|i: int| place_of(q, x) <= i < q.len() implies (#[trigger] q[i]).order() > x.order() by {
                if i < p.len() {
                    assert(p[i] == q[i]);
                }
            }
        }
    }
}

/// Sorting orders the elements and neither adds nor drops any.
pub proof fn lemma_stable_sorted<T: Sortable>(q: Seq<T>)
    ensures
        is_sorted(stable_sorted(q)),
        stable_sorted(q).len() == q.len(),
        stable_sorted(q).to_multiset() == q.to_multiset(),
        forall|x: T| #[trigger] stable_sorted(q).contains(x) == q.contains(x),
    decreases q.len(),
{
    broadcast use vstd::seq_lib::group_to_multiset_ensures;

    if q.len() == 0 {
        assert(stable_sorted(q) =~= q);
    } else {
        let front = stable_sorted(q.drop_last());
        let x = q.last();
        lemma_stable_sorted(q.drop_last());
        lemma_place(front, x);
        let k = place_of(front, x);
        let r = front.insert(k, x);
        assert forall|i: int, j: int| 0 <= i < j < r.len() implies (#[trigger] r[i]).order() <= (#[trigger] r[j]).order() by {
            let i0 = if i < k { i } else { i - 1 };
            let j0 = if j < k { j } else { j - 1 };
            if i != k {
                assert(r[i] == front[i0]);
            }
            if j != k {
                assert(r[j] == front[j0]);
            }
        }
        assert(q =~= q.drop_last().push(x));
        assert(r.to_multiset() =~= front.to_multiset().insert(x));
        assert(q.to_multiset() =~= q.drop_last().to_multiset().insert(x));
        assert forall|y: T| #[trigger] r.contains(y) == q.contains(y) by {
            assert(r.to_multiset().count(y) == q.to_multiset().count(y));
        }
    }
}

/// Sorts; equal elements keep their order.
pub fn stable_sort<T: Sortable>(values: &Vec<T>) -> (r: Vec<T>)
    ensures
        r@ == stable_sorted(values@),
{
    let mut r: Vec<T> = Vec::new();
    for i in 0..values.len()
        invariant
            r@ == stable_sorted(values@.take(i as int)),
    {
        let x = values[i];
        proof {
            lemma_stable_sorted(values@.take(i as int));
            assert(values@.take(i + 1).drop_last() =~= values@.take(i as int));
        }
        let mut k: usize = r.len();
        proof {
            assert(r@.take(k as int) =~= r@);
        }
        while k > 0 && x.comes_before(&r[k - 1])
            invariant
                k <= r@.len(),
                place_of(r@.take(k as int), x) == place_of(r@, x),
            decreases k,
        {
            proof {
                assert(r@.take(k as int).drop_last() =~= r@.take(k - 1));
            }
            k = k - 1;
        }
        proof {
            assert(r@.take(r@.len() as int) =~= r@);
        }
        r.insert(k, x);
    }
    proof {
        assert(values@.take(values@.len() as int) =~= values@);
    }
    r
}

/// The map that the pairs build in turn: the last pair of a key counts.
pub open spec fn map_of<K, V>(pairs: Seq<(K, V)>) -> Map<K, V>
    decreases pairs.len(),
{
    if pairs.len() == 0 {
        Map::empty()
    } else {
        map_of(pairs.drop_last()).insert(pairs.last().0, pairs.last().1)
    }
}

/// The bindings of a map in the order of its keys.
pub open spec fn pairs_of<K: Key, V>(m: Map<K, V>) -> Seq<(K, V)> {
    let keys = ascending(m.dom());
    Seq::new(keys.len(), |i: int| (keys[i], m[keys[i]]))
}

proof fn lemma_map_of<K, V>(m: Map<K, V>, keys: Seq<K>)
    requires
        keys.no_duplicates(),
        forall|i: int| 0 <= i < keys.len() ==> m.contains_key(#[trigger] keys[i]),
    ensures
        map_of(Seq::new(keys.len(), |i: int| (keys[i], m[keys[i]]))) == m.restrict(keys.to_set()),
    decreases keys.len(),
{
    let pairs = Seq::new(keys.len(), |i: int| (keys[i], m[keys[i]]));
    if keys.len() == 0 {
        assert(m.restrict(keys.to_set()) =~= Map::<K, V>::empty());
    } else {
        let n = keys.len() - 1;
        let k = keys.drop_last();
        lemma_map_of(m, k);
        assert(pairs.drop_last() =~= Seq::new(k.len(), |i: int| (k[i], m[k[i]])));
        lemma_take_distinct(keys, n);
        assert(keys.take(n) =~= k);
        assert(keys.take(n + 1) =~= keys);
        assert(m.contains_key(keys[n]));
        assert(map_of(pairs) =~= m.restrict(keys.to_set()));
    }
}

/// A finite map is rebuilt from its bindings.
pub proof fn lemma_map_of_pairs<K: Key, V>(m: Map<K, V>)
    requires
        m.dom().finite(),
    ensures
        map_of(pairs_of(m)) == m,
{
    let keys = ascending(m.dom());
    lemma_ascending(m.dom());
    lemma_map_of(m, keys);
    assert(m.restrict(keys.to_set()) =~= m);
}

/// A set of keys is finite.
pub broadcast proof fn sorted_set_is_finite<K: Key>(s: SortedSet<K>)
    ensures
        #[trigger] s.view().finite(),
{
    vstd::seq_lib::seq_to_set_is_finite(s.items@);
}

/// A map has finitely many keys.
pub broadcast proof fn sorted_map_is_finite<K: Key, V: DeepView>(m: SortedMap<K, V>)
    ensures
        #[trigger] m.view().dom().finite(),
{
    vstd::seq_lib::seq_to_set_is_finite(m.keys@);
    assert(m.view().dom() =~= m.keys@.to_set());
}

/// Sets that a map has as values are finite.
pub proof fn lemma_set_values_are_finite<K: Key, X: Key>(m: SortedMap<K, SortedSet<X>>)
    ensures
        forall|k: K| #[trigger] m@.contains_key(k) ==> m@[k].finite(),
{
    assert forall|k: K| #[trigger] m@.contains_key(k) implies m@[k].finite() by {
        sorted_set_is_finite(m.values@[m.keys@.index_of(k)]);
    }
}

/// What a map holds for a key is the deep view of some value.
pub proof fn lemma_value_exists<K: Key, V: DeepView>(m: SortedMap<K, V>, k: K) -> (v: V)
    requires
        m@.contains_key(k),
    ensures
        v.deep_view() == m@[k],
{
    m.values@[m.keys@.index_of(k)]
}

/// A copy of a vector of plain values.
pub fn copy_all<T: Copy>(values: &Vec<T>) -> (r: Vec<T>)
    ensures
        r@ == values@,
{
    let mut r: Vec<T> = Vec::new();
    for i in 0..values.len()
        invariant
            r@ == values@.take(i as int),
    {
        r.push(values[i]);
        proof {
            assert(r@ =~= values@.take(i + 1));
        }
    }
    proof {
        assert(values@.take(values@.len() as int) =~= values@);
    }
    r
}

/// The members of a finite set stand in ascending order, each once and nothing else.
pub proof fn sets_are_listed_in_order<K: Key>(s: Set<K>, k: K, i: int, j: int)
    requires
        s.finite(),
        0 <= i < j < ascending(s).len(),
    ensures
        ascending(s)[i].rank() < ascending(s)[j].rank(),
        ascending(s).contains(k) <==> s.contains(k),
        ascending(s).len() == s.len(),
{
    lemma_ascending(s);
    let q = ascending(s);
    assert(q[i].rank() < q[j].rank());
    assert(q.to_set().contains(k) == q.contains(k));
}

proof fn lemma_map_of_last<K, V>(pairs: Seq<(K, V)>, k: K)
    ensures
        map_of(pairs).contains_key(k) ==> exists|i: int|
            0 <= i < pairs.len() && (#[trigger] pairs[i]).0 == k && pairs[i].1 == map_of(pairs)[k] && forall|j: int|
                i < j < pairs.len() ==> (#[trigger] pairs[j]).0 != k,
        !map_of(pairs).contains_key(k) ==> forall|i: int| 0 <= i < pairs.len() ==> (#[trigger] pairs[i]).0 != k,
    decreases pairs.len(),
{
    if pairs.len() > 0 {
        let front = pairs.drop_last();
        let n = pairs.len() - 1;
        lemma_map_of_last(front, k);
        assert forall|i: int| 0 <= i < n implies #[trigger] front[i] == pairs[i] by {
        }
        assert forall|i: int| 0 <= i < n implies #[trigger] pairs[i] == front[i] by {
        }
        if pairs[n].0 == k {
        } else if map_of(front).contains_key(k) {
            let i = choose|i: int|
                0 <= i < front.len() && (#[trigger] front[i]).0 == k && front[i].1 == map_of(front)[k] && forall|j: int|
                    i < j < front.len() ==> (#[trigger] front[j]).0 != k;
            assert(pairs[i] == front[i]);
        }
    }
}

/// A map made of pairs holds for each key the value that is listed last for it.
pub proof fn last_pair_wins<K, V>(pairs: Seq<(K, V)>, k: K)
    ensures
        map_of(pairs).contains_key(k) ==> exists|i: int|
            0 <= i < pairs.len() && (#[trigger] pairs[i]).0 == k && pairs[i].1 == map_of(pairs)[k] && forall|j: int|
                i < j < pairs.len() ==> (#[trigger] pairs[j]).0 != k,
        !map_of(pairs).contains_key(k) ==> forall|i: int| 0 <= i < pairs.len() ==> (#[trigger] pairs[i]).0 != k,
{
    lemma_map_of_last(pairs, k);
}

/// Sorting keeps what is sorted, no more and no less, and puts it in order.
pub proof fn sorting_keeps_everything<T: Sortable>(q: Seq<T>, i: int, j: int)
    ensures
        stable_sorted(q).to_multiset() == q.to_multiset(),
        stable_sorted(q).len() == q.len(),
        0 <= i <= j < q.len() ==> stable_sorted(q)[i].order() <= stable_sorted(q)[j].order(),
{
    lemma_stable_sorted(q);
    broadcast use vstd::seq_lib::group_to_multiset_ensures;

    let r = stable_sorted(q);
    assert(r.to_multiset().len() == r.len());
    assert(q.to_multiset().len() == q.len());
    if 0 <= i < j < q.len() {
        assert(r[i].order() <= r[j].order());
    }
}

}
