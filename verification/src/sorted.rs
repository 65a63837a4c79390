//! Maps and sets that keep their keys in ascending order.

use vstd::prelude::*;

use crate::text::{chars_of, same};

verus! {

/// A strict total order on a mathematical type.
pub trait Ordered: Sized {
    /// True when this comes before the other.
    spec fn precedes(self, other: Self) -> bool;

    /// Nothing comes before itself.
    proof fn irreflexive(a: Self)
        ensures
            !a.precedes(a),
    ;

    /// What comes before something comes before all that follows it.
    proof fn transitive(a: Self, b: Self, c: Self)
        requires
            a.precedes(b),
            b.precedes(c),
        ensures
            a.precedes(c),
    ;

    /// Of two different values one comes before the other.
    proof fn connected(a: Self, b: Self)
        ensures
            a.precedes(b) || a == b || b.precedes(a),
    ;
}

/// A type whose values can stand as keys.
pub trait SortKey: Sized {
    /// What a key is compared by.
    type Rank: Ordered;

    /// What this key is compared by.
    spec fn rank(&self) -> Self::Rank;

    /// True when this key comes before the other.
    fn before(&self, other: &Self) -> (r: bool)
        ensures
            r == self.rank().precedes(other.rank()),
    ;

    /// True when the two are the same key.
    fn is(&self, other: &Self) -> (r: bool)
        ensures
            r == (self.rank() == other.rank()),
    ;

    /// The same key once more.
    fn copied(&self) -> (r: Self)
        ensures
            r.rank() == self.rank(),
    ;
}

/// Every element comes before all that follow it.
pub open spec fn ascending<R: Ordered>(s: Seq<R>) -> bool {
    forall|i: int, j: int| 0 <= i < j < s.len() ==> (#[trigger] s[i]).precedes(#[trigger] s[j])
}

/// `s` is the elements of `d`, each once, in ascending order.
pub open spec fn enumerates<R: Ordered>(s: Seq<R>, d: Set<R>) -> bool {
    &&& ascending(s)
    &&& forall|k: R| d.contains(k) <==> s.contains(k)
}

/// The elements of a finite set in ascending order.
pub open spec fn in_order<R: Ordered>(d: Set<R>) -> Seq<R> {
    choose|s: Seq<R>| enumerates(s, d)
}

/// Two ascending sequences with the same elements are the same sequence.
pub proof fn lemma_enumeration_unique<R: Ordered>(s: Seq<R>, t: Seq<R>)
    requires
        ascending(s),
        ascending(t),
        forall|k: R| s.contains(k) <==> t.contains(k),
    ensures
        s == t,
    decreases s.len(),
{
    if s.len() == 0 {
        if t.len() > 0 {
            assert(t.contains(t[0]));
        }
        assert(s =~= t);
    } else {
        assert(s.contains(s.last()));
        assert(t.contains(s.last()));
        assert(t.contains(t.last()));
        assert(s.contains(t.last()));
        let i = s.index_of(t.last());
        let j = t.index_of(s.last());
        if s.last() != t.last() {
            R::transitive(s.last(), t.last(), s.last());
            R::irreflexive(s.last());
        }
        let s1 = s.drop_last();
        let t1 = t.drop_last();
        assert forall|k: R| s1.contains(k) implies t1.contains(k) by {
            let n = s1.index_of(k);
            assert(s[n] == k);
            assert(s.contains(k));
            let m = t.index_of(k);
            if m == t.len() - 1 {
                assert(s[n].precedes(s.last()));
                R::irreflexive(k);
            }
            assert(t1[m] == k);
        }
        assert forall|k: R| t1.contains(k) implies s1.contains(k) by {
            let n = t1.index_of(k);
            assert(t[n] == k);
            assert(t.contains(k));
            let m = s.index_of(k);
            if m == s.len() - 1 {
                assert(t[n].precedes(t.last()));
                R::irreflexive(k);
            }
            assert(s1[m] == k);
        }
        lemma_enumeration_unique(s1, t1);
        assert(s =~= s1.push(s.last()));
        assert(t =~= t1.push(t.last()));
    }
}

/// An ascending enumeration of a set is the one that [`in_order`] names.
pub proof fn lemma_in_order<R: Ordered>(s: Seq<R>, d: Set<R>)
    requires
        enumerates(s, d),
    ensures
        in_order(d) == s,
        d.finite(),
        d.len() == s.len(),
{
    lemma_enumeration_unique(in_order(d), s);
    lemma_no_repeats(s);
    assert(s.to_set() =~= d);
    s.unique_seq_to_set();
}

/// An ascending sequence takes in one more element.
proof fn lemma_takes_in<R: Ordered>(s: Seq<R>, a: R) -> (t: Seq<R>)
    requires
        ascending(s),
        !s.contains(a),
    ensures
        ascending(t),
        forall|k: R| t.contains(k) <==> (k == a || s.contains(k)),
    decreases s.len(),
{
    if s.len() == 0 {
        let t = seq![a];
        assert(t[0] == a);
        t
    } else if s.last().precedes(a) {
        let t = s.push(a);
        assert forall|i: int, j: int| 0 <= i < j < t.len() implies (#[trigger] t[i]).precedes(
            #[trigger] t[j],
        ) by {
            if j == s.len() && i < s.len() - 1 {
                R::transitive(s[i], s.last(), a);
            }
        }
        assert forall|k: R| t.contains(k) <==> (k == a || s.contains(k)) by {
            if s.contains(k) {
                assert(t[s.index_of(k)] == k);
            }
            assert(t[s.len() as int] == a);
        }
        t
    } else {
        let rest = s.drop_last();
        assert forall|k: R| rest.contains(k) implies s.contains(k) by {
            assert(s[rest.index_of(k)] == k);
        }
        let t1 = lemma_takes_in(rest, a);
        let t = t1.push(s.last());
        R::connected(s.last(), a);
        assert(s.contains(s.last()));
        assert forall|i: int, j: int| 0 <= i < j < t.len() implies (#[trigger] t[i]).precedes(
            #[trigger] t[j],
        ) by {
            if j == t1.len() {
                assert(t1.contains(t1[i]));
                if t1[i] != a {
                    let n = rest.index_of(t1[i]);
                    assert(s[n].precedes(s.last()));
                }
            }
        }
        assert forall|k: R| t.contains(k) <==> (k == a || s.contains(k)) by {
            if t.contains(k) {
                let n = t.index_of(k);
                if n < t1.len() {
                    assert(t1.contains(t1[n]));
                }
            }
            if k == a || s.contains(k) {
                if k == s.last() {
                    assert(t[t1.len() as int] == k);
                } else {
                    if s.contains(k) && k != a {
                        assert(rest[s.index_of(k)] == k);
                    }
                    assert(t1.contains(k));
                    assert(t[t1.index_of(k)] == k);
                }
            }
        }
        t
    }
}

/// The elements of a finite set can be put in order.
pub proof fn lemma_has_order<R: Ordered>(d: Set<R>)
    requires
        d.finite(),
    ensures
        enumerates(in_order(d), d),
        in_order(d).len() == d.len(),
    decreases d.len(),
{
    let s = if d.len() == 0 {
        Seq::empty()
    } else {
        let a = d.choose();
        lemma_has_order(d.remove(a));
        let rest = in_order(d.remove(a));
        lemma_takes_in(rest, a)
    };
    assert(enumerates(s, d));
    lemma_in_order(s, d);
}

/// An ascending sequence holds nothing twice.
pub proof fn lemma_no_repeats<R: Ordered>(s: Seq<R>)
    requires
        ascending(s),
    ensures
        s.no_duplicates(),
{
    assert forall|i: int, j: int| 0 <= i < s.len() && 0 <= j < s.len() && i != j implies s[i]
        != s[j] by {
        if i < j {
            assert(s[i].precedes(s[j]));
        } else {
            assert(s[j].precedes(s[i]));
        }
        R::irreflexive(s[i]);
    }
}

/// The map in which the values under the keys in `done` are changed by `f` and the others are not.
pub open spec fn partly<K, V>(m: Map<K, V>, done: Seq<K>, f: spec_fn(V) -> V) -> Map<K, V> {
    Map::new(
        |k: K| m.contains_key(k),
        |k: K|
            if done.contains(k) {
                f(m[k])
            } else {
                m[k]
            },
    )
}

/// Going through the keys in order and changing the value under each changes them all.
pub proof fn lemma_partly<R: Ordered, V>(m: Map<R, V>, f: spec_fn(V) -> V, i: int)
    requires
        enumerates(in_order(m.dom()), m.dom()),
        0 <= i <= in_order(m.dom()).len(),
    ensures
        ({
            let order = in_order(m.dom());
            &&& partly(m, order.take(i), f).dom() == m.dom()
            &&& i == 0 ==> partly(m, order.take(i), f) == m
            &&& i == order.len() ==> partly(m, order.take(i), f) == m.map_values(f)
            &&& i < order.len() ==> {
                &&& partly(m, order.take(i), f)[order[i]] == m[order[i]]
                &&& partly(m, order.take(i + 1), f) == partly(m, order.take(i), f).insert(
                    order[i],
                    f(m[order[i]]),
                )
            }
        }),
{
    let order = in_order(m.dom());
    let done = order.take(i);
    lemma_no_repeats(order);
    assert(partly(m, done, f).dom() =~= m.dom());
    if i == 0 {
        assert(partly(m, done, f) =~= m);
    }
    if i == order.len() {
        assert(done =~= order);
        assert(partly(m, done, f) =~= m.map_values(f));
    } else {
        let k = order[i];
        assert(!done.contains(k));
        assert(order.contains(k));
        let next = order.take(i + 1);
        assert(next =~= done.push(k));
        assert forall|x: R| #[trigger] m.contains_key(x) implies next.contains(x) == (done.contains(
            x,
        ) || x == k) by {
            if done.contains(x) {
                assert(next[done.index_of(x)] == x);
            }
            assert(next[i] == k);
            if next.contains(x) && x != k {
                assert(done[next.index_of(x)] == x);
            }
        }
        assert(partly(m, next, f) =~= partly(m, done, f).insert(k, f(m[k])));
    }
}

/// The keys and values of a map, side by side.
#[derive(Debug)]
struct Entries<K, V> {
    keys: Vec<K>,
    values: Vec<V>,
}

impl<K: SortKey, V> Entries<K, V> {
    spec fn ranks(&self) -> Seq<K::Rank> {
        Seq::new(self.keys@.len(), |i: int| self.keys@[i].rank())
    }

    spec fn well_formed(&self) -> bool {
        &&& self.keys@.len() == self.values@.len()
        &&& ascending(self.ranks())
    }
}

impl<K: SortKey, V: DeepView> Entries<K, V> {
    spec fn map(&self) -> Map<K::Rank, V::V> {
        Map::new(
            |k: K::Rank| self.ranks().contains(k),
            |k: K::Rank| self.values@[self.ranks().index_of(k)].deep_view(),
        )
    }

    proof fn lemma_at(&self, i: int)
        requires
            self.well_formed(),
            0 <= i < self.keys@.len(),
        ensures
            self.map().contains_key(self.ranks()[i]),
            self.ranks().index_of(self.ranks()[i]) == i,
            self.map()[self.ranks()[i]] == self.values@[i].deep_view(),
    {
        lemma_no_repeats(self.ranks());
        assert(self.ranks().contains(self.ranks()[i]));
    }

    /// Changing one value changes what stands under its key, and nothing else.
    proof fn lemma_update(&self, i: int)
        requires
            self.well_formed(),
            0 <= i < self.keys@.len(),
        ensures
            self.map().contains_key(self.ranks()[i]),
            self.map()[self.ranks()[i]] == self.values@[i].deep_view(),
            forall|e: Entries<K, V>, v: V|
                e.keys@ == self.keys@ && e.values@ == #[trigger] self.values@.update(i, v) ==> (
                #[trigger] e.map()) == self.map().insert(self.ranks()[i], v.deep_view())
                    && e.well_formed(),
    {
        self.lemma_at(i);
        let k = self.ranks()[i];
        assert forall|e: Entries<K, V>, v: V|
            e.keys@ == self.keys@ && e.values@ == #[trigger] self.values@.update(i, v) implies (
        #[trigger] e.map()) == self.map().insert(k, v.deep_view()) && e.well_formed() by {
            assert(e.ranks() =~= self.ranks());
            assert forall|n: int| 0 <= n < self.ranks().len() implies self.ranks().index_of(
                #[trigger] self.ranks()[n],
            ) == n by {
                self.lemma_at(n);
            }
            assert(e.map() =~= self.map().insert(k, v.deep_view()));
        }
    }

    /// Where a key stands, and where it would stand if it is not there.
    fn search(&self, key: &K) -> (r: (usize, bool))
        requires
            self.well_formed(),
        ensures
            r.0 <= self.keys@.len(),
            r.1 ==> r.0 < self.keys@.len() && self.ranks()[r.0 as int] == key.rank(),
            r.1 == self.ranks().contains(key.rank()),
            !r.1 ==> forall|j: int| 0 <= j < r.0 ==> (#[trigger] self.ranks()[j]).precedes(key.rank()),
            !r.1 ==> forall|j: int|
                r.0 <= j < self.keys@.len() ==> key.rank().precedes(#[trigger] self.ranks()[j]),
    {
        let ghost ranks = self.ranks();
        let ghost k = key.rank();
        let mut i: usize = 0;
        while i < self.keys.len() && self.keys[i].before(key)
            invariant
                i <= self.keys@.len(),
                self.well_formed(),
                ranks == self.ranks(),
                k == key.rank(),
                forall|j: int| 0 <= j < i ==> (#[trigger] ranks[j]).precedes(k),
            decreases self.keys@.len() - i,
        {
            assert(ranks[i as int] == self.keys@[i as int].rank());
            i = i + 1;
        }
        let found = i < self.keys.len() && self.keys[i].is(key);
        proof {
            if i < ranks.len() {
                assert(ranks[i as int] == self.keys@[i as int].rank());
            }
            if found {
                assert(ranks.contains(k));
            } else {
                assert forall|j: int| i <= j < ranks.len() implies k.precedes(
                    #[trigger] ranks[j],
                ) by {
                    <K::Rank as Ordered>::connected(k, ranks[i as int]);
                    if j > i {
                        <K::Rank as Ordered>::transitive(k, ranks[i as int], ranks[j]);
                    }
                }
                if ranks.contains(k) {
                    let n = ranks.index_of(k);
                    assert(ranks[n] == k);
                    <K::Rank as Ordered>::irreflexive(k);
                    assert(false);
                }
            }
        }
        (i, found)
    }

    /// Put a new key where a search said it belongs.
    fn add_at(&mut self, i: usize, key: K, value: V)
        requires
            old(self).well_formed(),
            i <= old(self).keys@.len(),
            !old(self).ranks().contains(key.rank()),
            forall|j: int|
                0 <= j < i ==> (#[trigger] old(self).ranks()[j]).precedes(key.rank()),
            forall|j: int|
                i <= j < old(self).keys@.len() ==> key.rank().precedes(
                    #[trigger] old(self).ranks()[j],
                ),
        ensures
            final(self).well_formed(),
            final(self).map() == old(self).map().insert(key.rank(), value.deep_view()),
            final(self).ranks() == old(self).ranks().insert(i as int, key.rank()),
            final(self).values@ == old(self).values@.insert(i as int, value),
    {
        let ghost k = key.rank();
        let ghost before = *self;
        let ghost ranks = self.ranks();
        let ghost at = i as int;
        self.keys.insert(i, key);
        self.values.insert(i, value);
        proof {
            let now = self.ranks();
            assert(now =~= ranks.insert(at, k));
            assert(ascending(now)) by {
                assert forall|a: int, b: int| 0 <= a < b < now.len() implies (
                #[trigger] now[a]).precedes(#[trigger] now[b]) by {
                    let a0 = if a < at { a } else { a - 1 };
                    let b0 = if b < at { b } else { b - 1 };
                    if a != at {
                        assert(now[a] == ranks[a0]);
                    }
                    if b != at {
                        assert(now[b] == ranks[b0]);
                    }
                }
            }
            assert(self.map() =~= before.map().insert(k, value.deep_view())) by {
                assert forall|x: K::Rank| self.map().contains_key(x) <==> before.map().insert(
                    k,
                    value.deep_view(),
                ).contains_key(x) by {
                    if now.contains(x) && x != k {
                        let n = now.index_of(x);
                        assert(ranks[if n < at { n } else { n - 1 }] == x);
                    }
                    if ranks.contains(x) {
                        let n = ranks.index_of(x);
                        assert(now[if n < at { n } else { n + 1 }] == x);
                    }
                    assert(now[at] == k);
                }
                assert forall|x: K::Rank| self.map().contains_key(x) implies self.map()[x]
                    == before.map().insert(k, value.deep_view())[x] by {
                    let n = now.index_of(x);
                    self.lemma_at(n);
                    if x != k {
                        let m = if n < at { n } else { n - 1 };
                        assert(ranks[m] == x);
                        before.lemma_at(m);
                    } else {
                        self.lemma_at(at);
                    }
                }
            }
        }
    }

    fn put(&mut self, key: K, value: V) -> (r: Option<V>)
        requires
            old(self).well_formed(),
        ensures
            final(self).well_formed(),
            final(self).map() == old(self).map().insert(key.rank(), value.deep_view()),
            r.deep_view() == (if old(self).map().contains_key(key.rank()) {
                Some(old(self).map()[key.rank()])
            } else {
                None
            }),
    {
        let ghost k = key.rank();
        let ghost before = *self;
        let ghost ranks = self.ranks();
        let (i, found) = self.search(&key);
        let ghost at = i as int;
        if found {
            proof {
                self.lemma_at(at);
            }
            let mut other = value;
            core::mem::swap(&mut self.values[i], &mut other);
            proof {
                assert(self.ranks() =~= ranks);
                assert forall|n: int| 0 <= n < ranks.len() implies ranks.index_of(#[trigger] ranks[n])
                    == n by {
                    before.lemma_at(n);
                }
                assert(self.map() =~= before.map().insert(k, self.values@[at].deep_view()));
            }
            Some(other)
        } else {
            self.add_at(i, key, value);
            None
        }
    }

    fn take(&mut self, key: &K) -> (r: Option<V>)
        requires
            old(self).well_formed(),
        ensures
            final(self).well_formed(),
            final(self).map() == old(self).map().remove(key.rank()),
            r.deep_view() == (if old(self).map().contains_key(key.rank()) {
                Some(old(self).map()[key.rank()])
            } else {
                None
            }),
    {
        let (i, found) = self.search(key);
        if !found {
            assert(self.map().remove(key.rank()) =~= self.map());
            return None;
        }
        proof {
            self.lemma_at(i as int);
        }
        Some(self.take_at(i).1)
    }

    fn take_at(&mut self, i: usize) -> (r: (K, V))
        requires
            old(self).well_formed(),
            i < old(self).keys@.len(),
        ensures
            final(self).well_formed(),
            final(self).map() == old(self).map().remove(old(self).ranks()[i as int]),
            r.0 == old(self).keys@[i as int],
            r.1 == old(self).values@[i as int],
    {
        let ghost before = *self;
        let ghost ranks = self.ranks();
        let ghost at = i as int;
        let ghost k = ranks[at];
        let key = self.keys.remove(i);
        let value = self.values.remove(i);
        proof {
            let now = self.ranks();
            assert(now =~= ranks.remove(at));
            assert(ascending(now)) by {
                assert forall|a: int, b: int| 0 <= a < b < now.len() implies (
                #[trigger] now[a]).precedes(#[trigger] now[b]) by {
                    let a0 = if a < at { a } else { a + 1 };
                    let b0 = if b < at { b } else { b + 1 };
                    assert(now[a] == ranks[a0] && now[b] == ranks[b0]);
                }
            }
            assert(self.map() =~= before.map().remove(k)) by {
                lemma_no_repeats(ranks);
                assert forall|x: K::Rank| self.map().contains_key(x) <==> before.map().remove(
                    k,
                ).contains_key(x) by {
                    if now.contains(x) {
                        let n = now.index_of(x);
                        let m = if n < at { n } else { n + 1 };
                        assert(ranks[m] == x);
                        assert(x != k);
                    }
                    if ranks.contains(x) && x != k {
                        let n = ranks.index_of(x);
                        assert(now[if n < at { n } else { n - 1 }] == x);
                    }
                }
                assert forall|x: K::Rank| self.map().contains_key(x) implies self.map()[x]
                    == before.map().remove(k)[x] by {
                    let n = now.index_of(x);
                    self.lemma_at(n);
                    let m = if n < at { n } else { n + 1 };
                    assert(ranks[m] == x);
                    before.lemma_at(m);
                }
            }
        }
        (key, value)
    }
}

/// A map that keeps its keys in ascending order.
#[derive(Debug)]
pub struct SortedMap<K: SortKey, V> {
    entries: Entries<K, V>,
}

impl<K: SortKey, V> SortedMap<K, V> {
    #[verifier::type_invariant]
    pub(crate) closed spec fn well_formed(&self) -> bool {
        self.entries.well_formed()
    }
}

impl<K: SortKey, V: DeepView> View for SortedMap<K, V> {
    type V = Map<K::Rank, V::V>;

    closed spec fn view(&self) -> Map<K::Rank, V::V> {
        self.entries.map()
    }
}

impl<K: SortKey, V: DeepView> DeepView for SortedMap<K, V> {
    type V = Map<K::Rank, V::V>;

    open spec fn deep_view(&self) -> Map<K::Rank, V::V> {
        self@
    }
}

impl<K: SortKey, V: DeepView> SortedMap<K, V> {
    /// A map with nothing in it.
    pub fn new() -> (r: Self)
        ensures
            r@ == Map::<K::Rank, V::V>::empty(),
    {
        let entries = Entries { keys: Vec::new(), values: Vec::new() };
        assert(entries.ranks() =~= Seq::empty());
        assert(entries.map() =~= Map::empty());
        SortedMap { entries }
    }

    /// However many keys there are, they are finitely many.
    pub(crate) proof fn lemma_finite(&self)
        requires
            self.well_formed(),
        ensures
            self@.dom().finite(),
    {
        lemma_in_order(self.entries.ranks(), self@.dom());
    }

    /// How many keys there are.
    pub fn len(&self) -> (r: usize)
        ensures
            r == self@.len(),
            r == in_order(self@.dom()).len(),
            enumerates(in_order(self@.dom()), self@.dom()),
            self@.dom().finite(),
    {
        proof {
            use_type_invariant(self);
            lemma_in_order(self.entries.ranks(), self@.dom());
        }
        self.entries.keys.len()
    }

    /// True when there are no keys.
    pub fn is_empty(&self) -> (r: bool)
        ensures
            r == (self@ == Map::<K::Rank, V::V>::empty()),
    {
        let ghost m = self@;
        let n: usize = self.entries.keys.len();
        proof {
            use_type_invariant(self);
            if n == 0 {
                assert(self.entries.ranks() =~= Seq::empty());
                assert(m =~= Map::empty());
            } else {
                self.entries.lemma_at(0);
            }
        }
        n == 0
    }

    /// The key at this place in the order.
    pub fn key_at(&self, i: usize) -> (r: &K)
        requires
            i < self@.len(),
        ensures
            r.rank() == in_order(self@.dom())[i as int],
            self@.contains_key(r.rank()),
    {
        proof {
            use_type_invariant(self);
            lemma_in_order(self.entries.ranks(), self@.dom());
            self.entries.lemma_at(i as int);
        }
        &self.entries.keys[i]
    }

    /// The value at this place in the order.
    pub fn value_at(&self, i: usize) -> (r: &V)
        requires
            i < self@.len(),
        ensures
            r.deep_view() == self@[in_order(self@.dom())[i as int]],
            self@.contains_key(in_order(self@.dom())[i as int]),
    {
        proof {
            use_type_invariant(self);
            lemma_in_order(self.entries.ranks(), self@.dom());
            self.entries.lemma_at(i as int);
        }
        &self.entries.values[i]
    }

    /// Every key with its value, in order.
    pub fn iter(&self) -> (r: Vec<(&K, &V)>)
        ensures
            r@.len() == in_order(self@.dom()).len(),
            r@.len() == self@.len(),
            forall|i: int|
                0 <= i < r@.len() ==> {
                    &&& (#[trigger] r@[i]).0.rank() == in_order(self@.dom())[i]
                    &&& self@.contains_key(r@[i].0.rank())
                    &&& r@[i].1.deep_view() == self@[in_order(self@.dom())[i]]
                },
    {
        let mut out: Vec<(&K, &V)> = Vec::new();
        let n: usize = self.len();
        let mut i: usize = 0;
        let ghost order = in_order(self@.dom());
        while i < n
            invariant
                i <= n == order.len(),
                n == self@.len(),
                order == in_order(self@.dom()),
                out@.len() == i,
                forall|j: int|
                    0 <= j < i ==> {
                        &&& (#[trigger] out@[j]).0.rank() == order[j]
                        &&& self@.contains_key(out@[j].0.rank())
                        &&& out@[j].1.deep_view() == self@[order[j]]
                    },
            decreases n - i,
        {
            out.push((self.key_at(i), self.value_at(i)));
            i = i + 1;
        }
        out
    }

    /// True when the key is there.
    pub fn contains_key(&self, key: &K) -> (r: bool)
        ensures
            r == self@.contains_key(key.rank()),
    {
        proof {
            use_type_invariant(self);
        }
        self.entries.search(key).1
    }

    /// The value under a key.
    pub fn get(&self, key: &K) -> (r: Option<&V>)
        ensures
            match r {
                Some(v) => self@.contains_key(key.rank()) && v.deep_view() == self@[key.rank()],
                None => !self@.contains_key(key.rank()),
            },
    {
        proof {
            use_type_invariant(self);
        }
        let (i, found) = self.entries.search(key);
        if found {
            proof {
                self.entries.lemma_at(i as int);
            }
            Some(&self.entries.values[i])
        } else {
            None
        }
    }

    /// The value under a key, for changing it.
    pub fn get_mut(&mut self, key: &K) -> (r: Option<&mut V>)
        ensures
            match r {
                Some(v) => {
                    &&& old(self)@.contains_key(key.rank())
                    &&& v.deep_view() == old(self)@[key.rank()]
                    &&& final(self)@ == old(self)@.insert(key.rank(), final(v).deep_view())
                },
                None => !old(self)@.contains_key(key.rank()) && final(self)@ == old(self)@,
            },
    {
        proof {
            use_type_invariant(&*self);
        }
        let ghost before = self.entries;
        let (i, found) = self.entries.search(key);
        if found {
            proof {
                before.lemma_update(i as int);
            }
            Some(&mut self.entries.values[i])
        } else {
            None
        }
    }

    /// The value at this place in the order, for changing it.
    pub fn value_at_mut(&mut self, i: usize) -> (r: &mut V)
        requires
            i < old(self)@.len(),
        ensures
            old(self)@.contains_key(in_order(old(self)@.dom())[i as int]),
            r.deep_view() == old(self)@[in_order(old(self)@.dom())[i as int]],
            final(self)@ == old(self)@.insert(
                in_order(old(self)@.dom())[i as int],
                final(r).deep_view(),
            ),
    {
        let ghost before = self.entries;
        proof {
            use_type_invariant(&*self);
            lemma_in_order(before.ranks(), self@.dom());
            before.lemma_update(i as int);
        }
        &mut self.entries.values[i]
    }

    /// The value under a key, for changing it. Where there is none, `value` is put there first.
    pub fn get_or_insert(&mut self, key: K, value: V) -> (r: &mut V)
        ensures
            r.deep_view() == (if old(self)@.contains_key(key.rank()) {
                old(self)@[key.rank()]
            } else {
                value.deep_view()
            }),
            final(self)@ == old(self)@.insert(key.rank(), final(r).deep_view()),
    {
        proof {
            use_type_invariant(&*self);
        }
        let ghost k = key.rank();
        let ghost m = self@;
        let (i, found) = self.entries.search(&key);
        if !found {
            let mut entries = Entries { keys: Vec::new(), values: Vec::new() };
            core::mem::swap(&mut entries, &mut self.entries);
            entries.add_at(i, key, value);
            self.entries = entries;
        }
        proof {
            let e = self.entries;
            e.lemma_update(i as int);
            assert(e.ranks()[i as int] == k);
            assert forall|v: V::V| #[trigger] e.map().insert(k, v) == m.insert(k, v) by {
                assert(e.map().insert(k, v) =~= m.insert(k, v));
            }
        }
        &mut self.entries.values[i]
    }

    /// Put a value under a key, handing back the one it replaces.
    pub fn insert(&mut self, key: K, value: V) -> (r: Option<V>)
        ensures
            final(self)@ == old(self)@.insert(key.rank(), value.deep_view()),
            r.deep_view() == (if old(self)@.contains_key(key.rank()) {
                Some(old(self)@[key.rank()])
            } else {
                None
            }),
    {
        proof {
            use_type_invariant(&*self);
        }
        let mut entries = Entries { keys: Vec::new(), values: Vec::new() };
        core::mem::swap(&mut entries, &mut self.entries);
        let r = entries.put(key, value);
        self.entries = entries;
        r
    }

    /// Take a key out, handing back its value.
    pub fn remove(&mut self, key: &K) -> (r: Option<V>)
        ensures
            final(self)@ == old(self)@.remove(key.rank()),
            r.deep_view() == (if old(self)@.contains_key(key.rank()) {
                Some(old(self)@[key.rank()])
            } else {
                None
            }),
    {
        proof {
            use_type_invariant(&*self);
        }
        let mut entries = Entries { keys: Vec::new(), values: Vec::new() };
        core::mem::swap(&mut entries, &mut self.entries);
        let r = entries.take(key);
        self.entries = entries;
        r
    }

    /// Take out the key at this place in the order, with its value.
    pub fn take_at(&mut self, i: usize) -> (r: (K, V))
        requires
            i < old(self)@.len(),
        ensures
            r.0.rank() == in_order(old(self)@.dom())[i as int],
            old(self)@.contains_key(r.0.rank()),
            r.1.deep_view() == old(self)@[r.0.rank()],
            final(self)@ == old(self)@.remove(r.0.rank()),
    {
        proof {
            use_type_invariant(&*self);
            lemma_in_order(self.entries.ranks(), self@.dom());
            self.entries.lemma_at(i as int);
        }
        let mut entries = Entries { keys: Vec::new(), values: Vec::new() };
        core::mem::swap(&mut entries, &mut self.entries);
        let r = entries.take_at(i);
        self.entries = entries;
        r
    }

    /// Take every key out.
    pub fn clear(&mut self)
        ensures
            final(self)@ == Map::<K::Rank, V::V>::empty(),
    {
        let entries = Entries { keys: Vec::new(), values: Vec::new() };
        assert(entries.ranks() =~= Seq::empty());
        assert(entries.map() =~= Map::empty());
        self.entries = entries;
    }
}

impl<K: SortKey, V: DeepView + Clone> Clone for SortedMap<K, V> {
    /// The same keys, each with a clone of its value.
    fn clone(&self) -> (r: Self)
        ensures
            r@.dom() == self@.dom(),
            forall|k: K::Rank| #[trigger]
                self@.contains_key(k) ==> exists|a: V, b: V| #[trigger]
                    cloned(a, b) && a.deep_view() == self@[k] && b.deep_view() == r@[k],
    {
        proof {
            use_type_invariant(self);
        }
        let mut keys: Vec<K> = Vec::new();
        let mut values: Vec<V> = Vec::new();
        let mut i: usize = 0;
        while i < self.entries.keys.len()
            invariant
                self.entries.well_formed(),
                i <= self.entries.keys@.len(),
                keys@.len() == i,
                values@.len() == i,
                forall|j: int|
                    0 <= j < i ==> (#[trigger] keys@[j]).rank() == self.entries.keys@[j].rank(),
                forall|j: int|
                    0 <= j < i ==> cloned(self.entries.values@[j], #[trigger] values@[j]),
            decreases self.entries.keys@.len() - i,
        {
            keys.push(self.entries.keys[i].copied());
            values.push(self.entries.values[i].clone());
            i = i + 1;
        }
        let entries = Entries { keys, values };
        proof {
            let ranks = self.entries.ranks();
            assert(entries.ranks() =~= ranks);
            assert(entries.map().dom() =~= self@.dom());
            assert forall|k: K::Rank| #[trigger] self@.contains_key(k) implies exists|a: V, b: V|
                #[trigger]
                cloned(a, b) && a.deep_view() == self@[k] && b.deep_view() == entries.map()[k] by {
                let at = ranks.index_of(k);
                assert(cloned(self.entries.values@[at], entries.values@[at]));
            }
        }
        SortedMap { entries }
    }
}

/// A set that keeps its elements in ascending order.
#[derive(Debug)]
pub struct SortedSet<K: SortKey> {
    items: SortedMap<K, ()>,
}

impl<K: SortKey> View for SortedSet<K> {
    type V = Set<K::Rank>;

    closed spec fn view(&self) -> Set<K::Rank> {
        self.items@.dom()
    }
}

impl<K: SortKey> DeepView for SortedSet<K> {
    type V = Set<K::Rank>;

    open spec fn deep_view(&self) -> Set<K::Rank> {
        self@
    }
}

impl<K: SortKey> Clone for SortedSet<K> {
    fn clone(&self) -> (r: Self)
        ensures
            r@ == self@,
    {
        SortedSet { items: self.items.clone() }
    }
}

impl<K: SortKey> SortedSet<K> {
    /// A set with nothing in it.
    pub fn new() -> (r: Self)
        ensures
            r@ == Set::<K::Rank>::empty(),
    {
        let r = SortedSet { items: SortedMap::new() };
        assert(r@ =~= Set::empty());
        r
    }

    /// How many elements there are.
    pub fn len(&self) -> (r: usize)
        ensures
            r == self@.len(),
            r == in_order(self@).len(),
            enumerates(in_order(self@), self@),
            self@.finite(),
    {
        self.items.len()
    }

    /// True when there are none.
    pub fn is_empty(&self) -> (r: bool)
        ensures
            r == (self@ == Set::<K::Rank>::empty()),
    {
        let r = self.items.is_empty();
        proof {
            if self@ == Set::<K::Rank>::empty() {
                assert(self.items@ =~= Map::empty());
            }
        }
        r
    }

    /// The element at this place in the order.
    pub fn at(&self, i: usize) -> (r: &K)
        requires
            i < self@.len(),
        ensures
            r.rank() == in_order(self@)[i as int],
            self@.contains(r.rank()),
    {
        self.items.key_at(i)
    }

    /// True when this is in the set.
    pub fn contains(&self, key: &K) -> (r: bool)
        ensures
            r == self@.contains(key.rank()),
    {
        self.items.contains_key(key)
    }

    /// Put this in. True when it was not there.
    pub fn insert(&mut self, key: K) -> (r: bool)
        ensures
            final(self)@ == old(self)@.insert(key.rank()),
            r == !old(self)@.contains(key.rank()),
    {
        let r = self.items.insert(key, ()).is_none();
        assert(self@ =~= old(self)@.insert(key.rank()));
        r
    }

    /// Take this out. True when it was there.
    pub fn remove(&mut self, key: &K) -> (r: bool)
        ensures
            final(self)@ == old(self)@.remove(key.rank()),
            r == old(self)@.contains(key.rank()),
    {
        let r = self.items.remove(key).is_some();
        assert(self@ =~= old(self)@.remove(key.rank()));
        r
    }

    /// Take everything out.
    pub fn clear(&mut self)
        ensures
            final(self)@ == Set::<K::Rank>::empty(),
    {
        self.items.clear();
        assert(self@ =~= Set::empty());
    }
}

/// True when `a` comes before `b` from place `i` on, character by character.
pub open spec fn text_precedes(a: Seq<char>, b: Seq<char>, i: nat) -> bool
    decreases a.len() - i,
{
    if i >= b.len() {
        false
    } else if i >= a.len() {
        true
    } else if a[i as int] != b[i as int] {
        a[i as int] < b[i as int]
    } else {
        text_precedes(a, b, i + 1)
    }
}

proof fn lemma_text_irreflexive(a: Seq<char>, i: nat)
    ensures
        !text_precedes(a, a, i),
    decreases a.len() - i,
{
    if i < a.len() {
        lemma_text_irreflexive(a, i + 1);
    }
}

proof fn lemma_text_transitive(a: Seq<char>, b: Seq<char>, c: Seq<char>, i: nat)
    requires
        text_precedes(a, b, i),
        text_precedes(b, c, i),
    ensures
        text_precedes(a, c, i),
    decreases a.len() - i,
{
    if i < a.len() && i < b.len() && i < c.len() && a[i as int] == b[i as int] && b[i as int]
        == c[i as int] {
        lemma_text_transitive(a, b, c, i + 1);
    }
}

proof fn lemma_text_connected(a: Seq<char>, b: Seq<char>, i: nat)
    requires
        i <= a.len(),
        i <= b.len(),
        forall|j: int| 0 <= j < i ==> a[j] == b[j],
    ensures
        text_precedes(a, b, i) || a == b || text_precedes(b, a, i),
    decreases a.len() - i,
{
    if i < a.len() && i < b.len() && a[i as int] == b[i as int] {
        lemma_text_connected(a, b, i + 1);
    } else if i == a.len() && i == b.len() {
        assert(a =~= b);
    }
}

impl Ordered for Seq<char> {
    open spec fn precedes(self, other: Self) -> bool {
        text_precedes(self, other, 0)
    }

    proof fn irreflexive(a: Self) {
        lemma_text_irreflexive(a, 0);
    }

    proof fn transitive(a: Self, b: Self, c: Self) {
        lemma_text_transitive(a, b, c, 0);
    }

    proof fn connected(a: Self, b: Self) {
        lemma_text_connected(a, b, 0);
    }
}

fn char_before(a: char, b: char) -> (r: bool)
    ensures
        r == (a < b),
{
    a < b
}

/// True when the first text comes before the second, character by character.
pub fn text_before(a: &str, b: &str) -> (r: bool)
    ensures
        r == a@.precedes(b@),
{
    let x = chars_of(a);
    let y = chars_of(b);
    let mut i: usize = 0;
    while i < x.len() && i < y.len() && x[i] == y[i]
        invariant
            i <= x@.len(),
            i <= y@.len(),
            x@ == a@,
            y@ == b@,
            text_precedes(a@, b@, 0) == text_precedes(a@, b@, i as nat),
        decreases x@.len() - i,
    {
        i = i + 1;
    }
    if i >= y.len() {
        false
    } else if i >= x.len() {
        true
    } else {
        char_before(x[i], y[i])
    }
}

impl SortKey for String {
    type Rank = Seq<char>;

    open spec fn rank(&self) -> Seq<char> {
        self@
    }

    fn before(&self, other: &Self) -> (r: bool) {
        text_before(self, other)
    }

    fn is(&self, other: &Self) -> (r: bool) {
        same(self, other)
    }

    fn copied(&self) -> (r: Self) {
        self.clone()
    }
}

impl Ordered for char {
    open spec fn precedes(self, other: Self) -> bool {
        self < other
    }

    proof fn irreflexive(a: Self) {
    }

    proof fn transitive(a: Self, b: Self, c: Self) {
    }

    proof fn connected(a: Self, b: Self) {
    }
}

impl SortKey for char {
    type Rank = char;

    open spec fn rank(&self) -> char {
        *self
    }

    fn before(&self, other: &Self) -> (r: bool) {
        assert((*self).precedes(*other) == (*self < *other));
        char_before(*self, *other)
    }

    fn is(&self, other: &Self) -> (r: bool) {
        *self == *other
    }

    fn copied(&self) -> (r: Self) {
        *self
    }
}

} // verus!
