//! Maps and sets kept in key order.
//!
//! A [`SortedMap`] holds its entries in ascending key order and each key
//! once; lookups are binary searches. Contracts see it as a `Map` from
//! key models to values, together with the sequence of its keys. A
//! [`SortedSet`] is the same structure without values.

use vstd::prelude::*;

use crate::order::{ascending, in_order, lemma_in_order, lists, Key};

verus! {

/// A map whose entries are held in ascending key order.
#[derive(Debug, PartialEq, Eq)]
pub struct SortedMap<K, V> {
    entries: Vec<(K, V)>,
}

impl<K: Key, V> View for SortedMap<K, V> {
    type V = Map<K::Model, V>;

    closed spec fn view(&self) -> Map<K::Model, V> {
        Map::new(
            |k: K::Model| self.keys().contains(k),
            |k: K::Model| self.entries@[self.keys().index_of(k)].1,
        )
    }
}

impl<K: Key, V> SortedMap<K, V> {
    /// The keys, in the order in which the map holds them.
    pub closed spec fn keys(&self) -> Seq<K::Model> {
        Seq::new(self.entries@.len(), |i: int| self.entries@[i].0.model())
    }

    /// The keys are in ascending order, hence each occurs once.
    pub open spec fn wf(&self) -> bool {
        ascending::<K>(self.keys())
    }

    /// Key sequence and map view describe the same entries.
    pub proof fn lemma_keys(&self)
        requires
            self.wf(),
        ensures
            lists(self.keys(), self@.dom()),
            self.keys() == in_order::<K>(self@.dom()),
            self.keys().no_duplicates(),
    {
        assert forall|k: K::Model| self.keys().contains(k) <==> self@.dom().contains(k) by {}
        lemma_in_order::<K>(self.keys(), self@.dom());
        crate::order::lemma_ascending_distinct::<K>(self.keys());
    }

    /// The value held at one position.
    proof fn lemma_at(&self, i: int)
        requires
            self.wf(),
            0 <= i < self.keys().len(),
        ensures
            self@.contains_key(self.keys()[i]),
            self@[self.keys()[i]] == self.entries@[i].1,
    {
        let k = self.keys()[i];
        assert(self.keys().contains(k));
        let j = self.keys().index_of(k);
        assert(self.keys()[j] == k);
        crate::order::lemma_ascending_distinct::<K>(self.keys());
        assert(i == j);
    }

    pub fn new() -> (r: Self)
        ensures
            r.wf(),
            r@ == Map::<K::Model, V>::empty(),
            r.keys() == Seq::<K::Model>::empty(),
    {
        let r = SortedMap { entries: Vec::new() };
        proof {
            assert(r.keys() =~= Seq::<K::Model>::empty());
            assert(r@ =~= Map::<K::Model, V>::empty());
        }
        r
    }

    pub fn len(&self) -> (n: usize)
        ensures
            n == self.keys().len(),
    {
        self.entries.len()
    }

    pub fn is_empty(&self) -> (b: bool)
        requires
            self.wf(),
        ensures
            b == (self@ == Map::<K::Model, V>::empty()),
            b == (self.keys().len() == 0),
    {
        proof {
            if self.keys().len() == 0 {
                assert(self@ =~= Map::<K::Model, V>::empty());
            } else {
                self.lemma_at(0);
            }
        }
        self.entries.len() == 0
    }

    /// Where a key is, or where it would have to stand.
    fn find(&self, key: &K) -> (r: Result<usize, usize>)
        requires
            self.wf(),
        ensures
            match r {
                Ok(i) => i < self.keys().len() && self.keys()[i as int] == key.model(),
                Err(i) => {
                    &&& i <= self.keys().len()
                    &&& forall|j: int| 0 <= j < i ==> K::before(#[trigger] self.keys()[j], key.model())
                    &&& forall|j: int| i <= j < self.keys().len() ==> K::before(key.model(), #[trigger] self.keys()[j])
                },
            },
    {
        let mut lo: usize = 0;
        let mut hi: usize = self.entries.len();
        while lo < hi
            invariant
                self.wf(),
                lo <= hi <= self.keys().len(),
                self.keys().len() == self.entries@.len(),
                forall|j: int| 0 <= j < lo ==> K::before(#[trigger] self.keys()[j], key.model()),
                forall|j: int| hi <= j < self.keys().len() ==> K::before(key.model(), #[trigger] self.keys()[j]),
            decreases hi - lo,
        {
            let mid: usize = lo + (hi - lo) / 2;
            let entry = &self.entries[mid];
            assert(entry.0.model() == self.keys()[mid as int]);
            if entry.0.same(key) {
                return Ok(mid);
            }
            if entry.0.precedes(key) {
                proof {
                    assert forall|j: int| 0 <= j <= mid implies K::before(
                        #[trigger] self.keys()[j],
                        key.model(),
                    ) by {
                        if j < mid {
                            K::transitive(self.keys()[j], self.keys()[mid as int], key.model());
                        }
                    }
                }
                lo = mid + 1;
            } else {
                proof {
                    K::connected(self.keys()[mid as int], key.model());
                    assert forall|j: int| mid <= j < self.keys().len() implies K::before(
                        key.model(),
                        #[trigger] self.keys()[j],
                    ) by {
                        if mid < j {
                            K::transitive(key.model(), self.keys()[mid as int], self.keys()[j]);
                        }
                    }
                }
                hi = mid;
            }
        }
        Err(lo)
    }

    /// A key that every held key stands strictly beside is not held.
    proof fn lemma_absent(&self, key: K::Model, at: int)
        requires
            self.wf(),
            forall|j: int| 0 <= j < at ==> K::before(#[trigger] self.keys()[j], key),
            forall|j: int| at <= j < self.keys().len() ==> K::before(key, #[trigger] self.keys()[j]),
        ensures
            !self@.contains_key(key),
    {
        if self.keys().contains(key) {
            let j = self.keys().index_of(key);
            assert(self.keys()[j] == key);
            K::irreflexive(key);
        }
    }

    pub fn get(&self, key: &K) -> (r: Option<&V>)
        requires
            self.wf(),
        ensures
            match r {
                Some(v) => self@.contains_key(key.model()) && *v == self@[key.model()],
                None => !self@.contains_key(key.model()),
            },
    {
        match self.find(key) {
            Ok(i) => {
                proof {
                    self.lemma_at(i as int);
                }
                Some(&self.entries[i].1)
            },
            Err(i) => {
                proof {
                    self.lemma_absent(key.model(), i as int);
                }
                None
            },
        }
    }

    pub fn contains_key(&self, key: &K) -> (b: bool)
        requires
            self.wf(),
        ensures
            b == self@.contains_key(key.model()),
    {
        self.get(key).is_some()
    }

    /// The key at a position in key order.
    pub fn key(&self, i: usize) -> (k: &K)
        requires
            i < self.keys().len(),
        ensures
            k.model() == self.keys()[i as int],
    {
        &self.entries[i].0
    }

    /// The value at a position in key order.
    pub fn value(&self, i: usize) -> (v: &V)
        requires
            self.wf(),
            i < self.keys().len(),
        ensures
            self@.contains_key(self.keys()[i as int]),
            *v == self@[self.keys()[i as int]],
    {
        proof {
            self.lemma_at(i as int);
        }
        &self.entries[i].1
    }

    /// Sets the value under a key and returns what it displaced.
    pub fn insert(&mut self, key: K, value: V) -> (r: Option<V>)
        requires
            old(self).wf(),
        ensures
            final(self).wf(),
            final(self)@ == old(self)@.insert(key.model(), value),
            final(self).keys().len() == old(self).keys().len() + if old(self)@.contains_key(
                key.model(),
            ) {
                0int
            } else {
                1int
            },
            r == old(self)@.get(key.model()),
    {
        let ghost before = *self;
        let ghost model = key.model();
        match self.find(&key) {
            Ok(i) => {
                let displaced = self.entries.remove(i);
                self.entries.insert(i, (key, value));
                proof {
                    before.lemma_at(i as int);
                    assert(self.keys() =~= before.keys());
                    assert(before.keys().contains(model));
                    assert(self@.dom() =~= before@.insert(model, value).dom());
                    assert forall|k: K::Model| #[trigger] before@.insert(model, value).contains_key(k)
                        implies self@[k] == before@.insert(model, value)[k] by {
                        if k != model {
                            let j = before.keys().index_of(k);
                            assert(before.keys().contains(k));
                            assert(before.keys()[j] == k);
                            before.lemma_at(j);
                            self.lemma_at(j);
                        } else {
                            self.lemma_at(i as int);
                        }
                    }
                    assert(self@ =~= before@.insert(model, value));
                }
                Some(displaced.1)
            },
            Err(i) => {
                proof {
                    before.lemma_absent(model, i as int);
                }
                self.entries.insert(i, (key, value));
                proof {
                    assert(self.keys() =~= before.keys().insert(i as int, model));
                    assert forall|a: int, b: int| 0 <= a < b < self.keys().len() implies K::before(
                        #[trigger] self.keys()[a],
                        #[trigger] self.keys()[b],
                    ) by {
                        let ka = if a < i { before.keys()[a] } else { before.keys()[a - 1] };
                        let kb = if b < i { before.keys()[b] } else { before.keys()[b - 1] };
                        if a != i && b != i {
                            assert(K::before(ka, kb));
                        }
                    }
                    assert forall|k: K::Model| self@.contains_key(k) == before@.insert(model, value).contains_key(k) by {
                        if self.keys().contains(k) {
                            let j = self.keys().index_of(k);
                            assert(self.keys()[j] == k);
                            if j < i {
                                assert(before.keys()[j] == k);
                            } else if j > i {
                                assert(before.keys()[j - 1] == k);
                            }
                        }
                        if before.keys().contains(k) {
                            let j = before.keys().index_of(k);
                            assert(before.keys()[j] == k);
                            if j < i {
                                assert(self.keys()[j] == k);
                            } else {
                                assert(self.keys()[j + 1] == k);
                            }
                        }
                        assert(self.keys()[i as int] == model);
                    }
                    assert forall|k: K::Model| #[trigger] before@.insert(model, value).contains_key(k)
                        implies self@[k] == before@.insert(model, value)[k] by {
                        if k != model {
                            assert(before.keys().contains(k));
                            let j = before.keys().index_of(k);
                            assert(before.keys()[j] == k);
                            before.lemma_at(j);
                            if j < i {
                                self.lemma_at(j);
                            } else {
                                self.lemma_at(j + 1);
                            }
                        } else {
                            self.lemma_at(i as int);
                        }
                    }
                    assert(self@ =~= before@.insert(model, value));
                }
                None
            },
        }
    }

    /// Removes a key and returns the value it had.
    pub fn remove(&mut self, key: &K) -> (r: Option<V>)
        requires
            old(self).wf(),
        ensures
            final(self).wf(),
            final(self)@ == old(self)@.remove(key.model()),
            r == old(self)@.get(key.model()),
    {
        let ghost before = *self;
        let ghost model = key.model();
        match self.find(key) {
            Ok(i) => {
                let removed = self.entries.remove(i);
                proof {
                    before.lemma_at(i as int);
                    crate::order::lemma_ascending_distinct::<K>(before.keys());
                    assert(self.keys() =~= before.keys().remove(i as int));
                    assert forall|a: int, b: int| 0 <= a < b < self.keys().len() implies K::before(
                        #[trigger] self.keys()[a],
                        #[trigger] self.keys()[b],
                    ) by {
                        let ka = if a < i { before.keys()[a] } else { before.keys()[a + 1] };
                        let kb = if b < i { before.keys()[b] } else { before.keys()[b + 1] };
                        assert(K::before(ka, kb));
                    }
                    assert forall|k: K::Model| self@.contains_key(k) == before@.remove(model).contains_key(k) by {
                        if self.keys().contains(k) {
                            let j = self.keys().index_of(k);
                            assert(self.keys()[j] == k);
                            if j < i {
                                assert(before.keys()[j] == k);
                            } else {
                                assert(before.keys()[j + 1] == k);
                            }
                        }
                        if before.keys().contains(k) && k != model {
                            let j = before.keys().index_of(k);
                            assert(before.keys()[j] == k);
                            if j < i {
                                assert(self.keys()[j] == k);
                            } else {
                                assert(self.keys()[j - 1] == k);
                            }
                        }
                    }
                    assert forall|k: K::Model| #[trigger] before@.remove(model).contains_key(k)
                        implies self@[k] == before@.remove(model)[k] by {
                        assert(before.keys().contains(k));
                        let j = before.keys().index_of(k);
                        assert(before.keys()[j] == k);
                        before.lemma_at(j);
                        if j < i {
                            self.lemma_at(j);
                        } else {
                            self.lemma_at(j - 1);
                        }
                    }
                    assert(self@ =~= before@.remove(model));
                }
                Some(removed.1)
            },
            Err(i) => {
                proof {
                    before.lemma_absent(model, i as int);
                    assert(self@ =~= before@.remove(model));
                }
                None
            },
        }
    }

    /// Takes over every entry of another map; its values win.
    pub fn merge(&mut self, other: Self)
        requires
            old(self).wf(),
            other.wf(),
        ensures
            final(self).wf(),
            final(self)@ == old(self)@.union_prefer_right(other@),
    {
        let ghost before = self@;
        let mut entries = other.entries;
        proof {
            assert(other.keys().skip(entries@.len() as int) =~= Seq::empty());
            assert(entries@ =~= other.entries@.take(entries@.len() as int));
        }
        while entries.len() > 0
            invariant
                self.wf(),
                other.wf(),
                other.keys().len() == other.entries@.len(),
                entries@.len() <= other.entries@.len(),
                entries@ == other.entries@.take(entries@.len() as int),
                forall|k: K::Model| #[trigger]
                    self@.contains_key(k) <==> before.contains_key(k) || other.keys().skip(
                        entries@.len() as int,
                    ).contains(k),
                forall|k: K::Model| #[trigger]
                    self@.contains_key(k) ==> self@[k] == if other.keys().skip(
                        entries@.len() as int,
                    ).contains(k) {
                        other@[k]
                    } else {
                        before[k]
                    },
            decreases entries@.len(),
        {
            let ghost n = entries@.len() as int;
            if let Some((key, value)) = entries.pop() {
                proof {
                    assert(other.entries@[n - 1] == (key, value));
                    assert(other.keys()[n - 1] == key.model());
                    other.lemma_at(n - 1);
                    assert(other.keys().skip(n - 1) =~= seq![key.model()] + other.keys().skip(n));
                    assert forall|k: K::Model| #[trigger]
                        other.keys().skip(n - 1).contains(k) <==> k == key.model()
                            || other.keys().skip(n).contains(k) by {
                        if k == key.model() {
                            assert(other.keys().skip(n - 1)[0] == k);
                        }
                        if other.keys().skip(n).contains(k) {
                            let i = other.keys().skip(n).index_of(k);
                            assert(other.keys().skip(n - 1)[i + 1] == k);
                        }
                    }
                }
                self.insert(key, value);
            }
        }
        proof {
            assert(other.keys().skip(0) =~= other.keys());
            assert(self@ =~= before.union_prefer_right(other@));
        }
    }
}

impl<K: Key + Copy, V: Copy> SortedMap<K, V> {
    /// A map with the same entries.
    pub fn duplicate(&self) -> (r: Self)
        ensures
            r@ == self@,
            r.keys() == self.keys(),
    {
        let mut entries: Vec<(K, V)> = Vec::new();
        let mut i: usize = 0;
        while i < self.entries.len()
            invariant
                i <= self.entries@.len(),
                entries@ == self.entries@.take(i as int),
            decreases self.entries@.len() - i,
        {
            let entry = &self.entries[i];
            entries.push((entry.0, entry.1));
            i = i + 1;
            proof {
                assert(entries@ =~= self.entries@.take(i as int));
            }
        }
        let r = SortedMap { entries };
        proof {
            assert(r.entries@ =~= self.entries@);
            assert(r.keys() =~= self.keys());
            assert(r@ =~= self@);
        }
        r
    }
}

/// A set whose members are held in ascending order.
#[derive(Debug, PartialEq, Eq)]
pub struct SortedSet<K> {
    map: SortedMap<K, ()>,
}

impl<K: Key> View for SortedSet<K> {
    type V = Set<K::Model>;

    closed spec fn view(&self) -> Set<K::Model> {
        self.map@.dom()
    }
}

impl<K: Key> SortedSet<K> {
    /// The members, in the order in which the set holds them.
    pub closed spec fn keys(&self) -> Seq<K::Model> {
        self.map.keys()
    }

    /// The members are in ascending order, hence each occurs once.
    pub open spec fn wf(&self) -> bool {
        ascending::<K>(self.keys())
    }

    /// Member sequence and set view describe the same members.
    pub proof fn lemma_keys(&self)
        requires
            self.wf(),
        ensures
            lists(self.keys(), self@),
            self.keys() == in_order::<K>(self@),
            self.keys().no_duplicates(),
    {
        self.map.lemma_keys();
    }

    pub fn new() -> (r: Self)
        ensures
            r.wf(),
            r@ == Set::<K::Model>::empty(),
            r.keys() == Seq::<K::Model>::empty(),
    {
        let r = SortedSet { map: SortedMap::new() };
        proof {
            assert(r@ =~= Set::<K::Model>::empty());
        }
        r
    }

    pub fn len(&self) -> (n: usize)
        ensures
            n == self.keys().len(),
    {
        self.map.len()
    }

    pub fn is_empty(&self) -> (b: bool)
        requires
            self.wf(),
        ensures
            b == (self@ == Set::<K::Model>::empty()),
            b == (self.keys().len() == 0),
    {
        let b = self.map.is_empty();
        proof {
            self.lemma_keys();
            if self.keys().len() == 0 {
                assert(self@ =~= Set::<K::Model>::empty());
            } else {
                assert(self.keys().contains(self.keys()[0]));
                assert(self@.contains(self.keys()[0]));
            }
        }
        b
    }

    pub fn contains(&self, key: &K) -> (b: bool)
        requires
            self.wf(),
        ensures
            b == self@.contains(key.model()),
    {
        self.map.contains_key(key)
    }

    /// The member at a position in order.
    pub fn key(&self, i: usize) -> (k: &K)
        requires
            i < self.keys().len(),
        ensures
            k.model() == self.keys()[i as int],
    {
        self.map.key(i)
    }

    /// Adds a member; `true` when it was not there before.
    pub fn insert(&mut self, key: K) -> (added: bool)
        requires
            old(self).wf(),
        ensures
            final(self).wf(),
            final(self)@ == old(self)@.insert(key.model()),
            final(self).keys().len() == old(self).keys().len() + if added {
                1int
            } else {
                0int
            },
            added == !old(self)@.contains(key.model()),
    {
        let displaced = self.map.insert(key, ());
        proof {
            assert(self@ =~= old(self)@.insert(key.model()));
        }
        displaced.is_none()
    }

    /// Removes a member; `true` when it was there before.
    pub fn remove(&mut self, key: &K) -> (removed: bool)
        requires
            old(self).wf(),
        ensures
            final(self).wf(),
            final(self)@ == old(self)@.remove(key.model()),
            removed == old(self)@.contains(key.model()),
    {
        let displaced = self.map.remove(key);
        proof {
            assert(self@ =~= old(self)@.remove(key.model()));
        }
        displaced.is_some()
    }
}

} // verus!
