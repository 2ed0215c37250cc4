//! Delivery obligations: what was promised, and what of it is done.
//!
//! Nothing is ever deleted. An obligation is pending while it is queued
//! and not discharged, so queueing and discharging commute and replaying
//! either is harmless.

use vstd::prelude::*;

use crate::order::{ascending, in_order, lemma_in_order, lists, Key};
use crate::sorted::{SortedMap, SortedSet};

verus! {

/// The mathematical value of [`Obligations`].
#[verifier::ext_equal]
#[verifier::reject_recursive_types(Q)]
pub struct ObligationsView<Q> {
    pub queued: Set<Q>,
    pub discharged: Set<Q>,
}

impl<Q> ObligationsView<Q> {
    pub open spec fn empty() -> Self {
        ObligationsView { queued: Set::empty(), discharged: Set::empty() }
    }

    pub open spec fn queue(self, item: Q) -> Self {
        ObligationsView { queued: self.queued.insert(item), ..self }
    }

    pub open spec fn discharge(self, item: Q) -> Self {
        ObligationsView { discharged: self.discharged.insert(item), ..self }
    }

    /// What is still owed.
    pub open spec fn pending(self) -> Set<Q> {
        self.queued.difference(self.discharged)
    }

    /// What needs no further queueing.
    pub open spec fn covered(self, item: Q) -> bool {
        self.queued.contains(item) || self.discharged.contains(item)
    }
}

/// The obligations of one outbox.
pub struct Obligations<Q> {
    queued: SortedSet<Q>,
    discharged: SortedSet<Q>,
}

impl<Q: Key> View for Obligations<Q> {
    type V = ObligationsView<Q::Model>;

    closed spec fn view(&self) -> ObligationsView<Q::Model> {
        ObligationsView { queued: self.queued@, discharged: self.discharged@ }
    }
}

impl<Q: Key> Obligations<Q> {
    pub closed spec fn wf(&self) -> bool {
        self.queued.wf() && self.discharged.wf()
    }

    pub fn new() -> (r: Self)
        ensures
            r.wf(),
            r@ == ObligationsView::<Q::Model>::empty(),
    {
        Obligations { queued: SortedSet::new(), discharged: SortedSet::new() }
    }

    /// Records an obligation; `true` when it was not queued before.
    pub fn queue(&mut self, item: Q) -> (first: bool)
        requires
            old(self).wf(),
        ensures
            final(self).wf(),
            final(self)@ == old(self)@.queue(item.model()),
            first == !old(self)@.queued.contains(item.model()),
    {
        self.queued.insert(item)
    }

    /// Records an obligation as done; `true` when it was not done before.
    pub fn discharge(&mut self, item: Q) -> (first: bool)
        requires
            old(self).wf(),
        ensures
            final(self).wf(),
            final(self)@ == old(self)@.discharge(item.model()),
            first == !old(self)@.discharged.contains(item.model()),
    {
        self.discharged.insert(item)
    }

    /// Whether an obligation is queued or done.
    pub fn covered(&self, item: &Q) -> (b: bool)
        requires
            self.wf(),
        ensures
            b == self@.covered(item.model()),
    {
        self.queued.contains(item) || self.discharged.contains(item)
    }
}

/// The models of a sequence of keys.
pub open spec fn models<Q: Key>(s: Seq<Q>) -> Seq<Q::Model> {
    Seq::new(s.len(), |i: int| s[i].model())
}

impl<Q: Key + Copy> Obligations<Q> {
    /// What is still owed, in ascending order.
    pub fn pending(&self) -> (r: Vec<Q>)
        requires
            self.wf(),
        ensures
            models(r@) == in_order::<Q>(self@.pending()),
            ascending::<Q>(models(r@)),
            lists(models(r@), self@.pending()),
    {
        let mut r: Vec<Q> = Vec::new();
        let mut i: usize = 0;
        proof {
            self.queued.lemma_keys();
        }
        let ghost keys = self.queued.keys();
        while i < self.queued.len()
            invariant
                self.wf(),
                keys == self.queued.keys(),
                i <= keys.len(),
                ascending::<Q>(models(r@)),
                forall|a: int, b: int|
                    0 <= a < r@.len() && i <= b < keys.len() ==> Q::before(
                        #[trigger] models(r@)[a],
                        #[trigger] keys[b],
                    ),
                forall|x: Q::Model| #[trigger]
                    models(r@).contains(x) <==> keys.take(i as int).contains(x)
                        && !self@.discharged.contains(x),
            decreases keys.len() - i,
        {
            let ghost before = r@;
            let item: Q = *self.queued.key(i);
            let ghost x = item.model();
            let ghost head = keys.take(i as int);
            let ghost next = keys.take(i + 1);
            assert(next =~= head.push(x));
            if !self.discharged.contains(&item) {
                r.push(item);
                proof {
                    assert(models(r@) =~= models(before).push(x));
                }
            }
            proof {
                assert forall|y: Q::Model| #[trigger]
                    models(r@).contains(y) <==> next.contains(y) && !self@.discharged.contains(
                        y,
                    ) by {
                    assert(next.contains(y) <==> head.contains(y) || y == x) by {
                        if head.contains(y) {
                            let j = head.index_of(y);
                            assert(next[j] == y);
                        }
                        assert(next[i as int] == x);
                    }
                    assert(models(r@).contains(y) <==> models(before).contains(y) || (y == x
                        && !self@.discharged.contains(x))) by {
                        if models(before).contains(y) {
                            let j = models(before).index_of(y);
                            assert(models(r@)[j] == y);
                        }
                        if !self@.discharged.contains(x) {
                            assert(models(r@)[before.len() as int] == x);
                        }
                    }
                }
            }
            i = i + 1;
        }
        proof {
            assert(keys.take(i as int) =~= keys);
            assert forall|x: Q::Model|
                models(r@).contains(x) <==> self@.pending().contains(x) by {
                assert(keys.contains(x) <==> self.queued@.contains(x));
            }
            lemma_in_order::<Q>(models(r@), self@.pending());
        }
        r
    }
}

/// Keeps the first bytes sealed under a key: later ones are ignored, so
/// that every retry resends exactly what was sent first. Returns `true`
/// when these bytes were kept.
pub fn seal_first<K: Key>(sealed: &mut SortedMap<K, Vec<u8>>, key: K, bytes: Vec<u8>) -> (kept:
    bool)
    requires
        old(sealed).wf(),
    ensures
        final(sealed).wf(),
        kept == !old(sealed)@.contains_key(key.model()),
        final(sealed)@ == if old(sealed)@.contains_key(key.model()) {
            old(sealed)@
        } else {
            old(sealed)@.insert(key.model(), bytes)
        },
{
    if sealed.contains_key(&key) {
        return false;
    }
    sealed.insert(key, bytes);
    true
}

} // verus!
