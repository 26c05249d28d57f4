use std::hash::Hash;

use vstd::prelude::*;
use vstd::std_specs::cmp::PartialEqSpec;

use super::key_model;
use super::order::lemma_order_round_trip;
use super::occurrences;
use super::order_after_all;
use super::Handle;
use super::InsertResult;
use super::LinkedHashMap;
use crate::linked_list::elements_eq;
use crate::linked_list::implem::reversed;

verus! {

/// An insertion-ordered set: an ordered map whose values say nothing. Its
/// view is the sequence of its keys in iteration order.
pub struct LinkedHashSet<K> {
    linked_hash_map: LinkedHashMap<K, ()>,
}

fn was_present(previous: Option<()>) -> (present: bool)
    ensures
        present == previous.is_some(),
{
    previous.is_some()
}

impl<T> View for LinkedHashSet<T> {
    type V = Seq<T>;

    open spec fn view(&self) -> Seq<T> {
        self.map().order()
    }
}

impl<K> LinkedHashSet<K> {
    /// The map behind the set.
    pub closed spec fn map(&self) -> LinkedHashMap<K, ()> {
        self.linked_hash_map
    }

    /// How many handles to `key` are held; none where the set does not hold
    /// the key.
    pub open spec fn holders(&self, key: K) -> nat {
        self.map().holders(key)
    }
}

impl<K: Clone + Eq + Hash> LinkedHashSet<K> {
    /// The map behind the set is consistent.
    pub open spec fn wf(&self) -> bool {
        self.map().wf()
    }

    /// The keys that a set gives out build an equal set: written out and read
    /// in again, a set has the same order.
    pub proof fn lemma_round_trip(&self)
        requires
            self.wf(),
        ensures
            order_after_all(Seq::<K>::empty(), self@) == self@,
    {
        self.map().lemma_wf();
        lemma_order_round_trip(self@);
    }

    /// An empty set.
    pub fn new() -> (set: Self)
        ensures
            key_model::<K>() ==> set.wf(),
            set@ == Seq::<K>::empty(),
            forall|k: K| set.holders(k) == 0,
    {
        LinkedHashSet { linked_hash_map: LinkedHashMap::new() }
    }

    /// Whether the set holds `key`.
    pub fn contains(&self, key: &K) -> (r: bool)
        requires
            self.wf(),
        ensures
            r == self@.contains(*key),
    {
        proof {
            self.linked_hash_map.lemma_wf();
        }
        self.linked_hash_map.contains_key(key)
    }

    /// How many handles to `key` are held; none where the set does not hold
    /// the key.
    pub fn holders_of(&self, key: &K) -> (n: usize)
        requires
            self.wf(),
        ensures
            n == self.holders(*key),
    {
        self.linked_hash_map.holders_of(key)
    }

    /// Puts `key` last in the order, says whether the set held it before, and
    /// hands out one more handle to it.
    pub fn insert(&mut self, key: K) -> (r: InsertResult<K, bool>)
        requires
            old(self).wf(),
            old(self).holders(key) < usize::MAX,
        ensures
            final(self).wf(),
            final(self)@ == super::moved_to_back(old(self)@, key),
            r.previous == old(self)@.contains(key),
            r.handle.key() == key,
            final(self).holders(key) == old(self).holders(key) + 1,
            forall|k: K| k != key ==> final(self).holders(k) == old(self).holders(k),
            forall|k: K| #[trigger] final(self)@.contains(k) <==> (k == key || old(self)@.contains(k)),
    {
        proof {
            self.linked_hash_map.lemma_wf();
        }
        self.linked_hash_map.insert(key, ()).map(was_present)
    }

    /// One more handle to the key that `handle` keeps in the set.
    pub fn clone_handle(&mut self, handle: &Handle<K>) -> (r: Handle<K>)
        requires
            old(self).wf(),
            old(self)@.contains(handle.key()),
            old(self).holders(handle.key()) < usize::MAX,
        ensures
            final(self).wf(),
            r.key() == handle.key(),
            final(self)@ == old(self)@,
            final(self).holders(handle.key()) == old(self).holders(handle.key()) + 1,
            forall|k: K| k != handle.key() ==> final(self).holders(k) == old(self).holders(k),
    {
        proof {
            self.linked_hash_map.lemma_wf();
        }
        self.linked_hash_map.clone_handle(handle)
    }

    /// Gives a handle back, and says whether it was the last handle to its
    /// key: with the last one the key leaves the set.
    pub fn release(&mut self, handle: Handle<K>) -> (was_last: bool)
        requires
            old(self).wf(),
            old(self)@.contains(handle.key()),
        ensures
            final(self).wf(),
            was_last == (old(self).holders(handle.key()) == 1),
            final(self).holders(handle.key()) == old(self).holders(handle.key()) - 1,
            forall|k: K| k != handle.key() ==> final(self).holders(k) == old(self).holders(k),
            old(self).holders(handle.key()) > 1 ==> final(self)@ == old(self)@,
            old(self).holders(handle.key()) == 1 ==> {
                &&& final(self)@ == super::evicted(old(self)@, handle.key())
                &&& !final(self)@.contains(handle.key())
                &&& forall|k: K|
                    k != handle.key() ==> (#[trigger] final(self)@.contains(k) <==> old(
                        self,
                    )@.contains(k))
            },
    {
        proof {
            self.linked_hash_map.lemma_wf();
        }
        self.linked_hash_map.release(handle).is_some()
    }

    /// The keys, in iteration order.
    pub fn iter(&self) -> (r: Vec<&K>)
        requires
            self.wf(),
        ensures
            r@.map_values(|k: &K| *k) == self@,
    {
        self.linked_hash_map.keys()
    }

    /// Inserts the keys of `keys` one after the other, as `insert` would, and
    /// hands out the handles in the same order.
    pub fn extend(&mut self, keys: Vec<K>) -> (handles: Vec<Handle<K>>)
        requires
            old(self).wf(),
            forall|k: K| old(self).holders(k) + keys.len() <= usize::MAX,
        ensures
            final(self).wf(),
            final(self)@ == order_after_all(old(self)@, keys@),
            forall|k: K| final(self).holders(k) == old(self).holders(k) + occurrences(keys@, k),
            handles.len() == keys.len(),
            forall|j: int| 0 <= j < keys.len() ==> (#[trigger] handles[j]).key() == keys[j],
    {
        let ghost pre = *self;
        let ghost n = keys.len() as int;
        let ghost given = keys@;
        let mut rest = reversed(keys);
        let mut handles: Vec<Handle<K>> = Vec::new();
        while rest.len() > 0
            invariant
                self.wf(),
                rest.len() + handles.len() == n,
                n == given.len(),
                forall|k: K| pre.holders(k) + n <= usize::MAX,
                forall|j: int| 0 <= j < rest.len() ==> rest[j] == given[n - 1 - j],
                self@ == order_after_all(pre@, given.subrange(0, handles.len() as int)),
                forall|k: K|
                    self.holders(k) == pre.holders(k) + occurrences(
                        given.subrange(0, handles.len() as int),
                        k,
                    ),
                forall|k: K| self.holders(k) <= pre.holders(k) + handles.len(),
                forall|j: int| 0 <= j < handles.len() ==> (#[trigger] handles[j]).key() == given[j],
            decreases rest.len(),
        {
            let ghost done = handles.len() as int;
            let ghost mid = *self;
            let key = rest.pop().unwrap();
            assert(key == given[done]);
            let r = self.insert(key);
            handles.push(r.handle);
            proof {
                assert(given.subrange(0, done + 1).drop_last() =~= given.subrange(0, done));
                assert(given.subrange(0, done + 1).last() == key);
                assert forall|k: K|
                    self.holders(k) == pre.holders(k) + occurrences(
                        given.subrange(0, done + 1),
                        k,
                    ) by {
                    assert(mid.holders(k) == pre.holders(k) + occurrences(
                        given.subrange(0, done),
                        k,
                    ));
                }
            }
        }
        assert(given.subrange(0, n) =~= given);
        handles
    }

    /// The set of the keys of `keys`, inserted in their order, with their
    /// handles.
    pub fn from_iter(keys: Vec<K>) -> (r: (Self, Vec<Handle<K>>))
        requires
            key_model::<K>(),
        ensures
            r.0.wf(),
            r.0@ == order_after_all(Seq::<K>::empty(), keys@),
            forall|k: K| r.0.holders(k) == occurrences(keys@, k),
            r.1.len() == keys.len(),
            forall|j: int| 0 <= j < keys.len() ==> (#[trigger] r.1[j]).key() == keys[j],
    {
        let mut set = LinkedHashSet::new();
        let handles = set.extend(keys);
        (set, handles)
    }

    /// The number of keys.
    pub fn len(&self) -> (n: usize)
        requires
            self.wf(),
        ensures
            n == self@.len(),
    {
        self.linked_hash_map.len()
    }

    /// Whether the two sets hold equal keys in the same order: the same
    /// members in another order are not equal.
    pub fn eq(&self, other: &Self) -> (r: bool)
        requires
            self.wf(),
            other.wf(),
        ensures
            K::obeys_eq_spec() ==> r == elements_eq(self@, other@),
    {
        if self.len() != other.len() {
            return false;
        }
        let a = self.iter();
        let b = other.iter();
        let mut i: usize = 0;
        while i < a.len()
            invariant
                i <= a.len(),
                a.len() == b.len(),
                a@.map_values(|k: &K| *k) == self@,
                b@.map_values(|k: &K| *k) == other@,
                K::obeys_eq_spec() ==> forall|j: int|
                    0 <= j < i ==> (#[trigger] self@[j]).eq_spec(&other@[j]),
            decreases a.len() - i,
        {
            assert(a@.map_values(|k: &K| *k)[i as int] == *a[i as int]);
            assert(b@.map_values(|k: &K| *k)[i as int] == *b[i as int]);
            if *a[i] != *b[i] {
                return false;
            }
            i += 1;
        }
        true
    }
}

impl<K: Clone + Eq + Hash> Default for LinkedHashSet<K> {
    fn default() -> (set: Self)
        ensures
            key_model::<K>() ==> set.wf(),
            set@ == Seq::<K>::empty(),
    {
        LinkedHashSet::new()
    }
}

} // verus!
