use std::collections::HashMap;
use std::hash::Hash;

use vstd::prelude::*;
use vstd::std_specs::cmp::PartialEqSpec;
use vstd::std_specs::hash::obeys_key_model;

use crate::linked_list;
use crate::linked_list::implem::reversed;
use crate::linked_list::model::lemma_push_keeps_others;
use crate::linked_list::model::lemma_push_links_new;
use crate::linked_list::model::lemma_remove_keeps_others;
use crate::linked_list::model::lemma_remove_keeps_distinct;
use crate::linked_list::model::value_of;
use crate::linked_list::LinkedList;

pub mod order;
pub mod set;

pub use self::order::entries_after_all;
pub use self::order::evicted;
pub use self::order::moved_to_back;
pub use self::order::occurrences;
pub use self::order::order_after_all;
pub use self::set::LinkedHashSet;

use self::order::lemma_contains_after_move;
use self::order::lemma_contains_after_removal;
use self::order::lemma_entries_round_trip;
use self::order::lemma_evicted;
use self::order::lemma_moved_to_back;
use self::order::lemma_order_round_trip;
use self::order::lemma_push_fresh;

verus! {

/// What the map asks of its key type: hashing and `==` agree as a hash table
/// needs them to, and a clone of a key is that key.
pub open spec fn key_model<K: Clone>() -> bool {
    &&& obeys_key_model::<K>()
    &&& forall|a: K, b: K| #[trigger] cloned(a, b) ==> a == b
}

/// Two sequences of pairs agree pair for pair under the `==` of the key type
/// and of the value type.
pub open spec fn pairs_eq<K: PartialEq, V: PartialEq>(a: Seq<(K, V)>, b: Seq<(K, V)>) -> bool {
    &&& a.len() == b.len()
    &&& forall|i: int|
        0 <= i < a.len() ==> (#[trigger] a[i]).0.eq_spec(&b[i].0) && a[i].1.eq_spec(&b[i].1)
}

/// An insertion-ordered map. Each entry lives for as long as handles to it are
/// held: `insert` hands one out, `clone_handle` another, and `release` of the
/// last one evicts the entry.
///
/// Its view is the sequence of its pairs in iteration order.
pub struct LinkedHashMap<K, V> {
    keys: LinkedList<K>,
    map: HashMap<K, LinkedHashMapValue<V>>,
}

/// What the table stores under a key: the value, the handle of the key's
/// present position in the order list, and how many entry handles are held.
struct LinkedHashMapValue<V> {
    value: V,
    position: linked_list::Handle,
    holders: usize,
}

/// A handle to one entry of a map or set. It is not `Clone`: another handle to
/// the same entry comes from `clone_handle`, so that the map can count them.
#[must_use]
pub struct Handle<K> {
    key: K,
}

impl<K> Handle<K> {
    /// The key of the entry that this handle keeps alive.
    pub closed spec fn key(&self) -> K {
        self.key
    }

    /// The key of the entry that this handle keeps alive.
    pub fn get_key(&self) -> (key: &K)
        ensures
            *key == self.key(),
    {
        &self.key
    }
}

/// What `insert` hands back: what stood under the key before, and a handle to
/// the entry.
#[must_use]
pub struct InsertResult<K, P> {
    pub previous: P,
    pub handle: Handle<K>,
}

impl<K, P> InsertResult<K, P> {
    /// The same result with `f` applied to what stood under the key before.
    pub fn map<P2, F: FnOnce(P) -> P2>(self, f: F) -> (r: InsertResult<K, P2>)
        requires
            f.requires((self.previous,)),
        ensures
            f.ensures((self.previous,), r.previous),
            r.handle == self.handle,
    {
        InsertResult { previous: f(self.previous), handle: self.handle }
    }
}

impl<K, V> View for LinkedHashMap<K, V> {
    type V = Seq<(K, V)>;

    open spec fn view(&self) -> Seq<(K, V)> {
        self.order().map_values(|k: K| (k, self.entries()[k]))
    }
}

impl<K, V> LinkedHashMap<K, V> {
    /// The keys in iteration order.
    pub closed spec fn order(&self) -> Seq<K> {
        self.keys@
    }

    /// The value stored under each key.
    pub closed spec fn entries(&self) -> Map<K, V> {
        Map::new(|k: K| self.map@.contains_key(k), |k: K| self.map@[k].value)
    }

    /// How many handles to the entry of `key` are held; none where the map has
    /// no such entry.
    pub closed spec fn holders(&self, key: K) -> nat {
        if self.map@.contains_key(key) {
            self.map@[key].holders as nat
        } else {
            0
        }
    }

    spec fn placed(&self, key: K) -> bool {
        let entry = self.map@[key];
        &&& self.keys.slots().contains(entry.position.slot())
        &&& value_of(self.keys.slots(), self.keys@, entry.position.slot()) == key
        &&& entry.holders >= 1
    }
}

impl<K: Clone + Eq + Hash, V> LinkedHashMap<K, V> {
    /// The key type behaves, no key stands twice in the order, the table holds
    /// exactly the keys of the order, and every entry is held by a handle.
    pub closed spec fn wf(&self) -> bool {
        &&& key_model::<K>()
        &&& self.keys.wf()
        &&& self.keys@.no_duplicates()
        &&& forall|k: K| #[trigger] self.map@.contains_key(k) <==> self.keys@.contains(k)
        &&& forall|k: K| self.map@.contains_key(k) ==> #[trigger] self.placed(k)
    }

    /// What a consistent map promises of its three parts.
    pub proof fn lemma_wf(&self)
        requires
            self.wf(),
        ensures
            key_model::<K>(),
            self.order().no_duplicates(),
            forall|k: K| #[trigger] self.entries().contains_key(k) <==> self.order().contains(k),
            forall|k: K| #[trigger] self.entries().contains_key(k) <==> self.holders(k) > 0,
            self@.len() == self.order().len(),
    {
        assert forall|k: K| #[trigger] self.entries().contains_key(k) implies self.holders(k)
            > 0 by {
            assert(self.placed(k));
        }
    }

    /// The pairs that a map gives out build an equal map: written out and
    /// read in again, a map has the same order and the same entries.
    pub proof fn lemma_round_trip(&self)
        requires
            self.wf(),
        ensures
            order_after_all(Seq::<K>::empty(), self@.map_values(|e: (K, V)| e.0)) == self.order(),
            entries_after_all(Map::<K, V>::empty(), self@) == self.entries(),
    {
        let keys = self@.map_values(|e: (K, V)| e.0);
        assert(keys =~= self.order());
        lemma_order_round_trip(keys);
        lemma_entries_round_trip(self@);
        let table = entries_after_all(Map::<K, V>::empty(), self@);
        assert forall|k: K| table.contains_key(k) <==> self.entries().contains_key(k) by {
            if self.entries().contains_key(k) {
                assert(self.keys@.contains(k));
                let i = self.keys@.index_of(k);
                assert(self@[i].0 == k);
            }
            if table.contains_key(k) {
                assert(keys.contains(k));
            }
        }
        assert forall|k: K| table.contains_key(k) implies table[k] == self.entries()[k] by {
            assert(keys.contains(k));
            let i = keys.index_of(k);
            assert(self@[i].0 == k);
        }
        assert(table =~= self.entries());
    }

    /// An empty map.
    pub fn new() -> (map: Self)
        ensures
            key_model::<K>() ==> map.wf(),
            map.order() == Seq::<K>::empty(),
            map.entries() == Map::<K, V>::empty(),
            map@ == Seq::<(K, V)>::empty(),
            forall|k: K| map.holders(k) == 0,
    {
        let map = LinkedHashMap { keys: LinkedList::new(), map: HashMap::new() };
        assert(map.entries() =~= Map::<K, V>::empty());
        assert(map@ =~= Seq::<(K, V)>::empty());
        map
    }

    /// The value stored under `key`, if the map has an entry for it.
    pub fn get(&self, key: &K) -> (r: Option<&V>)
        requires
            self.wf(),
        ensures
            match r {
                Some(v) => self.entries().contains_key(*key) && *v == self.entries()[*key],
                None => !self.entries().contains_key(*key),
            },
    {
        match self.map.get(key) {
            Some(entry) => Some(&entry.value),
            None => None,
        }
    }

    /// Whether the map has an entry for `key`.
    pub fn contains_key(&self, key: &K) -> (r: bool)
        requires
            self.wf(),
        ensures
            r == self.entries().contains_key(*key),
    {
        self.map.contains_key(key)
    }

    /// How many handles to the entry of `key` are held; none where the map has
    /// no such entry.
    pub fn holders_of(&self, key: &K) -> (n: usize)
        requires
            self.wf(),
        ensures
            n == self.holders(*key),
    {
        match self.map.get(key) {
            Some(entry) => entry.holders,
            None => 0,
        }
    }

    /// Stores `value` under `key` and puts `key` last in the order. Where the
    /// key had an entry, the entry stays the same one: its value is replaced
    /// and handed back, its old place in the order is given up, and the
    /// handles already held stay good. The caller gets one more handle to the
    /// entry.
    pub fn insert(&mut self, key: K, value: V) -> (r: InsertResult<K, Option<V>>)
        requires
            old(self).wf(),
            old(self).holders(key) < usize::MAX,
        ensures
            final(self).wf(),
            final(self).entries() == old(self).entries().insert(key, value),
            final(self).order() == moved_to_back(old(self).order(), key),
            r.previous == if old(self).entries().contains_key(key) {
                Some(old(self).entries()[key])
            } else {
                None
            },
            r.handle.key() == key,
            final(self).holders(key) == old(self).holders(key) + 1,
            forall|k: K| k != key ==> final(self).holders(k) == old(self).holders(k),
            final(self).order().len() > 0 && final(self).order().last() == key,
            forall|k: K|
                #[trigger] final(self).order().contains(k) <==> (k == key || old(
                    self,
                ).order().contains(k)),
    {
        let ghost pre = *self;
        let table_key = key.clone();
        let handle_key = key.clone();
        assert(cloned(key, table_key) && cloned(key, handle_key));
        let found = self.map.remove(&key);
        let position = self.keys.push_back(key);
        let ghost pushed = self.keys;
        let r = match found {
            Some(entry) => {
                let LinkedHashMapValue { value: previous, position: stale, holders } = entry;
                assert(pre.placed(key));
                proof {
                    pre.keys.ring().lemma_slots();
                    lemma_push_keeps_others(
                        pre.keys.slots(),
                        pre.keys@,
                        position.slot(),
                        key,
                        stale.slot(),
                    );
                }
                let _ = self.keys.release(stale);
                self.map.insert(
                    table_key,
                    LinkedHashMapValue { value, position, holders: holders + 1 },
                );
                InsertResult { previous: Some(previous), handle: Handle { key: handle_key } }
            },
            None => {
                self.map.insert(table_key, LinkedHashMapValue { value, position, holders: 1 });
                InsertResult { previous: None, handle: Handle { key: handle_key } }
            },
        };
        proof {
            pre.keys.ring().lemma_slots();
            pushed.ring().lemma_slots();
            self.keys.ring().lemma_slots();
            let n = pre.keys@.len() as int;
            assert(pushed@[n] == key);
            assert(pushed.slots()[n] == position.slot());
            if pre.map@.contains_key(key) {
                let stale = pre.map@[key].position.slot();
                let i = pushed.slots().index_of(stale);
                assert(i == pre.keys.slots().index_of(stale));
                assert(pre.keys@.contains(key));
                assert(pre.keys@[i] == key);
                assert(pre.keys@.index_of(key) == i);
                assert(self.keys@ =~= pre.keys@.remove(i).push(key));
                assert(self.keys.slots() =~= pre.keys.slots().remove(i).push(position.slot()));
                lemma_remove_keeps_distinct(pre.keys.slots(), i);
                lemma_remove_keeps_distinct(pre.keys@, i);
                assert(!pre.keys@.remove(i).contains(key));
                lemma_push_fresh(pre.keys@.remove(i), key);
                assert forall|k: K| #[trigger]
                    self.map@.contains_key(k) <==> self.keys@.contains(k) by {
                    if k != key {
                        lemma_contains_after_move(pre.keys@, i, key, k);
                    } else {
                        assert(self.keys@[n - 1] == key);
                    }
                }
                assert forall|k: K| self.map@.contains_key(k) implies #[trigger] self.placed(
                    k,
                ) by {
                    if k != key {
                        assert(pre.placed(k));
                        let s = pre.map@[k].position.slot();
                        assert(s != stale) by {
                            if s == stale {
                                assert(value_of(pre.keys.slots(), pre.keys@, s) == k);
                            }
                        }
                        lemma_remove_keeps_others(pre.keys.slots(), pre.keys@, i, s);
                        assert(!pre.keys.slots().remove(i).contains(position.slot())) by {
                            if pre.keys.slots().remove(i).contains(position.slot()) {
                                let a = pre.keys.slots().remove(i).index_of(position.slot());
                                assert(pre.keys.slots().contains(
                                    pre.keys.slots()[if a < i {
                                        a
                                    } else {
                                        a + 1
                                    }],
                                ));
                            }
                        }
                        lemma_push_keeps_others(
                            pre.keys.slots().remove(i),
                            pre.keys@.remove(i),
                            position.slot(),
                            key,
                            s,
                        );
                    } else {
                        assert(!pre.keys.slots().remove(i).contains(position.slot())) by {
                            if pre.keys.slots().remove(i).contains(position.slot()) {
                                let a = pre.keys.slots().remove(i).index_of(position.slot());
                                assert(pre.keys.slots().contains(
                                    pre.keys.slots()[if a < i {
                                        a
                                    } else {
                                        a + 1
                                    }],
                                ));
                            }
                        }
                        lemma_push_links_new(
                            pre.keys.slots().remove(i),
                            pre.keys@.remove(i),
                            position.slot(),
                            key,
                        );
                    }
                }
            } else {
                assert(!pre.keys@.contains(key));
                assert(self.keys@ =~= pre.keys@.push(key));
                lemma_push_fresh(pre.keys@, key);
                assert forall|k: K| #[trigger]
                    self.map@.contains_key(k) <==> self.keys@.contains(k) by {
                    if k != key {
                        if pre.keys@.contains(k) {
                            let a = pre.keys@.index_of(k);
                            assert(self.keys@[a] == k);
                        }
                        if self.keys@.contains(k) {
                            let a = self.keys@.index_of(k);
                            assert(pre.keys@[a] == k);
                        }
                    } else {
                        assert(self.keys@[n] == key);
                    }
                }
                assert forall|k: K| self.map@.contains_key(k) implies #[trigger] self.placed(
                    k,
                ) by {
                    if k != key {
                        assert(pre.placed(k));
                        lemma_push_keeps_others(
                            pre.keys.slots(),
                            pre.keys@,
                            position.slot(),
                            key,
                            pre.map@[k].position.slot(),
                        );
                    } else {
                        lemma_push_links_new(
                            pre.keys.slots(),
                            pre.keys@,
                            position.slot(),
                            key,
                        );
                    }
                }
            }
            assert(self.entries() =~= pre.entries().insert(key, value));
            lemma_moved_to_back(pre.keys@, key);
        }
        r
    }

    /// One more handle to the entry that `handle` keeps alive.
    pub fn clone_handle(&mut self, handle: &Handle<K>) -> (r: Handle<K>)
        requires
            old(self).wf(),
            old(self).entries().contains_key(handle.key()),
            old(self).holders(handle.key()) < usize::MAX,
        ensures
            final(self).wf(),
            r.key() == handle.key(),
            final(self).entries() == old(self).entries(),
            final(self).order() == old(self).order(),
            final(self).holders(handle.key()) == old(self).holders(handle.key()) + 1,
            forall|k: K| k != handle.key() ==> final(self).holders(k) == old(self).holders(k),
    {
        let ghost pre = *self;
        let table_key = handle.key.clone();
        let handle_key = handle.key.clone();
        assert(cloned(handle.key, table_key) && cloned(handle.key, handle_key));
        let LinkedHashMapValue { value, position, holders } = self.map.remove(&handle.key).unwrap();
        self.map.insert(table_key, LinkedHashMapValue { value, position, holders: holders + 1 });
        proof {
            assert(self.map@.dom() =~= pre.map@.dom());
            assert forall|k: K| self.map@.contains_key(k) implies #[trigger] self.placed(k) by {
                assert(pre.placed(k));
            }
            assert(self.entries() =~= pre.entries());
        }
        Handle { key: handle_key }
    }

    /// Gives a handle back. The entry lives on while other handles to it are
    /// held; with the last one it leaves the table and the order, and its
    /// value is handed back.
    pub fn release(&mut self, handle: Handle<K>) -> (r: Option<V>)
        requires
            old(self).wf(),
            old(self).entries().contains_key(handle.key()),
        ensures
            final(self).wf(),
            r == if old(self).holders(handle.key()) == 1 {
                Some(old(self).entries()[handle.key()])
            } else {
                None
            },
            final(self).holders(handle.key()) == old(self).holders(handle.key()) - 1,
            forall|k: K| k != handle.key() ==> final(self).holders(k) == old(self).holders(k),
            old(self).holders(handle.key()) > 1 ==> {
                &&& final(self).entries() == old(self).entries()
                &&& final(self).order() == old(self).order()
            },
            old(self).holders(handle.key()) == 1 ==> {
                &&& final(self).entries() == old(self).entries().remove(handle.key())
                &&& final(self).order() == evicted(old(self).order(), handle.key())
                &&& !final(self).entries().contains_key(handle.key())
                &&& !final(self).order().contains(handle.key())
                &&& forall|k: K|
                    k != handle.key() ==> (#[trigger] final(self).order().contains(k) <==> old(
                        self,
                    ).order().contains(k))
            },
    {
        let ghost pre = *self;
        let Handle { key } = handle;
        assert(pre.placed(key));
        let LinkedHashMapValue { value, position, holders } = self.map.remove(&key).unwrap();
        if holders > 1 {
            self.map.insert(
                key,
                LinkedHashMapValue { value, position, holders: holders - 1 },
            );
            proof {
                assert(self.map@.dom() =~= pre.map@.dom());
                assert forall|k: K| self.map@.contains_key(k) implies #[trigger]
                    self.placed(k) by {
                    assert(pre.placed(k));
                }
                assert(self.entries() =~= pre.entries());
            }
            None
        } else {
            let ghost slot = position.slot();
            let _ = self.keys.release(position);
            proof {
                pre.keys.ring().lemma_slots();
                let i = pre.keys.slots().index_of(slot);
                assert(pre.keys@[i] == key);
                assert(pre.keys@.contains(key));
                assert(pre.keys@.index_of(key) == i);
                lemma_remove_keeps_distinct(pre.keys@, i);
                assert forall|k: K| #[trigger]
                    self.map@.contains_key(k) <==> self.keys@.contains(k) by {
                    if k != key {
                        lemma_contains_after_removal(pre.keys@, i, k);
                    }
                }
                assert forall|k: K| self.map@.contains_key(k) implies #[trigger]
                    self.placed(k) by {
                    assert(pre.placed(k));
                    let s = pre.map@[k].position.slot();
                    assert(s != slot) by {
                        if s == slot {
                            assert(value_of(pre.keys.slots(), pre.keys@, s) == k);
                        }
                    }
                    lemma_remove_keeps_others(pre.keys.slots(), pre.keys@, i, s);
                }
                assert(self.entries() =~= pre.entries().remove(key));
                lemma_evicted(pre.keys@, key);
            }
            Some(value)
        }
    }

    /// The keys, in iteration order.
    pub fn keys(&self) -> (r: Vec<&K>)
        requires
            self.wf(),
        ensures
            r@.map_values(|k: &K| *k) == self.order(),
    {
        self.keys.values()
    }

    /// The values, in the iteration order of their keys.
    pub fn values(&self) -> (r: Vec<&V>)
        requires
            self.wf(),
        ensures
            r@.map_values(|v: &V| *v) == self.order().map_values(|k: K| self.entries()[k]),
    {
        let keys = self.keys.values();
        let mut out: Vec<&V> = Vec::new();
        let mut i: usize = 0;
        while i < keys.len()
            invariant
                self.wf(),
                i <= keys.len(),
                keys@.map_values(|k: &K| *k) == self.keys@,
                out.len() == i,
                forall|j: int| 0 <= j < i ==> *(#[trigger] out[j]) == self.entries()[self.keys@[j]],
            decreases keys.len() - i,
        {
            assert(keys@.map_values(|k: &K| *k)[i as int] == *keys[i as int]);
            assert(self.keys@.contains(self.keys@[i as int]));
            let entry = self.map.get(keys[i]).unwrap();
            out.push(&entry.value);
            i += 1;
        }
        assert(out@.map_values(|v: &V| *v) =~= self.order().map_values(
            |k: K| self.entries()[k],
        ));
        out
    }

    /// The pairs of key and value, in iteration order.
    pub fn iter(&self) -> (r: Vec<(&K, &V)>)
        requires
            self.wf(),
        ensures
            r@.map_values(|e: (&K, &V)| (*e.0, *e.1)) == self@,
    {
        let keys = self.keys.values();
        let mut out: Vec<(&K, &V)> = Vec::new();
        let mut i: usize = 0;
        while i < keys.len()
            invariant
                self.wf(),
                i <= keys.len(),
                keys@.map_values(|k: &K| *k) == self.keys@,
                out.len() == i,
                forall|j: int|
                    0 <= j < i ==> {
                        &&& *(#[trigger] out[j]).0 == self.keys@[j]
                        &&& *out[j].1 == self.entries()[self.keys@[j]]
                    },
            decreases keys.len() - i,
        {
            assert(keys@.map_values(|k: &K| *k)[i as int] == *keys[i as int]);
            assert(self.keys@.contains(self.keys@[i as int]));
            let entry = self.map.get(keys[i]).unwrap();
            out.push((keys[i], &entry.value));
            i += 1;
        }
        assert(out@.map_values(|e: (&K, &V)| (*e.0, *e.1)) =~= self@);
        out
    }

    /// Inserts the pairs of `items` one after the other, as `insert` would,
    /// and hands out the handles in the same order.
    pub fn extend(&mut self, items: Vec<(K, V)>) -> (handles: Vec<Handle<K>>)
        requires
            old(self).wf(),
            forall|k: K| old(self).holders(k) + items.len() <= usize::MAX,
        ensures
            final(self).wf(),
            final(self).order() == order_after_all(
                old(self).order(),
                items@.map_values(|e: (K, V)| e.0),
            ),
            final(self).entries() == entries_after_all(old(self).entries(), items@),
            forall|k: K|
                final(self).holders(k) == old(self).holders(k) + occurrences(
                    items@.map_values(|e: (K, V)| e.0),
                    k,
                ),
            handles.len() == items.len(),
            forall|j: int| 0 <= j < items.len() ==> (#[trigger] handles[j]).key() == items[j].0,
    {
        let ghost pre = *self;
        let ghost n = items.len() as int;
        let ghost given = items@;
        let ghost keys = given.map_values(|e: (K, V)| e.0);
        let mut rest = reversed(items);
        let mut handles: Vec<Handle<K>> = Vec::new();
        while rest.len() > 0
            invariant
                self.wf(),
                rest.len() + handles.len() == n,
                n == given.len(),
                keys == given.map_values(|e: (K, V)| e.0),
                forall|k: K| pre.holders(k) + n <= usize::MAX,
                forall|j: int| 0 <= j < rest.len() ==> rest[j] == given[n - 1 - j],
                self.order() == order_after_all(pre.order(), keys.subrange(0, handles.len() as int)),
                self.entries() == entries_after_all(
                    pre.entries(),
                    given.subrange(0, handles.len() as int),
                ),
                forall|k: K|
                    self.holders(k) == pre.holders(k) + occurrences(
                        keys.subrange(0, handles.len() as int),
                        k,
                    ),
                forall|k: K| self.holders(k) <= pre.holders(k) + handles.len(),
                forall|j: int| 0 <= j < handles.len() ==> (#[trigger] handles[j]).key() == given[j].0,
            decreases rest.len(),
        {
            let ghost done = handles.len() as int;
            let ghost mid = *self;
            let (key, value) = rest.pop().unwrap();
            assert(key == given[done].0 && value == given[done].1);
            let r = self.insert(key, value);
            handles.push(r.handle);
            proof {
                assert(keys.subrange(0, done + 1).drop_last() =~= keys.subrange(0, done));
                assert(given.subrange(0, done + 1).drop_last() =~= given.subrange(0, done));
                assert(keys.subrange(0, done + 1).last() == key);
                assert(given.subrange(0, done + 1).last() == (key, value));
                assert forall|k: K|
                    self.holders(k) == pre.holders(k) + occurrences(
                        keys.subrange(0, done + 1),
                        k,
                    ) by {
                    assert(mid.holders(k) == pre.holders(k) + occurrences(
                        keys.subrange(0, done),
                        k,
                    ));
                }
            }
        }
        assert(given.subrange(0, n) =~= given);
        assert(keys.subrange(0, n) =~= keys);
        handles
    }

    /// The map of the pairs of `items`, inserted in their order, with their
    /// handles.
    pub fn from_iter(items: Vec<(K, V)>) -> (r: (Self, Vec<Handle<K>>))
        requires
            key_model::<K>(),
        ensures
            r.0.wf(),
            r.0.order() == order_after_all(Seq::<K>::empty(), items@.map_values(|e: (K, V)| e.0)),
            r.0.entries() == entries_after_all(Map::<K, V>::empty(), items@),
            forall|k: K| r.0.holders(k) == occurrences(items@.map_values(|e: (K, V)| e.0), k),
            r.1.len() == items.len(),
            forall|j: int| 0 <= j < items.len() ==> (#[trigger] r.1[j]).key() == items[j].0,
    {
        let mut map = LinkedHashMap::new();
        let handles = map.extend(items);
        (map, handles)
    }

    /// Whether the two maps hold equal pairs in the same order: the same
    /// pairs in another order are not equal.
    pub fn eq(&self, other: &Self) -> (r: bool)
        where V: PartialEq
        requires
            self.wf(),
            other.wf(),
        ensures
            K::obeys_eq_spec() && V::obeys_eq_spec() ==> r == pairs_eq(self@, other@),
    {
        let a = self.iter();
        let b = other.iter();
        if a.len() != b.len() {
            return false;
        }
        let mut i: usize = 0;
        while i < a.len()
            invariant
                i <= a.len(),
                a.len() == b.len(),
                a@.map_values(|e: (&K, &V)| (*e.0, *e.1)) == self@,
                b@.map_values(|e: (&K, &V)| (*e.0, *e.1)) == other@,
                K::obeys_eq_spec() && V::obeys_eq_spec() ==> forall|j: int|
                    0 <= j < i ==> (#[trigger] self@[j]).0.eq_spec(&other@[j].0)
                        && self@[j].1.eq_spec(&other@[j].1),
            decreases a.len() - i,
        {
            assert(a@.map_values(|e: (&K, &V)| (*e.0, *e.1))[i as int] == (
                *a[i as int].0,
                *a[i as int].1,
            ));
            assert(b@.map_values(|e: (&K, &V)| (*e.0, *e.1))[i as int] == (
                *b[i as int].0,
                *b[i as int].1,
            ));
            if *a[i].0 != *b[i].0 {
                return false;
            }
            if *a[i].1 != *b[i].1 {
                return false;
            }
            i += 1;
        }
        true
    }

    /// The number of entries.
    pub fn len(&self) -> (n: usize)
        requires
            self.wf(),
        ensures
            n == self.order().len(),
            n == self@.len(),
    {
        proof {
            self.keys@.unique_seq_to_set();
            assert(self.map@.dom() =~= self.keys@.to_set());
        }
        self.map.len()
    }
}

impl<K: Clone + Eq + Hash, V> Default for LinkedHashMap<K, V> {
    fn default() -> (map: Self)
        ensures
            key_model::<K>() ==> map.wf(),
            map@ == Seq::<(K, V)>::empty(),
    {
        LinkedHashMap::new()
    }
}

} // verus!
