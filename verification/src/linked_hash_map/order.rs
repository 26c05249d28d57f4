use vstd::prelude::*;

use crate::linked_list::model::lemma_remove_keeps_distinct;

verus! {

/// The order after `key` was inserted: `key` stands last, wherever it stood
/// before, and the other keys keep their order.
pub open spec fn moved_to_back<K>(order: Seq<K>, key: K) -> Seq<K> {
    if order.contains(key) {
        order.remove(order.index_of(key)).push(key)
    } else {
        order.push(key)
    }
}

/// The order after `key` was evicted.
pub open spec fn evicted<K>(order: Seq<K>, key: K) -> Seq<K> {
    if order.contains(key) {
        order.remove(order.index_of(key))
    } else {
        order
    }
}

/// Inserting a key puts it last and leaves it in the order once; the keys
/// before it are the order without that key, so the others keep their places
/// among themselves.
pub proof fn lemma_moved_to_back<K>(order: Seq<K>, key: K)
    requires
        order.no_duplicates(),
    ensures
        moved_to_back(order, key).no_duplicates(),
        moved_to_back(order, key).last() == key,
        moved_to_back(order, key).drop_last() == evicted(order, key),
        order.contains(key) ==> moved_to_back(order, key).len() == order.len(),
        forall|k: K|
            #[trigger] moved_to_back(order, key).contains(k) <==> (k == key || order.contains(k)),
{
    let moved = moved_to_back(order, key);
    lemma_evicted(order, key);
    lemma_push_fresh(evicted(order, key), key);
    assert(moved.drop_last() =~= evicted(order, key));
    assert forall|k: K| #[trigger] moved.contains(k) <==> (k == key || order.contains(k)) by {
        if moved.contains(k) && k != key {
            let a = moved.index_of(k);
            assert(evicted(order, key)[a] == k);
            assert(evicted(order, key).contains(k));
        }
        if k == key {
            assert(moved[moved.len() - 1] == key);
        } else if order.contains(k) {
            assert(evicted(order, key).contains(k));
            let a = evicted(order, key).index_of(k);
            assert(moved[a] == k);
        }
    }
}

/// Evicting a key takes it out of the order and no other; the others keep
/// their places among themselves.
pub proof fn lemma_evicted<K>(order: Seq<K>, key: K)
    requires
        order.no_duplicates(),
    ensures
        evicted(order, key).no_duplicates(),
        !evicted(order, key).contains(key),
        forall|k: K| k != key ==> (#[trigger] evicted(order, key).contains(k) <==> order.contains(k)),
        order.contains(key) ==> evicted(order, key).len() == order.len() - 1,
{
    if order.contains(key) {
        let i = order.index_of(key);
        lemma_remove_keeps_distinct(order, i);
        assert forall|k: K| k != key implies (#[trigger] evicted(order, key).contains(k)
            <==> order.contains(k)) by {
            lemma_contains_after_removal(order, i, k);
        }
    }
}

/// The order after the keys of `keys` were inserted one after the other.
pub open spec fn order_after_all<K>(order: Seq<K>, keys: Seq<K>) -> Seq<K>
    decreases keys.len(),
{
    if keys.len() == 0 {
        order
    } else {
        moved_to_back(order_after_all(order, keys.drop_last()), keys.last())
    }
}

/// The table after the pairs of `items` were inserted one after the other: a
/// later pair replaces an earlier one with the same key.
pub open spec fn entries_after_all<K, V>(entries: Map<K, V>, items: Seq<(K, V)>) -> Map<K, V>
    decreases items.len(),
{
    if items.len() == 0 {
        entries
    } else {
        entries_after_all(entries, items.drop_last()).insert(items.last().0, items.last().1)
    }
}

/// How often `key` stands in `keys`.
pub open spec fn occurrences<K>(keys: Seq<K>, key: K) -> nat
    decreases keys.len(),
{
    if keys.len() == 0 {
        0
    } else {
        occurrences(keys.drop_last(), key) + if keys.last() == key {
            1nat
        } else {
            0nat
        }
    }
}

/// Distinct keys, inserted in their order into an empty order, give that
/// same order again.
pub proof fn lemma_order_round_trip<K>(keys: Seq<K>)
    requires
        keys.no_duplicates(),
    ensures
        order_after_all(Seq::<K>::empty(), keys) == keys,
    decreases keys.len(),
{
    if keys.len() > 0 {
        let front = keys.drop_last();
        lemma_order_round_trip(front);
        assert(!front.contains(keys.last())) by {
            if front.contains(keys.last()) {
                let i = front.index_of(keys.last());
                assert(keys[i] == keys[keys.len() - 1]);
            }
        }
        assert(front.push(keys.last()) =~= keys);
    } else {
        assert(keys =~= Seq::<K>::empty());
    }
}

/// Pairs with distinct keys, inserted into an empty table, give a table that
/// holds exactly those keys, each with the value of its pair.
pub proof fn lemma_entries_round_trip<K, V>(pairs: Seq<(K, V)>)
    requires
        pairs.map_values(|e: (K, V)| e.0).no_duplicates(),
    ensures
        forall|i: int|
            0 <= i < pairs.len() ==> {
                &&& entries_after_all(Map::<K, V>::empty(), pairs).contains_key(
                    (#[trigger] pairs[i]).0,
                )
                &&& entries_after_all(Map::<K, V>::empty(), pairs)[pairs[i].0] == pairs[i].1
            },
        forall|k: K| #[trigger]
            entries_after_all(Map::<K, V>::empty(), pairs).contains_key(k) ==> pairs.map_values(
                |e: (K, V)| e.0,
            ).contains(k),
    decreases pairs.len(),
{
    let keys = pairs.map_values(|e: (K, V)| e.0);
    if pairs.len() > 0 {
        let front = pairs.drop_last();
        let last = pairs.last();
        let front_keys = front.map_values(|e: (K, V)| e.0);
        assert(front_keys =~= keys.drop_last());
        lemma_entries_round_trip(front);
        let table = entries_after_all(Map::<K, V>::empty(), pairs);
        let before = entries_after_all(Map::<K, V>::empty(), front);
        assert(table == before.insert(last.0, last.1));
        assert forall|i: int| 0 <= i < pairs.len() implies {
            &&& table.contains_key((#[trigger] pairs[i]).0)
            &&& table[pairs[i].0] == pairs[i].1
        } by {
            if i < front.len() {
                assert(front[i] == pairs[i]);
                assert(keys[i] == pairs[i].0);
                assert(keys[pairs.len() - 1] == last.0);
                assert(pairs[i].0 != last.0);
            }
        }
        assert forall|k: K| #[trigger] table.contains_key(k) implies keys.contains(k) by {
            if k == last.0 {
                assert(keys[pairs.len() - 1] == k);
            } else {
                assert(before.contains_key(k));
                assert(front_keys.contains(k));
                let i = front_keys.index_of(k);
                assert(keys[i] == k);
            }
        }
    }
}

/// Appending a key that the order does not hold keeps it free of duplicates.
pub proof fn lemma_push_fresh<K>(order: Seq<K>, key: K)
    requires
        order.no_duplicates(),
        !order.contains(key),
    ensures
        order.push(key).no_duplicates(),
{
    let pushed = order.push(key);
    assert forall|a: int, b: int| 0 <= a < pushed.len() && 0 <= b < pushed.len() && a
        != b implies pushed[a] != pushed[b] by {
        if a < order.len() {
            assert(order.contains(order[a]));
        }
        if b < order.len() {
            assert(order.contains(order[b]));
        }
    }
}

/// Moving the key at position `i` to the back keeps every other key in the
/// order, and brings none in.
pub proof fn lemma_contains_after_move<K>(order: Seq<K>, i: int, key: K, other: K)
    requires
        0 <= i < order.len(),
        order[i] == key,
        other != key,
    ensures
        order.remove(i).push(key).contains(other) <==> order.contains(other),
{
    let moved = order.remove(i).push(key);
    if order.contains(other) {
        let a = order.index_of(other);
        let b = if a < i {
            a
        } else {
            a - 1
        };
        assert(moved[b] == other);
    }
    if moved.contains(other) {
        let b = moved.index_of(other);
        let a = if b < i {
            b
        } else {
            b + 1
        };
        assert(order[a] == other);
    }
}

/// Taking the key at position `i` out keeps every other key in the order, and
/// brings none in.
pub proof fn lemma_contains_after_removal<K>(order: Seq<K>, i: int, other: K)
    requires
        0 <= i < order.len(),
        other != order[i],
    ensures
        order.remove(i).contains(other) <==> order.contains(other),
{
    let rest = order.remove(i);
    if order.contains(other) {
        let a = order.index_of(other);
        let b = if a < i {
            a
        } else {
            a - 1
        };
        assert(rest[b] == other);
    }
    if rest.contains(other) {
        let b = rest.index_of(other);
        let a = if b < i {
            b
        } else {
            b + 1
        };
        assert(order[a] == other);
    }
}

} // verus!
