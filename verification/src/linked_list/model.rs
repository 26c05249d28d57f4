use vstd::prelude::*;

verus! {

/// The value that stands at the position of `slot`, in a ring given by its
/// slots and its values.
pub open spec fn value_of<V>(slots: Seq<usize>, values: Seq<V>, slot: usize) -> V {
    values[slots.index_of(slot)]
}

/// Appending a node leaves every other node linked, with its value.
pub proof fn lemma_push_keeps_others<V>(
    slots: Seq<usize>,
    values: Seq<V>,
    new_slot: usize,
    new_value: V,
    slot: usize,
)
    requires
        slots.len() == values.len(),
        slots.no_duplicates(),
        slots.contains(slot),
        !slots.contains(new_slot),
    ensures
        slots.push(new_slot).no_duplicates(),
        slots.push(new_slot).contains(slot),
        value_of(slots.push(new_slot), values.push(new_value), slot) == value_of(
            slots,
            values,
            slot,
        ),
{
    let pushed = slots.push(new_slot);
    let n = slots.len() as int;
    let i = slots.index_of(slot);
    assert(pushed[i] == slot);
    assert(pushed[n] == new_slot);
    assert forall|a: int, b: int| 0 <= a < pushed.len() && 0 <= b < pushed.len() && a
        != b implies pushed[a] != pushed[b] by {
        if a < n {
            assert(slots.contains(slots[a]));
        }
        if b < n {
            assert(slots.contains(slots[b]));
        }
    }
    let j = pushed.index_of(slot);
    assert(j == i);
}

/// A node that was just appended is linked, with the value it was given.
pub proof fn lemma_push_links_new<V>(
    slots: Seq<usize>,
    values: Seq<V>,
    new_slot: usize,
    new_value: V,
)
    requires
        slots.len() == values.len(),
        !slots.contains(new_slot),
    ensures
        slots.push(new_slot).contains(new_slot),
        value_of(slots.push(new_slot), values.push(new_value), new_slot) == new_value,
{
    let pushed = slots.push(new_slot);
    let n = slots.len() as int;
    assert(pushed[n] == new_slot);
    let m = pushed.index_of(new_slot);
    if m < n {
        assert(slots.contains(slots[m]));
    }
}

/// Taking out the node at position `i` leaves every other node linked, with
/// its value, and the slot of the node that left is free.
pub proof fn lemma_remove_keeps_others<V>(
    slots: Seq<usize>,
    values: Seq<V>,
    i: int,
    slot: usize,
)
    requires
        slots.len() == values.len(),
        slots.no_duplicates(),
        0 <= i < slots.len(),
        slots.contains(slot),
        slot != slots[i],
    ensures
        slots.remove(i).no_duplicates(),
        !slots.remove(i).contains(slots[i]),
        slots.remove(i).contains(slot),
        value_of(slots.remove(i), values.remove(i), slot) == value_of(slots, values, slot),
{
    let rest = slots.remove(i);
    let k = slots.index_of(slot);
    let j = if k < i {
        k
    } else {
        k - 1
    };
    assert(rest[j] == slot);
    assert forall|a: int| 0 <= a < rest.len() implies #[trigger] rest[a] == slots[if a < i {
        a
    } else {
        a + 1
    }] by {}
    let m = rest.index_of(slot);
    assert(m == j);
    if rest.contains(slots[i]) {
        let a = rest.index_of(slots[i]);
        assert(rest[a] == slots[if a < i {
            a
        } else {
            a + 1
        }]);
    }
}

/// Taking the element at position `i` out of a sequence without duplicates
/// leaves it without duplicates, and without that element.
pub proof fn lemma_remove_keeps_distinct<A>(slots: Seq<A>, i: int)
    requires
        slots.no_duplicates(),
        0 <= i < slots.len(),
    ensures
        slots.remove(i).no_duplicates(),
        !slots.remove(i).contains(slots[i]),
{
    let rest = slots.remove(i);
    assert forall|a: int| 0 <= a < rest.len() implies #[trigger] rest[a] == slots[if a < i {
        a
    } else {
        a + 1
    }] by {}
    if rest.contains(slots[i]) {
        let a = rest.index_of(slots[i]);
        assert(rest[a] == slots[if a < i {
            a
        } else {
            a + 1
        }]);
    }
}

} // verus!
