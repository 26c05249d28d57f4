use vstd::prelude::*;

use super::model::lemma_remove_keeps_distinct;

verus! {

/// One step in the life of a ring.
pub enum Step<V> {
    /// `push_back` of `value`, which handed out the handle of `slot`.
    Push { slot: usize, value: V },
    /// `release` of the handle of `slot`.
    Release { slot: usize },
}

/// The slot that a step hands out.
pub open spec fn push_slot<V>(step: Step<V>) -> Option<usize> {
    match step {
        Step::Push { slot, .. } => Some(slot),
        Step::Release { .. } => None,
    }
}

/// The slot that a step gives back.
pub open spec fn release_slot<V>(step: Step<V>) -> Option<usize> {
    match step {
        Step::Push { .. } => None,
        Step::Release { slot } => Some(slot),
    }
}

/// A ring as its contracts show it: the slot and the value at each position,
/// and beside them the number of the step that pushed the node there.
pub struct RingModel<V> {
    pub slots: Seq<usize>,
    pub values: Seq<V>,
    pub origins: Seq<int>,
}

/// The ring after one more step, the step with number `at`: what `push_back`
/// and `release` promise of their ring.
pub open spec fn after_step<V>(ring: RingModel<V>, at: int, step: Step<V>) -> RingModel<V> {
    match step {
        Step::Push { slot, value } => RingModel {
            slots: ring.slots.push(slot),
            values: ring.values.push(value),
            origins: ring.origins.push(at),
        },
        Step::Release { slot } => if ring.slots.contains(slot) {
            let i = ring.slots.index_of(slot);
            RingModel {
                slots: ring.slots.remove(i),
                values: ring.values.remove(i),
                origins: ring.origins.remove(i),
            }
        } else {
            ring
        },
    }
}

/// The ring that the steps leave, begun empty.
pub open spec fn replay<V>(steps: Seq<Step<V>>) -> RingModel<V>
    decreases steps.len(),
{
    if steps.len() == 0 {
        RingModel { slots: Seq::empty(), values: Seq::empty(), origins: Seq::empty() }
    } else {
        after_step(replay(steps.drop_last()), steps.len() - 1, steps.last())
    }
}

/// Every push hands out a slot that no linked node has at that time, as
/// `push_back` promises.
pub open spec fn admissible<V>(steps: Seq<Step<V>>) -> bool
    decreases steps.len(),
{
    steps.len() == 0 || {
        &&& admissible(steps.drop_last())
        &&& match steps.last() {
            Step::Push { slot, .. } => !replay(steps.drop_last()).slots.contains(slot),
            Step::Release { .. } => true,
        }
    }
}

/// Step `i` is a push whose handle no later step gives back.
pub open spec fn survives<V>(steps: Seq<Step<V>>, i: int) -> bool {
    &&& 0 <= i < steps.len()
    &&& push_slot(steps[i]) is Some
    &&& forall|j: int|
        i < j < steps.len() ==> #[trigger] release_slot(steps[j]) != push_slot(steps[i])
}

/// What holds of a ring after any steps: each node is the one that some push
/// put there, with the value and the slot of that push; the nodes stand in the
/// order in which they were pushed; and they are exactly the pushes whose
/// handle was not given back.
pub open spec fn keeps_live_in_order<V>(steps: Seq<Step<V>>) -> bool {
    let ring = replay(steps);
    &&& ring.slots.len() == ring.values.len()
    &&& ring.slots.len() == ring.origins.len()
    &&& ring.slots.no_duplicates()
    &&& forall|p: int|
        0 <= p < ring.origins.len() ==> {
            &&& 0 <= #[trigger] ring.origins[p] < steps.len()
            &&& steps[ring.origins[p]] == (Step::Push {
                slot: ring.slots[p],
                value: ring.values[p],
            })
        }
    &&& forall|p: int, q: int|
        0 <= p < q < ring.origins.len() ==> #[trigger] ring.origins[p] < #[trigger] ring.origins[q]
    &&& forall|i: int| survives(steps, i) <==> #[trigger] ring.origins.contains(i)
}

/// After any run of appends and releases, the ring holds exactly the values
/// whose handles are still out, in the order in which they were appended.
pub proof fn lemma_trace_keeps_live_in_order<V>(steps: Seq<Step<V>>)
    requires
        admissible(steps),
    ensures
        keeps_live_in_order(steps),
    decreases steps.len(),
{
    if steps.len() > 0 {
        lemma_trace_keeps_live_in_order(steps.drop_last());
        lemma_last_step_keeps_live_in_order(steps);
    }
}

proof fn lemma_last_step_keeps_live_in_order<V>(steps: Seq<Step<V>>)
    requires
        steps.len() > 0,
        admissible(steps),
        keeps_live_in_order(steps.drop_last()),
    ensures
        keeps_live_in_order(steps),
{
    let before = steps.drop_last();
    let n = before.len() as int;
    let old_ring = replay(before);
    let ring = replay(steps);
    assert forall|k: int| 0 <= k < n implies before[k] == steps[k] by {}
    match steps.last() {
        Step::Push { slot, value } => {
            let m = old_ring.slots.len() as int;
            assert forall|a: int, b: int| 0 <= a < ring.slots.len() && 0 <= b < ring.slots.len()
                && a != b implies ring.slots[a] != ring.slots[b] by {
                if a < m {
                    assert(old_ring.slots.contains(old_ring.slots[a]));
                }
                if b < m {
                    assert(old_ring.slots.contains(old_ring.slots[b]));
                }
            }
            assert forall|p: int| 0 <= p < ring.origins.len() implies {
                &&& 0 <= #[trigger] ring.origins[p] < steps.len()
                &&& steps[ring.origins[p]] == (Step::Push {
                    slot: ring.slots[p],
                    value: ring.values[p],
                })
            } by {
                if p < m {
                    assert(ring.origins[p] == old_ring.origins[p]);
                }
            }
            assert forall|p: int, q: int| 0 <= p < q < ring.origins.len() implies #[trigger]
                ring.origins[p] < #[trigger] ring.origins[q] by {
                assert(ring.origins[p] == old_ring.origins[p]);
                if q < m {
                    assert(ring.origins[q] == old_ring.origins[q]);
                }
            }
            assert forall|i: int| survives(steps, i) <==> #[trigger] ring.origins.contains(i) by {
                if survives(steps, i) {
                    if i == n {
                        assert(ring.origins[m] == n);
                    } else {
                        assert(survives(before, i)) by {
                            assert forall|j: int| i < j < before.len() implies #[trigger]
                                release_slot(before[j]) != push_slot(before[i]) by {
                                assert(release_slot(steps[j]) != push_slot(steps[i]));
                            }
                        }
                        assert(old_ring.origins.contains(i));
                        let p = old_ring.origins.index_of(i);
                        assert(ring.origins[p] == i);
                    }
                }
                if ring.origins.contains(i) {
                    let p = ring.origins.index_of(i);
                    if p < m {
                        assert(old_ring.origins[p] == i);
                        assert(old_ring.origins.contains(i));
                        assert(survives(before, i));
                        assert forall|j: int| i < j < steps.len() implies #[trigger]
                            release_slot(steps[j]) != push_slot(steps[i]) by {
                            if j < n {
                                assert(release_slot(before[j]) != push_slot(before[i]));
                            }
                        }
                    }
                }
            }
        },
        Step::Release { slot } => {
            if old_ring.slots.contains(slot) {
                let at = old_ring.slots.index_of(slot);
                lemma_remove_keeps_distinct(old_ring.slots, at);
                assert forall|p: int| 0 <= p < ring.origins.len() implies {
                    &&& #[trigger] ring.origins[p] == old_ring.origins[if p < at {
                        p
                    } else {
                        p + 1
                    }]
                    &&& ring.slots[p] == old_ring.slots[if p < at {
                        p
                    } else {
                        p + 1
                    }]
                    &&& ring.values[p] == old_ring.values[if p < at {
                        p
                    } else {
                        p + 1
                    }]
                } by {}
                assert forall|p: int| 0 <= p < ring.origins.len() implies {
                    &&& 0 <= #[trigger] ring.origins[p] < steps.len()
                    &&& steps[ring.origins[p]] == (Step::Push {
                        slot: ring.slots[p],
                        value: ring.values[p],
                    })
                } by {
                    let o = if p < at {
                        p
                    } else {
                        p + 1
                    };
                    assert(0 <= old_ring.origins[o] < n);
                }
                assert forall|p: int, q: int| 0 <= p < q < ring.origins.len() implies #[trigger]
                    ring.origins[p] < #[trigger] ring.origins[q] by {
                    let a = if p < at {
                        p
                    } else {
                        p + 1
                    };
                    let b = if q < at {
                        q
                    } else {
                        q + 1
                    };
                    assert(old_ring.origins[a] < old_ring.origins[b]);
                }
                assert forall|i: int| survives(steps, i) <==> #[trigger] ring.origins.contains(
                    i,
                ) by {
                    if survives(steps, i) {
                        assert(i != n);
                        assert(survives(before, i)) by {
                            assert forall|j: int| i < j < before.len() implies #[trigger]
                                release_slot(before[j]) != push_slot(before[i]) by {
                                assert(release_slot(steps[j]) != push_slot(steps[i]));
                            }
                        }
                        assert(old_ring.origins.contains(i));
                        let p = old_ring.origins.index_of(i);
                        assert(0 <= old_ring.origins[p] < n);
                        assert(release_slot(steps[n]) != push_slot(steps[i]));
                        assert(p != at);
                        let q = if p < at {
                            p
                        } else {
                            p - 1
                        };
                        assert(ring.origins[q] == i);
                    }
                    if ring.origins.contains(i) {
                        let q = ring.origins.index_of(i);
                        let p = if q < at {
                            q
                        } else {
                            q + 1
                        };
                        assert(old_ring.origins[p] == i);
                        assert(0 <= old_ring.origins[p] < n);
                        assert(old_ring.origins.contains(i));
                        assert(survives(before, i));
                        assert(old_ring.slots[p] != old_ring.slots[at]);
                        assert forall|j: int| i < j < steps.len() implies #[trigger]
                            release_slot(steps[j]) != push_slot(steps[i]) by {
                            if j < n {
                                assert(release_slot(before[j]) != push_slot(before[i]));
                            }
                        }
                    }
                }
            } else {
                assert forall|p: int| 0 <= p < ring.origins.len() implies {
                    &&& 0 <= #[trigger] ring.origins[p] < steps.len()
                    &&& steps[ring.origins[p]] == (Step::Push {
                        slot: ring.slots[p],
                        value: ring.values[p],
                    })
                } by {
                    assert(0 <= old_ring.origins[p] < n);
                }
                assert forall|i: int| survives(steps, i) <==> #[trigger] ring.origins.contains(
                    i,
                ) by {
                    if survives(steps, i) {
                        assert(i != n);
                        assert(survives(before, i)) by {
                            assert forall|j: int| i < j < before.len() implies #[trigger]
                                release_slot(before[j]) != push_slot(before[i]) by {
                                assert(release_slot(steps[j]) != push_slot(steps[i]));
                            }
                        }
                    }
                    if ring.origins.contains(i) {
                        let p = ring.origins.index_of(i);
                        assert(0 <= old_ring.origins[p] < n);
                        assert(survives(before, i));
                        assert(old_ring.slots.contains(old_ring.slots[p]));
                        assert forall|j: int| i < j < steps.len() implies #[trigger]
                            release_slot(steps[j]) != push_slot(steps[i]) by {
                            if j < n {
                                assert(release_slot(before[j]) != push_slot(before[i]));
                            }
                        }
                    }
                }
            }
        },
    }
}

} // verus!
