use vstd::prelude::*;

use super::handle::Handle;
use super::model::lemma_push_keeps_others;
use super::model::lemma_push_links_new;
use super::model::lemma_remove_keeps_others;
use super::model::lemma_remove_keeps_distinct;
use super::node::Node;
use super::node_ref::NodeRef;

verus! {

/// The ring position after `i` in a ring of `n` nodes.
pub open spec fn ring_next(i: int, n: int) -> int {
    if i + 1 == n {
        0
    } else {
        i + 1
    }
}

/// The ring position before `i` in a ring of `n` nodes.
pub open spec fn ring_prev(i: int, n: int) -> int {
    if i == 0 {
        n - 1
    } else {
        i - 1
    }
}

/// The ring position `i` steps after position `k` in a ring of `n` nodes.
pub open spec fn ring_offset(k: int, i: int, n: int) -> int {
    if k + i < n {
        k + i
    } else {
        k + i - n
    }
}

/// `s` read as a circle from position `k` on: the part from `k` to the end,
/// then the part before `k`.
pub open spec fn rotated<A>(s: Seq<A>, k: int) -> Seq<A> {
    s.subrange(k, s.len() as int) + s.subrange(0, k)
}

/// `s` read as a circle from its second element on; the first comes last.
pub open spec fn rotate_next<A>(s: Seq<A>) -> Seq<A> {
    if s.len() == 0 {
        s
    } else {
        s.subrange(1, s.len() as int).push(s[0])
    }
}

/// `s` read as a circle from its last element on.
pub open spec fn rotate_prev<A>(s: Seq<A>) -> Seq<A> {
    if s.len() == 0 {
        s
    } else {
        seq![s.last()] + s.drop_last()
    }
}

/// Turning a ring one node on and one node back, or back and on, leaves it
/// as it was: the same node is current again, and the same nodes follow it.
pub proof fn lemma_rotate_round_trip<A>(s: Seq<A>)
    ensures
        rotate_prev(rotate_next(s)) == s,
        rotate_next(rotate_prev(s)) == s,
        rotate_next(s).len() == s.len(),
        rotate_prev(s).len() == s.len(),
        s.len() > 0 ==> rotate_prev(rotate_next(s))[0] == s[0],
{
    assert(rotate_prev(rotate_next(s)) =~= s);
    assert(rotate_next(rotate_prev(s)) =~= s);
}

/// Stepping one position on and one back in a ring comes back to the
/// position it started from.
pub proof fn lemma_ring_round_trip(k: int, n: int)
    requires
        0 <= k < n,
    ensures
        ring_prev(ring_next(k, n), n) == k,
        ring_next(ring_prev(k, n), n) == k,
        0 <= ring_next(k, n) < n,
        0 <= ring_prev(k, n) < n,
{
}

/// The ring primitive: an arena of nodes linked into one circle, and the slot
/// of the node at which iteration starts and before which appends go.
///
/// Its view is the sequence of values in iteration order. `slots()` gives, for
/// each position of that sequence, the arena slot of the node, which is what a
/// [`Handle`] carries.
pub struct LinkedListImpl<V> {
    nodes: Vec<Option<Node<V>>>,
    free: Vec<usize>,
    current: Option<usize>,
    ring: Ghost<Seq<usize>>,
}

impl<T> View for LinkedListImpl<T> {
    type V = Seq<T>;

    closed spec fn view(&self) -> Seq<T> {
        Seq::new(self.ring@.len(), |i: int| self.nodes[self.ring@[i] as int].unwrap().value)
    }
}

/// The items of `items` in the opposite order, so that taking them off the
/// end gives them in their first order.
pub(crate) fn reversed<T>(items: Vec<T>) -> (r: Vec<T>)
    ensures
        r.len() == items.len(),
        forall|j: int| 0 <= j < r.len() ==> r[j] == items[items.len() - 1 - j],
{
    let ghost n = items.len() as int;
    let ghost given = items@;
    let mut items = items;
    let mut r: Vec<T> = Vec::new();
    while items.len() > 0
        invariant
            items.len() + r.len() == n,
            n == given.len(),
            forall|j: int| 0 <= j < items.len() ==> items[j] == given[j],
            forall|j: int| 0 <= j < r.len() ==> r[j] == given[n - 1 - j],
        decreases items.len(),
    {
        let item = items.pop().unwrap();
        r.push(item);
    }
    r
}

fn node_at<V>(nodes: &Vec<Option<Node<V>>>, slot: usize) -> (node: &Node<V>)
    requires
        slot < nodes.len(),
        nodes[slot as int] is Some,
    ensures
        *node == nodes[slot as int].unwrap(),
{
    nodes[slot].as_ref().unwrap()
}

fn set_next<V>(nodes: &mut Vec<Option<Node<V>>>, slot: usize, next: usize)
    requires
        slot < old(nodes).len(),
        old(nodes)[slot as int] is Some,
    ensures
        final(nodes).len() == old(nodes).len(),
        final(nodes)[slot as int] is Some,
        final(nodes)[slot as int].unwrap().next == next,
        final(nodes)[slot as int].unwrap().prev == old(nodes)[slot as int].unwrap().prev,
        final(nodes)[slot as int].unwrap().value == old(nodes)[slot as int].unwrap().value,
        forall|j: int|
            0 <= j < old(nodes).len() && j != slot ==> final(nodes)[j] == old(nodes)[j],
{
    match &mut nodes[slot] {
        Some(node) => {
            node.next = next;
        },
        None => {},
    }
}

fn set_prev<V>(nodes: &mut Vec<Option<Node<V>>>, slot: usize, prev: usize)
    requires
        slot < old(nodes).len(),
        old(nodes)[slot as int] is Some,
    ensures
        final(nodes).len() == old(nodes).len(),
        final(nodes)[slot as int] is Some,
        final(nodes)[slot as int].unwrap().prev == prev,
        final(nodes)[slot as int].unwrap().next == old(nodes)[slot as int].unwrap().next,
        final(nodes)[slot as int].unwrap().value == old(nodes)[slot as int].unwrap().value,
        forall|j: int|
            0 <= j < old(nodes).len() && j != slot ==> final(nodes)[j] == old(nodes)[j],
{
    match &mut nodes[slot] {
        Some(node) => {
            node.prev = prev;
        },
        None => {},
    }
}

impl<V> LinkedListImpl<V> {
    /// The arena slot of the node at each position of the view.
    pub closed spec fn slots(&self) -> Seq<usize> {
        self.ring@
    }

    spec fn occupied(&self, s: usize) -> bool {
        s < self.nodes.len() && self.nodes[s as int] is Some
    }

    spec fn vacant(&self, s: usize) -> bool {
        s < self.nodes.len() && self.nodes[s as int] is None
    }

    spec fn linked(&self, i: int) -> bool {
        let n = self.ring@.len() as int;
        let node = self.nodes[self.ring@[i] as int].unwrap();
        node.next == self.ring@[ring_next(i, n)] && node.prev == self.ring@[ring_prev(i, n)]
    }

    /// The ring is consistent: the linked slots are exactly the occupied ones,
    /// each node's neighbours are the nodes before and after it in the circle,
    /// every other slot waits on the free list, and `current` is the first
    /// node, or nothing when the ring is empty.
    pub closed spec fn wf(&self) -> bool {
        let n = self.ring@.len() as int;
        &&& self.ring@.no_duplicates()
        &&& self.free@.no_duplicates()
        &&& forall|s: usize|
            #![trigger self.ring@.contains(s)]
            #![trigger self.occupied(s)]
            self.ring@.contains(s) <==> self.occupied(s)
        &&& forall|s: usize|
            #![trigger self.free@.contains(s)]
            #![trigger self.vacant(s)]
            self.free@.contains(s) <==> self.vacant(s)
        &&& forall|i: int| 0 <= i < n ==> #[trigger] self.linked(i)
        &&& self.current == if n == 0 {
            None
        } else {
            Some(self.ring@[0])
        }
    }

    /// Whether the node of `slot` is linked into this ring.
    pub open spec fn holds(&self, slot: usize) -> bool {
        self.slots().contains(slot)
    }

    /// The value of the node of `slot`.
    pub open spec fn value_in(&self, slot: usize) -> V {
        self@[self.slots().index_of(slot)]
    }

    /// Whether `handle` owns a node of this ring.
    pub open spec fn is_live(&self, handle: &Handle) -> bool {
        self.holds(handle.slot())
    }

    /// The position in the view of the node that `handle` owns.
    pub open spec fn position(&self, handle: &Handle) -> int {
        self.slots().index_of(handle.slot())
    }

    /// In a consistent ring every position has a slot of its own.
    pub proof fn lemma_slots(&self)
        requires
            self.wf(),
        ensures
            self.slots().len() == self@.len(),
            self.slots().no_duplicates(),
    {
    }

    /// An empty ring.
    pub fn new() -> (list: Self)
        ensures
            list.wf(),
            list@ == Seq::<V>::empty(),
            list.slots() == Seq::<usize>::empty(),
    {
        let list = LinkedListImpl {
            nodes: Vec::new(),
            free: Vec::new(),
            current: None,
            ring: Ghost(Seq::empty()),
        };
        assert(list@ =~= Seq::<V>::empty());
        list
    }

    /// Links a new node holding `value` just before the current node, which
    /// makes it the last one in iteration order, and hands out its handle. In
    /// an empty ring the new node is linked to itself and becomes current.
    pub fn push_back(&mut self, value: V) -> (handle: Handle)
        requires
            old(self).wf(),
        ensures
            final(self).wf(),
            !old(self).is_live(&handle),
            final(self).slots() == old(self).slots().push(handle.slot()),
            final(self)@ == old(self)@.push(value),
            final(self).is_live(&handle),
            final(self).value_in(handle.slot()) == value,
            forall|s: usize|
                #![trigger old(self).holds(s)]
                old(self).holds(s) ==> {
                    &&& final(self).holds(s)
                    &&& final(self).value_in(s) == old(self).value_in(s)
                },
    {
        let ghost pre = *self;
        let ghost n = self.ring@.len() as int;
        let slot = match self.free.pop() {
            Some(s) => {
                assert(pre.free@.contains(s)) by {
                    assert(pre.free@[pre.free@.len() - 1] == s);
                }
                assert(pre.vacant(s));
                s
            },
            None => {
                let s = self.nodes.len();
                self.nodes.push(None);
                s
            },
        };
        assert(!pre.occupied(slot));
        assert(!pre.ring@.contains(slot));
        assert(!self.free@.contains(slot)) by {
            if self.free@.contains(slot) {
                let j = self.free@.index_of(slot);
                assert(pre.free@[j] == slot);
                if pre.free@.len() > 0 {
                    assert(pre.free@[pre.free@.len() - 1] == slot);
                } else {
                    assert(pre.free@.contains(slot));
                    assert(pre.vacant(slot));
                }
            }
        }
        match self.current {
            None => {
                self.nodes[slot] = Some(Node { prev: slot, value, next: slot });
                self.current = Some(slot);
            },
            Some(head) => {
                assert(pre.ring@[0] == head);
                assert(pre.ring@.contains(head));
                assert(pre.occupied(head));
                assert(pre.linked(0));
                let tail = node_at(&self.nodes, head).prev;
                assert(tail == pre.ring@[n - 1]);
                assert(pre.ring@.contains(tail));
                assert(pre.occupied(tail));
                self.nodes[slot] = Some(Node { prev: tail, value, next: head });
                set_next(&mut self.nodes, tail, slot);
                set_prev(&mut self.nodes, head, slot);
            },
        }
        proof {
            self.ring = Ghost(pre.ring@.push(slot));
            let ring = self.ring@;
            assert forall|s: usize|
                #![trigger self.ring@.contains(s)]
                #![trigger self.occupied(s)]
                self.ring@.contains(s) <==> self.occupied(s) by {
                if s == slot {
                    assert(ring[n] == slot);
                } else {
                    if ring.contains(s) {
                        let i = ring.index_of(s);
                        assert(pre.ring@[i] == s);
                        assert(pre.ring@.contains(s));
                        assert(pre.occupied(s));
                    }
                    if self.occupied(s) {
                        assert(pre.occupied(s));
                        assert(pre.ring@.contains(s));
                        let i = pre.ring@.index_of(s);
                        assert(ring[i] == s);
                    }
                }
            }
            assert forall|s: usize|
                #![trigger self.free@.contains(s)]
                #![trigger self.vacant(s)]
                self.free@.contains(s) <==> self.vacant(s) by {
                if s != slot {
                    if self.free@.contains(s) {
                        let j = self.free@.index_of(s);
                        assert(pre.free@[j] == s);
                        assert(pre.free@.contains(s));
                        assert(pre.vacant(s));
                    }
                    if self.vacant(s) {
                        assert(pre.vacant(s));
                        assert(pre.free@.contains(s));
                        let j = pre.free@.index_of(s);
                        assert(self.free@[j] == s);
                    }
                }
            }
            assert forall|i: int| 0 <= i < n + 1 implies #[trigger] self.linked(i) by {
                if i < n {
                    assert(pre.linked(i));
                    assert(pre.ring@.contains(pre.ring@[i]));
                }
            }
            assert(self@ =~= pre@.push(value)) by {
                assert forall|i: int| 0 <= i < n implies self@[i] == pre@[i] by {
                    assert(pre.ring@.contains(pre.ring@[i]));
                }
            }
            lemma_push_links_new(pre.ring@, pre@, slot, value);
            assert forall|s: usize| #![trigger pre.holds(s)] pre.holds(s) implies self.holds(s)
                && self.value_in(s) == pre.value_in(s) by {
                lemma_push_keeps_others(pre.ring@, pre@, slot, value, s);
            }
        }
        Handle::new(slot)
    }

    /// Unlinks the node that `handle` owns and hands back its value. The two
    /// neighbours are joined; where the node was current, its successor
    /// becomes current; where it was the only node, the ring is empty
    /// afterwards. A handle that owns no node of this ring changes nothing.
    pub fn release(&mut self, handle: Handle) -> (r: Option<V>)
        requires
            old(self).wf(),
        ensures
            final(self).wf(),
            match r {
                Some(v) => {
                    &&& old(self).is_live(&handle)
                    &&& v == old(self)@[old(self).position(&handle)]
                    &&& final(self)@ == old(self)@.remove(old(self).position(&handle))
                    &&& final(self).slots() == old(self).slots().remove(
                        old(self).position(&handle),
                    )
                },
                None => !old(self).is_live(&handle) && *final(self) == *old(self),
            },
            r is Some && old(self)@.len() == 1 ==> {
                &&& final(self)@ == Seq::<V>::empty()
                &&& final(self).slots() == Seq::<usize>::empty()
            },
            r is Some && old(self)@.len() > 1 && old(self).position(&handle) == 0 ==> {
                &&& final(self)@ == old(self)@.subrange(1, old(self)@.len() as int)
                &&& final(self).slots() == old(self).slots().subrange(
                    1,
                    old(self)@.len() as int,
                )
            },
            !final(self).is_live(&handle),
            forall|s: usize|
                #![trigger old(self).holds(s)]
                old(self).holds(s) && s != handle.slot() ==> {
                    &&& final(self).holds(s)
                    &&& final(self).value_in(s) == old(self).value_in(s)
                },
    {
        let ghost pre = *self;
        let ghost n = self.ring@.len() as int;
        let slot = handle.index();
        if slot >= self.nodes.len() {
            assert(!pre.occupied(slot));
            return None;
        }
        match &self.nodes[slot] {
            None => {
                assert(!pre.occupied(slot));
                return None;
            },
            Some(_) => {},
        }
        assert(pre.occupied(slot));
        assert(pre.ring@.contains(slot));
        let ghost i = pre.ring@.index_of(slot);
        assert(pre.linked(i));
        assert(!pre.free@.contains(slot)) by {
            if pre.free@.contains(slot) {
                assert(pre.vacant(slot));
            }
        }
        let taken = self.nodes[slot].take();
        let Node { prev, value, next } = taken.unwrap();
        assert(prev == pre.ring@[ring_prev(i, n)]);
        assert(next == pre.ring@[ring_next(i, n)]);
        if prev == slot {
            assert(n == 1);
            self.current = None;
            proof {
                self.ring = Ghost(Seq::empty());
                assert(pre.ring@.remove(i) =~= Seq::<usize>::empty());
            }
        } else {
            assert(n >= 2);
            assert(next != slot);
            assert(pre.ring@.contains(prev));
            assert(pre.ring@.contains(next));
            assert(pre.occupied(prev));
            assert(pre.occupied(next));
            set_next(&mut self.nodes, prev, next);
            set_prev(&mut self.nodes, next, prev);
            match self.current {
                Some(head) => {
                    if head == slot {
                        self.current = Some(next);
                    }
                },
                None => {},
            }
            proof {
                self.ring = Ghost(pre.ring@.remove(i));
            }
        }
        self.free.push(slot);
        proof {
            let ring = self.ring@;
            assert(ring =~= pre.ring@.remove(i));
            assert forall|j: int| 0 <= j < n - 1 implies #[trigger] ring[j] == pre.ring@[if j
                < i {
                j
            } else {
                j + 1
            }] by {}
            assert forall|s: usize|
                #![trigger self.ring@.contains(s)]
                #![trigger self.occupied(s)]
                self.ring@.contains(s) <==> self.occupied(s) by {
                if ring.contains(s) {
                    let j = ring.index_of(s);
                    let k = if j < i {
                        j
                    } else {
                        j + 1
                    };
                    assert(pre.ring@[k] == s);
                    assert(pre.ring@.contains(s));
                    assert(pre.occupied(s));
                }
                if self.occupied(s) {
                    assert(s != slot);
                    assert(pre.occupied(s));
                    assert(pre.ring@.contains(s));
                    let k = pre.ring@.index_of(s);
                    let j = if k < i {
                        k
                    } else {
                        k - 1
                    };
                    assert(ring[j] == s);
                }
            }
            assert forall|s: usize|
                #![trigger self.free@.contains(s)]
                #![trigger self.vacant(s)]
                self.free@.contains(s) <==> self.vacant(s) by {
                if s == slot {
                    assert(self.free@[pre.free@.len() as int] == slot);
                } else {
                    if self.free@.contains(s) {
                        let j = self.free@.index_of(s);
                        assert(pre.free@[j] == s);
                        assert(pre.free@.contains(s));
                        assert(pre.vacant(s));
                    }
                    if self.vacant(s) {
                        assert(pre.vacant(s));
                        assert(pre.free@.contains(s));
                        let j = pre.free@.index_of(s);
                        assert(self.free@[j] == s);
                    }
                }
            }
            assert forall|j: int| 0 <= j < n - 1 implies #[trigger] self.linked(j) by {
                let k = if j < i {
                    j
                } else {
                    j + 1
                };
                assert(pre.linked(k));
                assert(pre.ring@.contains(pre.ring@[k]));
                assert(pre.ring@[k] != slot);
            }
            assert(self@ =~= pre@.remove(i)) by {
                assert forall|j: int| 0 <= j < n - 1 implies self@[j] == pre@.remove(i)[j] by {
                    let k = if j < i {
                        j
                    } else {
                        j + 1
                    };
                    assert(pre.ring@.contains(pre.ring@[k]));
                    assert(pre.ring@[k] != slot);
                }
            }
            lemma_remove_keeps_distinct(pre.ring@, i);
            assert forall|s: usize|
                #![trigger pre.holds(s)]
                pre.holds(s) && s != slot implies self.holds(s) && self.value_in(s)
                    == pre.value_in(s) by {
                lemma_remove_keeps_others(pre.ring@, pre@, i, s);
            }
            if n == 1 {
                assert(self@ =~= Seq::<V>::empty());
            }
            if n > 1 && i == 0 {
                assert(pre@.remove(0) =~= pre@.subrange(1, n));
                assert(pre.ring@.remove(0) =~= pre.ring@.subrange(1, n));
            }
        }
        Some(value)
    }

    /// The values around the node that `handle` owns: that of the node before
    /// it, its own, and that of the node after it. In a ring of one node all
    /// three are the node's own value.
    pub fn neighbors(&self, handle: &Handle) -> (r: Option<(&V, &V, &V)>)
        requires
            self.wf(),
        ensures
            match r {
                Some((before, own, after)) => {
                    let i = self.position(handle);
                    let n = self@.len() as int;
                    &&& self.is_live(handle)
                    &&& *before == self@[ring_prev(i, n)]
                    &&& *own == self@[i]
                    &&& *after == self@[ring_next(i, n)]
                },
                None => !self.is_live(handle),
            },
    {
        let slot = handle.index();
        if slot >= self.nodes.len() {
            assert(!self.occupied(slot));
            return None;
        }
        match &self.nodes[slot] {
            None => {
                assert(!self.occupied(slot));
                None
            },
            Some(node) => {
                assert(self.occupied(slot));
                assert(self.ring@.contains(slot));
                let ghost i = self.ring@.index_of(slot);
                let ghost n = self.ring@.len() as int;
                assert(self.linked(i));
                assert(self.ring@.contains(self.ring@[ring_prev(i, n)]));
                assert(self.ring@.contains(self.ring@[ring_next(i, n)]));
                assert(self.occupied(node.prev));
                assert(self.occupied(node.next));
                let before = node_at(&self.nodes, node.prev);
                let after = node_at(&self.nodes, node.next);
                Some((&before.value, &node.value, &after.value))
            },
        }
    }

    /// Appends the values of `items` in their order and hands out their
    /// handles in the same order.
    pub fn extend(&mut self, items: Vec<V>) -> (handles: Vec<Handle>)
        requires
            old(self).wf(),
        ensures
            final(self).wf(),
            final(self)@ == old(self)@ + items@,
            handles.len() == items.len(),
            final(self).slots() == old(self).slots() + handles@.map_values(|h: Handle| h.slot()),
    {
        let ghost pre = *self;
        let ghost n = items.len() as int;
        let ghost given = items@;
        let mut rest = reversed(items);
        let mut handles: Vec<Handle> = Vec::new();
        while rest.len() > 0
            invariant
                self.wf(),
                rest.len() + handles.len() == n,
                n == given.len(),
                forall|j: int| 0 <= j < rest.len() ==> rest[j] == given[n - 1 - j],
                self@ == pre@ + given.subrange(0, handles.len() as int),
                self.slots() == pre.slots() + handles@.map_values(|h: Handle| h.slot()),
            decreases rest.len(),
        {
            let ghost done = handles.len() as int;
            let ghost before = handles@;
            let item = rest.pop().unwrap();
            let handle = self.push_back(item);
            handles.push(handle);
            assert(self@ =~= pre@ + given.subrange(0, done + 1));
            assert(handles@.map_values(|h: Handle| h.slot()) =~= before.map_values(
                |h: Handle| h.slot(),
            ).push(handle.slot()));
            assert(self.slots() =~= pre.slots() + handles@.map_values(|h: Handle| h.slot()));
        }
        assert(given.subrange(0, n) =~= given);
        handles
    }

    pub(crate) fn value_at(&self, slot: usize) -> (r: Option<&V>)
        requires
            self.wf(),
        ensures
            match r {
                Some(v) => self.slots().contains(slot) && *v == self@[self.slots().index_of(slot)],
                None => !self.slots().contains(slot),
            },
    {
        if slot >= self.nodes.len() {
            assert(!self.occupied(slot));
            return None;
        }
        match &self.nodes[slot] {
            Some(node) => {
                assert(self.occupied(slot));
                Some(&node.value)
            },
            None => {
                assert(!self.occupied(slot));
                None
            },
        }
    }
}

/// A ring read from another start: the nodes of `source()`, borrowed, with
/// the node at position `shift()` of the source as its current node. Taking a
/// rotation changes nothing in the source.
pub struct Rotation<'a, V> {
    list: &'a LinkedListImpl<V>,
    start: Option<usize>,
    shift: Ghost<int>,
}

impl<'a, T> View for Rotation<'a, T> {
    type V = Seq<T>;

    open spec fn view(&self) -> Seq<T> {
        rotated(self.source()@, self.shift())
    }
}

impl<'a, V> Rotation<'a, V> {
    /// The ring whose nodes this rotation reads.
    pub closed spec fn source(&self) -> LinkedListImpl<V> {
        *self.list
    }

    /// The position in the source at which this rotation starts.
    pub closed spec fn shift(&self) -> int {
        self.shift@
    }

    /// The source is consistent and the rotation starts at one of its nodes,
    /// or the source is empty.
    pub closed spec fn wf(&self) -> bool {
        let n = self.list.ring@.len() as int;
        &&& self.list.wf()
        &&& if n == 0 {
            self.shift@ == 0 && self.start is None
        } else {
            0 <= self.shift@ < n && self.start == Some(self.list.ring@[self.shift@])
        }
    }

    /// The arena slot of the node at each position of the view.
    pub open spec fn slots(&self) -> Seq<usize> {
        rotated(self.source().slots(), self.shift())
    }

    /// Whether `node` carries the links of position `i` of the view: the
    /// slots of the positions before and after it, the view read as a circle.
    pub open spec fn links(&self, i: int, node: NodeRef<'a, V>) -> bool {
        let n = self.slots().len() as int;
        &&& node.0.prev == self.slots()[ring_prev(i, n)]
        &&& node.0.next == self.slots()[ring_next(i, n)]
    }

    /// The start lies inside the source, and an empty source gives an empty
    /// rotation.
    pub proof fn lemma_shift(&self)
        requires
            self.wf(),
        ensures
            self.source().wf(),
            0 <= self.shift() <= self.source()@.len(),
            self.source()@.len() > 0 ==> self.shift() < self.source()@.len(),
            self@.len() == self.source()@.len(),
    {
    }

    /// One step on and one step back come to where they started: where
    /// `there` is what `next` gives of this rotation and `back` what `prev`
    /// gives of `there`, `back` starts at the same node of the same source as
    /// this rotation, and reads the same nodes.
    pub proof fn lemma_next_then_prev(&self, there: &Rotation<'a, V>, back: &Rotation<'a, V>)
        requires
            self.wf(),
            there.source() == self.source(),
            there.shift() == if self.source()@.len() == 0 {
                0
            } else {
                ring_next(self.shift(), self.source()@.len() as int)
            },
            back.source() == there.source(),
            back.shift() == if there.source()@.len() == 0 {
                0
            } else {
                ring_prev(there.shift(), there.source()@.len() as int)
            },
        ensures
            back.source() == self.source(),
            back.shift() == self.shift(),
            back@ == self@,
            back.slots() == self.slots(),
            there@ == rotate_next(self@),
            back@ == rotate_prev(there@),
    {
        self.lemma_shift();
        assert(there@ =~= rotate_next(self@));
        assert(back@ =~= rotate_prev(there@));
    }

    /// One step back and one step on come to where they started.
    pub proof fn lemma_prev_then_next(&self, there: &Rotation<'a, V>, back: &Rotation<'a, V>)
        requires
            self.wf(),
            there.source() == self.source(),
            there.shift() == if self.source()@.len() == 0 {
                0
            } else {
                ring_prev(self.shift(), self.source()@.len() as int)
            },
            back.source() == there.source(),
            back.shift() == if there.source()@.len() == 0 {
                0
            } else {
                ring_next(there.shift(), there.source()@.len() as int)
            },
        ensures
            back.source() == self.source(),
            back.shift() == self.shift(),
            back@ == self@,
            back.slots() == self.slots(),
            there@ == rotate_prev(self@),
            back@ == rotate_next(there@),
    {
        self.lemma_shift();
        assert(there@ =~= rotate_prev(self@));
        assert(back@ =~= rotate_next(there@));
    }

    /// The rotation that starts one node later. Of an empty ring it is the
    /// same empty rotation.
    pub fn next(&self) -> (r: Rotation<'a, V>)
        requires
            self.wf(),
        ensures
            r.wf(),
            r.source() == self.source(),
            r.shift() == if self.source()@.len() == 0 {
                0
            } else {
                ring_next(self.shift(), self.source()@.len() as int)
            },
            r@ == rotate_next(self@),
            r.slots() == rotate_next(self.slots()),
    {
        let list = self.list;
        let ghost n = list.ring@.len() as int;
        let ghost k = self.shift@;
        match self.start {
            None => {
                let r = Rotation { list, start: None, shift: Ghost(0) };
                assert(r@ =~= rotate_next(self@));
                assert(r.slots() =~= rotate_next(self.slots()));
                r
            },
            Some(start) => {
                assert(list.ring@.contains(list.ring@[k]));
                assert(list.occupied(start));
                assert(list.linked(k));
                let next = node_at(&list.nodes, start).next;
                let r = Rotation { list, start: Some(next), shift: Ghost(ring_next(k, n)) };
                assert(r@ =~= rotate_next(self@));
                assert(r.slots() =~= rotate_next(self.slots()));
                r
            },
        }
    }

    /// The rotation that starts one node earlier. Of an empty ring it is the
    /// same empty rotation.
    pub fn prev(&self) -> (r: Rotation<'a, V>)
        requires
            self.wf(),
        ensures
            r.wf(),
            r.source() == self.source(),
            r.shift() == if self.source()@.len() == 0 {
                0
            } else {
                ring_prev(self.shift(), self.source()@.len() as int)
            },
            r@ == rotate_prev(self@),
            r.slots() == rotate_prev(self.slots()),
    {
        let list = self.list;
        let ghost n = list.ring@.len() as int;
        let ghost k = self.shift@;
        match self.start {
            None => {
                let r = Rotation { list, start: None, shift: Ghost(0) };
                assert(r@ =~= rotate_prev(self@));
                assert(r.slots() =~= rotate_prev(self.slots()));
                r
            },
            Some(start) => {
                assert(list.ring@.contains(list.ring@[k]));
                assert(list.occupied(start));
                assert(list.linked(k));
                let prev = node_at(&list.nodes, start).prev;
                let r = Rotation { list, start: Some(prev), shift: Ghost(ring_prev(k, n)) };
                assert(r@ =~= rotate_prev(self@));
                assert(r.slots() =~= rotate_prev(self.slots()));
                r
            },
        }
    }

    /// The node at which this rotation starts, or nothing for an empty ring.
    pub fn current(&self) -> (r: Option<NodeRef<'a, V>>)
        requires
            self.wf(),
        ensures
            match r {
                Some(node) => self@.len() > 0 && node@ == self@[0] && self.links(0, node),
                None => self@.len() == 0,
            },
    {
        let list = self.list;
        let ghost k = self.shift@;
        match self.start {
            None => None,
            Some(start) => {
                assert(list.ring@.contains(list.ring@[k]));
                assert(list.occupied(start));
                assert(list.linked(k));
                Some(NodeRef::of(node_at(&list.nodes, start)))
            },
        }
    }

    /// One full lap: the nodes from the start on, each once, following the
    /// `next` links until the node before the start has been given.
    pub fn iter(&self) -> (r: Vec<NodeRef<'a, V>>)
        requires
            self.wf(),
        ensures
            r@.map_values(|node: NodeRef<'a, V>| node@) == self@,
            forall|i: int| 0 <= i < r.len() ==> self.links(i, #[trigger] r[i]),
    {
        let list = self.list;
        let ghost n = list.ring@.len() as int;
        let ghost k = self.shift@;
        let mut out: Vec<NodeRef<'a, V>> = Vec::new();
        match self.start {
            None => {
                assert(out@.map_values(|node: NodeRef<'a, V>| node@) =~= self@);
            },
            Some(start) => {
                assert(list.ring@.contains(list.ring@[k]));
                assert(list.occupied(start));
                assert(list.linked(k));
                let stop = node_at(&list.nodes, start).prev;
                let mut cur = start;
                let mut done = false;
                let ghost mut i: int = 0;
                while !done
                    invariant
                        list.wf(),
                        n == list.ring@.len(),
                        0 <= k < n,
                        stop == list.ring@[ring_prev(k, n)],
                        0 <= i <= n,
                        !done ==> i < n && cur == list.ring@[ring_offset(k, i, n)],
                        done ==> i == n,
                        out.len() == i,
                        forall|j: int|
                            0 <= j < i ==> {
                                let at = ring_offset(k, j, n);
                                &&& (#[trigger] out[j])@ == list@[at]
                                &&& out[j].0.prev == list.ring@[ring_prev(at, n)]
                                &&& out[j].0.next == list.ring@[ring_next(at, n)]
                            },
                    decreases n - i,
                {
                    let ghost at = ring_offset(k, i, n);
                    assert(list.ring@.contains(list.ring@[at]));
                    assert(list.occupied(cur));
                    assert(list.linked(at));
                    let node = node_at(&list.nodes, cur);
                    out.push(NodeRef::of(node));
                    if cur == stop {
                        done = true;
                    } else {
                        cur = node.next;
                    }
                    proof {
                        i = i + 1;
                    }
                }
                assert(out@.map_values(|node: NodeRef<'a, V>| node@) =~= self@);
                assert forall|j: int| 0 <= j < out.len() implies self.links(j, #[trigger] out[j]) by {
                    let at = ring_offset(k, j, n);
                    assert(self.slots()[ring_prev(j, n)] == list.ring@[ring_prev(at, n)]);
                    assert(self.slots()[ring_next(j, n)] == list.ring@[ring_next(at, n)]);
                }
            },
        }
        out
    }

    /// The values of one full lap, in order.
    pub fn values(&self) -> (r: Vec<&'a V>)
        requires
            self.wf(),
        ensures
            r@.map_values(|v: &V| *v) == self@,
    {
        let nodes = self.iter();
        let mut out: Vec<&'a V> = Vec::new();
        let mut i: usize = 0;
        while i < nodes.len()
            invariant
                i <= nodes.len(),
                out.len() == i,
                forall|j: int| 0 <= j < i ==> *(#[trigger] out[j]) == nodes[j]@,
            decreases nodes.len() - i,
        {
            out.push(nodes[i].value());
            i += 1;
        }
        assert(out@.map_values(|v: &V| *v) =~= nodes@.map_values(|node: NodeRef<'a, V>| node@));
        out
    }
}

impl<V> LinkedListImpl<V> {
    /// This ring read from its own current node.
    pub fn rotation(&self) -> (r: Rotation<'_, V>)
        requires
            self.wf(),
        ensures
            r.wf(),
            r.source() == *self,
            r.shift() == 0,
            r@ == self@,
            r.slots() == self.slots(),
    {
        let r = Rotation { list: self, start: self.current, shift: Ghost(0) };
        assert(r@ =~= self@);
        assert(r.slots() =~= self.slots());
        r
    }

    /// The ring read from the node before current; the source stays as it is.
    pub fn prev(&self) -> (r: Rotation<'_, V>)
        requires
            self.wf(),
        ensures
            r.wf(),
            r.source() == *self,
            r@ == rotate_prev(self@),
            r.slots() == rotate_prev(self.slots()),
    {
        self.rotation().prev()
    }

    /// The ring read from the node after current; the source stays as it is.
    pub fn next(&self) -> (r: Rotation<'_, V>)
        requires
            self.wf(),
        ensures
            r.wf(),
            r.source() == *self,
            r@ == rotate_next(self@),
            r.slots() == rotate_next(self.slots()),
    {
        self.rotation().next()
    }

    /// Whether `node` carries the links of position `i` of the view: the
    /// slots of the positions before and after it, the view read as a circle.
    pub open spec fn links(&self, i: int, node: NodeRef<'_, V>) -> bool {
        let n = self.slots().len() as int;
        &&& node.0.prev == self.slots()[ring_prev(i, n)]
        &&& node.0.next == self.slots()[ring_next(i, n)]
    }

    /// One full lap from the current node on.
    pub fn iter(&self) -> (r: Vec<NodeRef<'_, V>>)
        requires
            self.wf(),
        ensures
            r@.map_values(|node: NodeRef<'_, V>| node@) == self@,
            forall|i: int| 0 <= i < r.len() ==> self.links(i, #[trigger] r[i]),
    {
        self.rotation().iter()
    }

    /// The current node, or nothing for an empty ring.
    pub fn current(&self) -> (r: Option<NodeRef<'_, V>>)
        requires
            self.wf(),
        ensures
            match r {
                Some(node) => self@.len() > 0 && node@ == self@[0] && self.links(0, node),
                None => self@.len() == 0,
            },
    {
        self.rotation().current()
    }
}

} // verus!
