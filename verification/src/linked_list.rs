use vstd::prelude::*;
use vstd::std_specs::cmp::PartialEqSpec;

pub mod handle;
pub mod implem;
pub mod model;
pub mod node;
pub mod node_ref;
pub mod trace;

pub use self::handle::Handle;
pub use self::implem::LinkedListImpl;
pub use self::implem::Rotation;
pub use self::node::Node;
pub use self::node_ref::NodeRef;

use self::implem::ring_next;
use self::implem::ring_prev;
use self::implem::rotate_next;
use self::implem::rotate_prev;

verus! {

/// The list: a front end over one ring primitive.
///
/// Its view is the sequence of values in iteration order, from the current
/// node on. Appending puts a value last; releasing a handle is the only way to
/// take one out.
pub struct LinkedList<V> {
    list: LinkedListImpl<V>,
}

impl<T> View for LinkedList<T> {
    type V = Seq<T>;

    open spec fn view(&self) -> Seq<T> {
        self.ring()@
    }
}

/// Two sequences agree element for element under the element type's `==`.
pub open spec fn elements_eq<V: PartialEq>(a: Seq<V>, b: Seq<V>) -> bool {
    &&& a.len() == b.len()
    &&& forall|i: int| 0 <= i < a.len() ==> (#[trigger] a[i]).eq_spec(&b[i])
}

impl<V> LinkedList<V> {
    /// The ring primitive behind this list.
    pub closed spec fn ring(&self) -> LinkedListImpl<V> {
        self.list
    }

    /// The ring behind the list is consistent.
    pub open spec fn wf(&self) -> bool {
        self.ring().wf()
    }

    /// The arena slot of the node at each position of the view.
    pub open spec fn slots(&self) -> Seq<usize> {
        self.ring().slots()
    }

    /// Whether the node of `slot` is linked into this list.
    pub open spec fn holds(&self, slot: usize) -> bool {
        self.ring().holds(slot)
    }

    /// The value of the node of `slot`.
    pub open spec fn value_in(&self, slot: usize) -> V {
        self.ring().value_in(slot)
    }

    /// Whether `handle` owns a node of this list.
    pub open spec fn is_live(&self, handle: &Handle) -> bool {
        self.holds(handle.slot())
    }

    /// The position in the view of the node that `handle` owns.
    pub open spec fn position(&self, handle: &Handle) -> int {
        self.ring().position(handle)
    }

    /// An empty list.
    pub fn new() -> (list: Self)
        ensures
            list.wf(),
            list@ == Seq::<V>::empty(),
            list.slots() == Seq::<usize>::empty(),
    {
        LinkedList { list: LinkedListImpl::new() }
    }

    /// Appends `value` as the last element and hands out the handle that owns
    /// it.
    pub fn push_back(&mut self, value: V) -> (handle: Handle)
        requires
            old(self).wf(),
        ensures
            final(self).wf(),
            !old(self).is_live(&handle),
            final(self).slots() == old(self).slots().push(handle.slot()),
            final(self)@ == old(self)@.push(value),
            final(self).is_live(&handle),
            final(self).value_in(handle.slot()) == value,
            forall|s: usize|
                #![trigger old(self).holds(s)]
                old(self).holds(s) ==> {
                    &&& final(self).holds(s)
                    &&& final(self).value_in(s) == old(self).value_in(s)
                },
    {
        self.list.push_back(value)
    }

    /// Takes out the element that `handle` owns and hands back its value; the
    /// other elements keep their order. A handle that owns no element of this
    /// list changes nothing.
    pub fn release(&mut self, handle: Handle) -> (r: Option<V>)
        requires
            old(self).wf(),
        ensures
            final(self).wf(),
            match r {
                Some(v) => {
                    &&& old(self).is_live(&handle)
                    &&& v == old(self)@[old(self).position(&handle)]
                    &&& final(self)@ == old(self)@.remove(old(self).position(&handle))
                    &&& final(self).slots() == old(self).slots().remove(
                        old(self).position(&handle),
                    )
                },
                None => !old(self).is_live(&handle) && *final(self) == *old(self),
            },
            r is Some && old(self)@.len() == 1 ==> {
                &&& final(self)@ == Seq::<V>::empty()
                &&& final(self).slots() == Seq::<usize>::empty()
            },
            r is Some && old(self)@.len() > 1 && old(self).position(&handle) == 0 ==> {
                &&& final(self)@ == old(self)@.subrange(1, old(self)@.len() as int)
                &&& final(self).slots() == old(self).slots().subrange(
                    1,
                    old(self)@.len() as int,
                )
            },
            !final(self).is_live(&handle),
            forall|s: usize|
                #![trigger old(self).holds(s)]
                old(self).holds(s) && s != handle.slot() ==> {
                    &&& final(self).holds(s)
                    &&& final(self).value_in(s) == old(self).value_in(s)
                },
    {
        self.list.release(handle)
    }

    /// The list read from its last element on; the list itself stays as it is.
    pub fn prev(&self) -> (r: Rotation<'_, V>)
        requires
            self.wf(),
        ensures
            r.wf(),
            r.source() == self.ring(),
            r@ == rotate_prev(self@),
            r.slots() == rotate_prev(self.slots()),
    {
        self.list.prev()
    }

    /// The list read from its second element on; the list itself stays as it
    /// is.
    pub fn next(&self) -> (r: Rotation<'_, V>)
        requires
            self.wf(),
        ensures
            r.wf(),
            r.source() == self.ring(),
            r@ == rotate_next(self@),
            r.slots() == rotate_next(self.slots()),
    {
        self.list.next()
    }

    /// The nodes of the list, in order.
    pub fn iter(&self) -> (r: Vec<NodeRef<'_, V>>)
        requires
            self.wf(),
        ensures
            r@.map_values(|node: NodeRef<'_, V>| node@) == self@,
            forall|i: int| 0 <= i < r.len() ==> self.ring().links(i, #[trigger] r[i]),
    {
        self.list.iter()
    }

    /// The values of the list, in order.
    pub fn values(&self) -> (r: Vec<&V>)
        requires
            self.wf(),
        ensures
            r@.map_values(|v: &V| *v) == self@,
    {
        self.list.rotation().values()
    }

    /// The first node, or nothing for an empty list.
    pub fn current(&self) -> (r: Option<NodeRef<'_, V>>)
        requires
            self.wf(),
        ensures
            match r {
                Some(node) => self@.len() > 0 && node@ == self@[0] && self.ring().links(0, node),
                None => self@.len() == 0,
            },
    {
        self.list.current()
    }

    /// The values around the element that `handle` owns, the list read as a
    /// circle: that of the element before it, its own, and that of the element
    /// after it.
    pub fn neighbors(&self, handle: &Handle) -> (r: Option<(&V, &V, &V)>)
        requires
            self.wf(),
        ensures
            match r {
                Some((before, own, after)) => {
                    let i = self.position(handle);
                    let n = self@.len() as int;
                    &&& self.is_live(handle)
                    &&& *before == self@[ring_prev(i, n)]
                    &&& *own == self@[i]
                    &&& *after == self@[ring_next(i, n)]
                },
                None => !self.is_live(handle),
            },
    {
        self.list.neighbors(handle)
    }

    /// Appends the values of `items` in their order and hands out their
    /// handles in the same order.
    pub fn extend(&mut self, items: Vec<V>) -> (handles: Vec<Handle>)
        requires
            old(self).wf(),
        ensures
            final(self).wf(),
            final(self)@ == old(self)@ + items@,
            handles.len() == items.len(),
            final(self).slots() == old(self).slots() + handles@.map_values(|h: Handle| h.slot()),
    {
        self.list.extend(items)
    }

    /// The list of the values of `items`, in their order, with their handles.
    pub fn from_iter(items: Vec<V>) -> (r: (Self, Vec<Handle>))
        ensures
            r.0.wf(),
            r.0@ == items@,
            r.1.len() == items.len(),
            r.0.slots() == r.1@.map_values(|h: Handle| h.slot()),
    {
        let mut list = LinkedList::new();
        let handles = list.extend(items);
        assert(list@ =~= items@);
        assert(list.slots() =~= handles@.map_values(|h: Handle| h.slot()));
        (list, handles)
    }

    pub(crate) fn value_at(&self, slot: usize) -> (r: Option<&V>)
        requires
            self.wf(),
        ensures
            match r {
                Some(v) => self.slots().contains(slot) && *v == self@[self.slots().index_of(slot)],
                None => !self.slots().contains(slot),
            },
    {
        self.list.value_at(slot)
    }

    /// Whether the two lists hold equal values in the same order. Which nodes
    /// or slots hold them plays no part.
    pub fn eq(&self, other: &Self) -> (r: bool)
        where V: PartialEq
        requires
            self.wf(),
            other.wf(),
        ensures
            V::obeys_eq_spec() ==> r == elements_eq(self@, other@),
    {
        let a = self.values();
        let b = other.values();
        if a.len() != b.len() {
            return false;
        }
        let mut i: usize = 0;
        while i < a.len()
            invariant
                i <= a.len(),
                a.len() == b.len(),
                a@.map_values(|v: &V| *v) == self@,
                b@.map_values(|v: &V| *v) == other@,
                V::obeys_eq_spec() ==> forall|j: int|
                    0 <= j < i ==> (#[trigger] self@[j]).eq_spec(&other@[j]),
            decreases a.len() - i,
        {
            assert(a@.map_values(|v: &V| *v)[i as int] == *a[i as int]);
            assert(b@.map_values(|v: &V| *v)[i as int] == *b[i as int]);
            if *a[i] != *b[i] {
                return false;
            }
            i += 1;
        }
        true
    }
}

impl<V> Default for LinkedList<V> {
    fn default() -> (list: Self)
        ensures
            list.wf(),
            list@ == Seq::<V>::empty(),
    {
        LinkedList::new()
    }
}

} // verus!
