use vstd::prelude::*;

use super::LinkedList;

verus! {

/// The owning token of one ring node. It is handed out by `push_back` and is
/// neither `Clone` nor `Copy`: giving it back to `release` is the only way to
/// unlink the node.
#[must_use]
pub struct Handle {
    pub(crate) slot: usize,
}

impl Handle {
    /// The arena slot of the node that this handle owns.
    pub closed spec fn slot(&self) -> usize {
        self.slot
    }

    pub(crate) fn new(slot: usize) -> (handle: Self)
        ensures
            handle.slot() == slot,
    {
        Handle { slot }
    }

    pub(crate) fn index(&self) -> (slot: usize)
        ensures
            slot == self.slot(),
    {
        self.slot
    }

    /// The value of the node that this handle owns in `list`, if the node is
    /// still linked there.
    pub fn value<'a, V>(&self, list: &'a LinkedList<V>) -> (r: Option<&'a V>)
        requires
            list.wf(),
        ensures
            match r {
                Some(v) => list.is_live(self) && *v == list@[list.position(self)],
                None => !list.is_live(self),
            },
    {
        list.value_at(self.index())
    }
}

} // verus!
