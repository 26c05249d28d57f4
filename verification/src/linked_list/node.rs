use vstd::prelude::*;

verus! {

/// A ring element: a value and the arena slots of its two neighbours.
///
/// In a ring of one node both neighbours are the node's own slot.
pub struct Node<V> {
    pub prev: usize,
    pub value: V,
    pub next: usize,
}

} // verus!
