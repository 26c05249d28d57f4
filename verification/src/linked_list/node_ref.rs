use vstd::prelude::*;

use super::node::Node;

verus! {

/// A borrowed ring node, as handed out by iteration. Its view is the node's
/// value.
pub struct NodeRef<'a, V>(pub &'a Node<V>);

impl<'a, T> View for NodeRef<'a, T> {
    type V = T;

    open spec fn view(&self) -> T {
        self.0.value
    }
}

impl<'a, V> NodeRef<'a, V> {
    pub fn of(node: &'a Node<V>) -> (r: Self)
        ensures
            r.0 == node,
            r@ == node.value,
    {
        NodeRef(node)
    }

    /// The value held by the node.
    pub fn value(&self) -> (v: &'a V)
        ensures
            *v == self@,
    {
        &self.0.value
    }
}

} // verus!
