//! A circular doubly-linked list whose nodes are owned through handles, and an
//! insertion-ordered map and set built on it.
//!
//! Nodes live in an arena and are addressed by stable slot numbers. Appending
//! hands out a [`linked_list::Handle`]; giving the handle back is the only way
//! to remove the node again.

pub mod linked_hash_map;
pub mod linked_list;
