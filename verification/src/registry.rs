//! The node registry: every node that a search has discovered, in the order
//! of discovery, each with the data that the search keeps for it.
//!
//! A node is registered at most once and keeps its position for good, so a
//! position can stand for the node: a parent is recorded as the position of
//! the parent's entry, never as a copy of the node.

use crate::node_index::{
    index_find, index_get, index_insert, index_with_hasher, node_order, NodeHasher, NodeIndex,
};
use vstd::prelude::*;

verus! {

/// An insertion-ordered registry of nodes, each with a record of type `V`.
pub struct Registry<V> {
    index: NodeIndex,
    data: Vec<V>,
}

impl<V> Registry<V> {
    /// The registered nodes, in the order of their registration.
    pub closed spec fn nodes(&self) -> Seq<u64> {
        node_order(self.index)
    }

    /// What is recorded for each node, at the node's position.
    pub closed spec fn values(&self) -> Seq<V> {
        self.data@
    }

    /// Every node has its record, and no node is registered twice.
    pub open spec fn wf(&self) -> bool {
        &&& self.nodes().len() == self.values().len()
        &&& self.nodes().len() <= usize::MAX
        &&& self.nodes().no_duplicates()
    }

    /// An empty registry that hashes with `hasher`.
    pub fn with_hasher(hasher: NodeHasher) -> (registry: Self)
        ensures
            registry.wf(),
            registry.nodes() == Seq::<u64>::empty(),
            registry.values() == Seq::<V>::empty(),
    {
        Registry { index: index_with_hasher(hasher), data: Vec::new() }
    }

    /// The number of registered nodes.
    pub fn len(&self) -> (n: usize)
        requires
            self.wf(),
        ensures
            n == self.nodes().len(),
    {
        self.data.len()
    }

    /// The node at position `i` with its record, or `None` when `i` is no
    /// position of the registry.
    pub fn get_index(&self, i: usize) -> (entry: Option<(u64, &V)>)
        requires
            self.wf(),
        ensures
            i < self.nodes().len() ==> entry == Some((self.nodes()[i as int], &self.values()[i as int])),
            i >= self.nodes().len() ==> entry.is_none(),
    {
        match index_get(&self.index, i) {
            Some(node) => Some((node, &self.data[i])),
            None => None,
        }
    }

    /// The position of `node`, or `None` when it is not registered.
    pub fn get_index_of(&self, node: u64) -> (at: Option<usize>)
        requires
            self.wf(),
        ensures
            match at {
                Some(i) => i < self.nodes().len() && self.nodes()[i as int] == node,
                None => !self.nodes().contains(node),
            },
    {
        index_find(&self.index, node)
    }

    /// Registers `node` with `value`. A node that is already registered keeps
    /// its position and gets the new record, and the old record comes back; a
    /// new node goes to the end.
    pub fn insert_full(&mut self, node: u64, value: V) -> (at: (usize, Option<V>))
        requires
            old(self).wf(),
        ensures
            final(self).wf(),
            old(self).nodes().contains(node) ==> {
                &&& at.0 < old(self).nodes().len()
                &&& old(self).nodes()[at.0 as int] == node
                &&& at.1 == Some(old(self).values()[at.0 as int])
                &&& final(self).nodes() == old(self).nodes()
                &&& final(self).values() == old(self).values().update(at.0 as int, value)
            },
            !old(self).nodes().contains(node) ==> {
                &&& at.0 == old(self).nodes().len()
                &&& at.1.is_none()
                &&& final(self).nodes() == old(self).nodes().push(node)
                &&& final(self).values() == old(self).values().push(value)
            },
    {
        let (i, fresh) = index_insert(&mut self.index, node);
        if fresh {
            self.data.push(value);
            proof {
                assert(self.data@.len() == self.data.len());
                let before = old(self).nodes();
                assert forall|a: int, b: int|
                    0 <= a < before.len() + 1 && 0 <= b < before.len() + 1 && a != b implies before.push(
                    node,
                )[a] != before.push(node)[b] by {
                    if a == before.len() {
                        assert(before.contains(before[b]));
                    } else if b == before.len() {
                        assert(before.contains(before[a]));
                    }
                }
            }
            (i, None)
        } else {
            let mut swapped = value;
            std::mem::swap(&mut self.data[i], &mut swapped);
            (i, Some(swapped))
        }
    }

    /// Replaces the record at position `i`.
    pub fn set(&mut self, i: usize, value: V)
        requires
            old(self).wf(),
            i < old(self).nodes().len(),
        ensures
            final(self).wf(),
            final(self).nodes() == old(self).nodes(),
            final(self).values() == old(self).values().update(i as int, value),
    {
        self.data[i] = value;
    }

    /// The record at position `i`, to change it in place.
    pub fn value_mut(&mut self, i: usize) -> (value: &mut V)
        requires
            old(self).wf(),
            i < old(self).nodes().len(),
        ensures
            *value == old(self).values()[i as int],
            final(self).wf(),
            final(self).nodes() == old(self).nodes(),
            final(self).values() == old(self).values().update(i as int, *final(value)),
    {
        &mut self.data[i]
    }
}

} // verus!
