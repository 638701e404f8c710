//! Retirement nodes: one record per retired object.
//!
//! A node holds the retired payload (the deferred destruction), a
//! `list` link forming the per-slot chain of published retirements, a
//! `batch` link forming the owning batch's own chain, and `nref_node`,
//! the identity of the batch whose reference counter governs this node.

use vstd::prelude::*;

verus! {

/// Location of a node once its batch has been published: the identity of
/// the owning batch and the node's position in that batch's arena.
#[derive(Clone, Copy, PartialEq, Eq, Structural, Debug)]
pub struct NodeRef {
    pub batch: usize,
    pub idx: usize,
}

/// One record per retired object.
///
/// `val` carries the retired payload; `Some(p)` means destroying this
/// node runs the deferred destruction of `p`, while `None` marks a
/// filler node whose deferred action does nothing.  `list` is the
/// per-slot chain of published retirements, `batch` the index of the
/// next node in the owning batch's own chain, and `nref_node` the
/// identity of the batch whose counter this node charges.
#[derive(Clone, Copy, Debug)]
pub struct Node {
    pub val: Option<u64>,
    pub list: Option<NodeRef>,
    pub batch: Option<usize>,
    pub nref_node: Option<usize>,
}

impl Node {
    /// Builds a node that will run the deferred destruction of `val`.
    pub fn new(val: u64) -> (n: Node)
        ensures
            n == (Node { val: Some(val), list: None, batch: None, nref_node: None }),
    {
        Node { val: Some(val), list: None, batch: None, nref_node: None }
    }

    /// The per-slot chain link.
    pub fn get_list(&self) -> (r: Option<NodeRef>)
        ensures
            r == self.list,
    {
        self.list
    }

    /// Sets the per-slot chain link.
    pub fn set_list(&mut self, list: Option<NodeRef>)
        ensures
            *final(self) == (Node { list, ..*old(self) }),
    {
        self.list = list;
    }

    /// Sets the in-batch chain link.
    pub fn set_batch(&mut self, batch: Option<usize>)
        ensures
            *final(self) == (Node { batch, ..*old(self) }),
    {
        self.batch = batch;
    }

    /// Sets the identity of the batch whose counter this node charges.
    pub fn set_nref_node(&mut self, nref_node: Option<usize>)
        ensures
            *final(self) == (Node { nref_node, ..*old(self) }),
    {
        self.nref_node = nref_node;
    }

    /// Whether this node already has a successor in its batch's chain.
    pub fn is_present_batch_ptr(&self) -> (r: bool)
        ensures
            r == self.batch.is_some(),
    {
        self.batch.is_some()
    }

    /// The identity of the owning batch.
    pub fn get_batch_ptr(&self) -> (r: usize)
        requires
            self.nref_node.is_some(),
        ensures
            r == self.nref_node.unwrap(),
    {
        match self.nref_node {
            Some(b) => b,
            None => 0,
        }
    }
}

/// The deferred action carried by a filler node: it does nothing.
pub fn no_op_func() {
}

impl Default for Node {
    /// A filler node: no payload, no links.  Published in place of real
    /// retirements when a batch has fewer nodes than there are slots.
    fn default() -> (n: Node)
        ensures
            n == (Node { val: None, list: None, batch: None, nref_node: None }),
    {
        Node { val: None, list: None, batch: None, nref_node: None }
    }
}

} // verus!
