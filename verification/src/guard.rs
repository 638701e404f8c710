//! Pin guards.
//!
//! A guard records where a reader registered: the slot index it pinned
//! and the head it observed there at pin time (its handle).  Unpinning
//! consumes the guard; the handle bounds the traversal performed then,
//! so the reader never clears past its own arrival point.

use vstd::prelude::*;

use crate::node::NodeRef;

verus! {

/// A reader's registration with a collector: the pinned slot and the
/// head observed at pin time.
#[derive(Debug)]
pub struct Guard {
    pub slot: usize,
    pub handle: Option<NodeRef>,
}

impl Guard {
    /// A guard for the given slot and observed head.
    pub fn new(slot: usize, handle: Option<NodeRef>) -> (g: Guard)
        ensures
            g == (Guard { slot, handle }),
    {
        Guard { slot, handle }
    }

    /// Whether `check_val` is exactly this guard's handle.
    pub fn is_handle(&self, check_val: Option<NodeRef>) -> (r: bool)
        ensures
            r == (self.handle == check_val),
    {
        match (self.handle, check_val) {
            (None, None) => true,
            (Some(a), Some(b)) => a == b,
            _ => false,
        }
    }

    /// The slot this guard pinned.
    pub fn get_slot(&self) -> (r: usize)
        ensures
            r == self.slot,
    {
        self.slot
    }

    /// The head observed at pin time.
    pub fn get_handle(&self) -> (r: Option<NodeRef>)
        ensures
            r == self.handle,
    {
        self.handle
    }
}

} // verus!
