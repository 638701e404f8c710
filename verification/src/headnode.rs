//! Reservation slots: double-width cells holding a head pointer and an
//! active-reader count.
//!
//! `pin_slot` advertises a reader and hands it the current head as its
//! guard handle; `add_to_slot` publishes a retirement node into the
//! slot's chain, but only while readers are present; `unpin_slot`
//! removes a reader, resetting the slot when the last one leaves.

use vstd::prelude::*;

use crate::node::NodeRef;
use crate::HEAD_COUNT_LIMIT;

verus! {

/// The value held by a reservation slot: the most recently published
/// retirement node for the slot (if any) and the number of readers
/// currently pinned there.
#[derive(Clone, Copy, Debug)]
pub struct NonAtomicHeadNode {
    pub head_ptr: Option<NodeRef>,
    pub head_count: usize,
}

impl NonAtomicHeadNode {
    /// A slot value with the given head and reader count.
    pub fn new(ptr: Option<NodeRef>, cnt: usize) -> (r: NonAtomicHeadNode)
        ensures
            r == (NonAtomicHeadNode { head_ptr: ptr, head_count: cnt }),
    {
        NonAtomicHeadNode { head_ptr: ptr, head_count: cnt }
    }

    /// The handle a reader records when it pins at this slot value: the
    /// head it observed, freezing where the reader began.
    pub fn get_guard_handle(self) -> (r: Option<NodeRef>)
        ensures
            r == self.head_ptr,
    {
        self.head_ptr
    }
}

impl Default for NonAtomicHeadNode {
    /// An empty slot: no head, no readers.
    fn default() -> (r: NonAtomicHeadNode)
        ensures
            r == (NonAtomicHeadNode { head_ptr: None, head_count: 0 }),
    {
        NonAtomicHeadNode { head_ptr: None, head_count: 0 }
    }
}

/// A reservation slot.  Concurrently the pair lives in one double-width
/// atomic cell whose updates retry by compare-exchange; this sequential
/// model holds the pair directly, so every update is the one the
/// successful exchange would have installed.
#[derive(Debug)]
pub struct HeadNode {
    pub head: NonAtomicHeadNode,
}

impl HeadNode {
    /// A slot holding the given head and count.
    pub fn new(head_ptr: Option<NodeRef>, head_count: usize) -> (r: HeadNode)
        ensures
            r.head == (NonAtomicHeadNode { head_ptr, head_count }),
    {
        HeadNode { head: NonAtomicHeadNode { head_ptr, head_count } }
    }

    /// The current slot value.
    pub fn load(&self) -> (r: NonAtomicHeadNode)
        ensures
            r == self.head,
    {
        self.head
    }

    /// Registers a reader: increments the reader count and returns the
    /// slot value the reader observed, whose head becomes the reader's
    /// guard handle.
    pub fn pin_slot(&mut self) -> (r: NonAtomicHeadNode)
        requires
            old(self).head.head_count < HEAD_COUNT_LIMIT,
        ensures
            r == old(self).head,
            final(self).head == (NonAtomicHeadNode {
                head_ptr: old(self).head.head_ptr,
                head_count: (old(self).head.head_count + 1) as usize,
            }),
    {
        let prev = self.head;
        self.head = NonAtomicHeadNode {
            head_ptr: prev.head_ptr,
            head_count: prev.head_count + 1,
        };
        prev
    }

    /// Publishes `val` into this slot.  A slot with no active readers
    /// rejects the node (there is nobody to charge for it); otherwise
    /// `val` becomes the new head, keeping the reader count, and the
    /// previous slot value is returned so the caller can link `val` to
    /// the prior head and credit the prior head's batch.
    pub fn add_to_slot(&mut self, val: NodeRef) -> (r: Result<NonAtomicHeadNode, ()>)
        ensures
            old(self).head.head_count == 0 ==> r == Result::<NonAtomicHeadNode, ()>::Err(())
                && *final(self) == *old(self),
            old(self).head.head_count > 0 ==> r == Result::<NonAtomicHeadNode, ()>::Ok(old(self).head)
                && final(self).head == (NonAtomicHeadNode {
                    head_ptr: Some(val),
                    head_count: old(self).head.head_count,
                }),
    {
        let curr = self.head;
        if curr.head_count == 0 {
            Err(())
        } else {
            self.head = NonAtomicHeadNode {
                head_ptr: Some(val),
                head_count: curr.head_count,
            };
            Ok(curr)
        }
    }

    /// Deregisters one reader.  When the last reader leaves, the slot is
    /// reset to empty; otherwise only the count drops.  Returns the slot
    /// value seen before the update, from which the caller decides what
    /// credit the departed reader owes.
    pub fn unpin_slot(&mut self) -> (r: NonAtomicHeadNode)
        requires
            old(self).head.head_count >= 1,
        ensures
            r == old(self).head,
            old(self).head.head_count == 1 ==> final(self).head
                == (NonAtomicHeadNode { head_ptr: None, head_count: 0 }),
            old(self).head.head_count > 1 ==> final(self).head == (NonAtomicHeadNode {
                head_ptr: old(self).head.head_ptr,
                head_count: (old(self).head.head_count - 1) as usize,
            }),
    {
        let curr = self.head;
        if curr.head_count == 1 {
            self.head = NonAtomicHeadNode { head_ptr: None, head_count: 0 };
        } else {
            self.head = NonAtomicHeadNode {
                head_ptr: curr.head_ptr,
                head_count: curr.head_count - 1,
            };
        }
        curr
    }
}

impl Default for HeadNode {
    /// An empty slot.
    fn default() -> (r: HeadNode)
        ensures
            r.head == (NonAtomicHeadNode { head_ptr: None, head_count: 0 }),
    {
        HeadNode { head: NonAtomicHeadNode { head_ptr: None, head_count: 0 } }
    }
}

} // verus!
