//! Retirement batches: thread-local groups of up to `BATCH_SIZE` nodes.
//!
//! A batch owns its nodes in an arena, newest last; the in-batch chain
//! runs from the newest node (`size - 1`) down to the oldest (`0`)
//! through each node's `batch` link.  When a batch is published it must
//! supply one node per reservation slot; if it holds fewer real
//! retirements than that, iteration lazily appends filler nodes that
//! extend the chain past the oldest real node.  A shared counter `nref`
//! governs batch-wide destruction: the batch is destroyed exactly when
//! the counter wraps to zero after all contributions have settled.

use vstd::prelude::*;

use crate::node::{Node, NodeRef};
use crate::{BATCH_SIZE, SLOTS_LENGTH};

verus! {

/// Mathematical view of a batch: its identity, node arena, count of
/// real (non-filler) nodes, and reference counter.
pub struct BatchModel {
    pub id: usize,
    pub nodes: Seq<Node>,
    pub size: int,
    pub nref: u64,
}

/// The real section of a batch is well formed: at most `BATCH_SIZE`
/// nodes, each carrying a payload, charging this batch, and chained to
/// the node added just before it.
pub open spec fn batch_real_wf(b: BatchModel) -> bool {
    &&& 0 <= b.size <= BATCH_SIZE
    &&& b.size <= b.nodes.len()
    &&& forall|j: int| 0 <= j < b.size ==> (#[trigger] b.nodes[j]).val.is_some()
    &&& forall|j: int| 0 <= j < b.size ==> (#[trigger] b.nodes[j]).nref_node == Some(b.id)
    &&& forall|j: int| 1 <= j < b.size ==> (#[trigger] b.nodes[j]).batch == Some((j - 1) as usize)
}

/// The whole chain is well formed.  Fillers, if any, sit after the real
/// section and continue the chain from the oldest real node; the chain's
/// final node has no successor yet.
pub open spec fn chain_wf(b: BatchModel) -> bool {
    let len = b.nodes.len() as int;
    &&& batch_real_wf(b)
    &&& (b.size == 0 ==> len == 0)
    &&& (len == b.size && b.size >= 1 ==> b.nodes[0].batch.is_none())
    &&& (len > b.size ==> {
        &&& b.size >= 1
        &&& b.nodes[0].batch == Some(b.size as usize)
        &&& forall|j: int| b.size <= j < len ==> (#[trigger] b.nodes[j]).val.is_none()
        &&& forall|j: int| b.size <= j < len ==> (#[trigger] b.nodes[j]).nref_node == Some(b.id)
        &&& forall|j: int| b.size <= j < len - 1 ==> (#[trigger] b.nodes[j]).batch == Some(
            (j + 1) as usize,
        )
        &&& b.nodes[len - 1].batch.is_none()
    })
}

/// The arena index of the node at position `p` of the chain (position 0
/// is the newest real node): real nodes are walked newest to oldest,
/// then fillers in the order they were appended.
pub open spec fn chain_pos_idx(size: int, p: int) -> int {
    if p < size {
        size - 1 - p
    } else {
        p
    }
}

/// Effect of asking node `c` for its chain successor: if it has none, a
/// filler inheriting `c`'s owning batch is appended and linked in.
pub open spec fn spec_produce(b: BatchModel, c: int) -> BatchModel {
    if b.nodes[c].batch.is_some() {
        b
    } else {
        let filler = Node {
            val: None,
            list: None,
            batch: None,
            nref_node: b.nodes[c].nref_node,
        };
        let linked = Node { batch: Some(b.nodes.len() as usize), ..b.nodes[c] };
        BatchModel { nodes: b.nodes.push(filler).update(c, linked), ..b }
    }
}

/// Effect of adding a real retirement: the node is stamped with this
/// batch's identity, linked to the previous newest node, and appended.
pub open spec fn spec_add(b: BatchModel, val: Node) -> BatchModel {
    let n = Node {
        nref_node: Some(b.id),
        batch: if b.size > 0 {
            Some((b.size - 1) as usize)
        } else {
            None::<usize>
        },
        ..val
    };
    BatchModel { nodes: b.nodes.push(n), size: b.size + 1, ..b }
}

/// The arena length of a batch of `sz` real nodes after `k` chain
/// positions have been yielded at publication: fillers extend the arena
/// one position ahead of the cursor, up to one node per slot.
pub open spec fn chain_len_at(sz: int, k: int) -> int {
    if k == 0 {
        sz
    } else if sz >= k + 1 {
        sz
    } else if k + 1 <= SLOTS_LENGTH {
        k + 1
    } else {
        SLOTS_LENGTH as int
    }
}

/// Yielding position `i` of the chain (with its lazy filler creation)
/// leaves position `i + 1` in place and linked from position `i`.
pub proof fn lemma_chain_next(b: BatchModel, i: int)
    requires
        chain_wf(b),
        1 <= b.size,
        0 <= i,
        i + 1 < SLOTS_LENGTH,
        b.nodes.len() == chain_len_at(b.size, i),
    ensures
        spec_produce(b, chain_pos_idx(b.size, i)).nodes[chain_pos_idx(b.size, i)].batch == Some(
            chain_pos_idx(b.size, i + 1) as usize,
        ),
        spec_produce(b, chain_pos_idx(b.size, i)).nodes.len() == chain_len_at(b.size, i + 1),
        chain_pos_idx(b.size, i + 1) < chain_len_at(b.size, i + 1),
{
    let c = chain_pos_idx(b.size, i);
    let len = b.nodes.len() as int;
    if i + 1 < b.size {
        assert(c == b.size - 1 - i);
        assert(b.nodes[c].batch == Some((c - 1) as usize));
    } else if i + 1 == b.size {
        assert(c == 0);
        if len > b.size {
            assert(b.nodes[0].batch == Some(b.size as usize));
        }
    } else {
        assert(c == i);
        if c < len - 1 {
            if c >= b.size {
                assert(b.nodes[c].batch == Some((c + 1) as usize));
            }
        }
    }
}

/// Chain well-formedness never depends on the nodes' per-slot `list`
/// links: a batch whose nodes agree on everything else is as well
/// formed as the original.
pub proof fn lemma_chain_wf_list_irrelevant(b1: BatchModel, b2: BatchModel)
    requires
        chain_wf(b1),
        b2.id == b1.id,
        b2.size == b1.size,
        b2.nodes.len() == b1.nodes.len(),
        forall|j: int|
            0 <= j < b1.nodes.len() ==> (#[trigger] b2.nodes[j]).val == b1.nodes[j].val
                && b2.nodes[j].batch == b1.nodes[j].batch && b2.nodes[j].nref_node
                == b1.nodes[j].nref_node,
    ensures
        chain_wf(b2),
{
}

/// Asking any in-bounds node for its successor keeps the chain well
/// formed: only the chain's final node triggers a filler, and the filler
/// extends the chain by one.
pub proof fn lemma_produce_preserves_chain_wf(b: BatchModel, c: int)
    requires
        chain_wf(b),
        0 <= c < b.nodes.len(),
    ensures
        chain_wf(spec_produce(b, c)),
{
    if b.nodes[c].batch.is_none() {
        let len = b.nodes.len() as int;
        assert(c == 0 && len == b.size || c == len - 1 && len > b.size);
    }
}

/// A thread-local group of up to `BATCH_SIZE` retirement nodes.
pub struct Batch {
    pub id: usize,
    pub nodes: Vec<Node>,
    pub size: usize,
    pub nref: u64,
}

impl View for Batch {
    type V = BatchModel;

    open spec fn view(&self) -> BatchModel {
        BatchModel { id: self.id, nodes: self.nodes@, size: self.size as int, nref: self.nref }
    }
}

impl Batch {
    /// An empty batch.
    pub fn new() -> (b: Batch)
        ensures
            b@ == (BatchModel { id: 0, nodes: Seq::<Node>::empty(), size: 0, nref: 0 }),
    {
        Batch { id: 0, nodes: Vec::new(), size: 0, nref: 0 }
    }

    /// An empty batch that will be known to its nodes by `id`.
    pub fn new_with_id(id: usize) -> (b: Batch)
        ensures
            b@ == (BatchModel { id, nodes: Seq::<Node>::empty(), size: 0, nref: 0 }),
    {
        Batch { id, nodes: Vec::new(), size: 0, nref: 0 }
    }

    /// Adds a real retirement to the batch.  A full batch rejects the
    /// node and hands it back so the caller can publish and retry.
    pub fn add(&mut self, val: Node) -> (r: Result<(), Node>)
        requires
            chain_wf(old(self)@),
            old(self)@.nodes.len() == old(self)@.size,
            val.val.is_some(),
        ensures
            chain_wf(final(self)@),
            final(self)@.nodes.len() == final(self)@.size,
            old(self)@.size < BATCH_SIZE ==> r == Result::<(), Node>::Ok(()) && final(self)@
                == spec_add(old(self)@, val),
            old(self)@.size >= BATCH_SIZE ==> r == Result::<(), Node>::Err(val) && *final(self)
                == *old(self),
    {
        if !self.is_full() {
            let mut v = val;
            v.set_nref_node(Some(self.id));
            if self.size > 0 {
                v.set_batch(Some(self.size - 1));
            } else {
                v.set_batch(None);
            }
            self.nodes.push(v);
            self.size = self.size + 1;
            Ok(())
        } else {
            Err(val)
        }
    }

    /// Whether the batch holds `BATCH_SIZE` real nodes.
    pub fn is_full(&self) -> (r: bool)
        ensures
            r == (self@.size == BATCH_SIZE),
    {
        self.size == BATCH_SIZE
    }

    /// The number of real nodes in the batch.
    pub fn get_size(&self) -> (r: usize)
        ensures
            r == self.size,
    {
        self.size
    }

    /// In the concurrent algorithm this counter is shared and updated
    /// atomically; here it is owned, and the addition wraps as the
    /// accounting requires.
    pub fn fetch_add_nref(&mut self, val: u64) -> (r: u64)
        ensures
            r == old(self).nref,
            final(self)@ == (BatchModel { nref: old(self).nref.wrapping_add(val), ..old(self)@ }),
    {
        let prev = self.nref;
        self.nref = self.nref.wrapping_add(val);
        prev
    }

    /// Wrapping subtraction on the batch counter, returning the prior
    /// value.
    pub fn fetch_sub_nref(&mut self, val: u64) -> (r: u64)
        ensures
            r == old(self).nref,
            final(self)@ == (BatchModel { nref: old(self).nref.wrapping_sub(val), ..old(self)@ }),
    {
        let prev = self.nref;
        self.nref = self.nref.wrapping_sub(val);
        prev
    }

    /// The chain successor of node `idx`, appending a filler when the
    /// chain ends there.
    pub fn produce_nodes_filler(&mut self, idx: usize) -> (r: Option<usize>)
        requires
            idx < old(self)@.nodes.len(),
        ensures
            final(self)@ == spec_produce(old(self)@, idx as int),
            r == final(self)@.nodes[idx as int].batch,
    {
        let nd = self.nodes[idx];
        match nd.batch {
            Some(nxt) => Some(nxt),
            None => {
                let mut filler = Node::default();
                filler.set_nref_node(nd.nref_node);
                let new_idx = self.nodes.len();
                self.nodes.push(filler);
                let mut linked = nd;
                linked.set_batch(Some(new_idx));
                self.nodes.set(idx, linked);
                Some(new_idx)
            },
        }
    }

    /// The reference through which this batch's counter is credited
    /// for slots that rejected a node: the chain's head, if any.
    pub fn get_node_nref(&self) -> (r: Option<NodeRef>)
        ensures
            self@.size >= 1 ==> r == Some(NodeRef { batch: self.id, idx: (self.size - 1) as usize }),
            self@.size == 0 ==> r.is_none(),
    {
        if self.size > 0 {
            Some(NodeRef { batch: self.id, idx: self.size - 1 })
        } else {
            None
        }
    }

    /// Starts iterating the chain from the newest real node.  A
    /// non-empty batch always yields exactly `BATCH_SIZE` nodes, fillers
    /// included; an empty one yields none.
    pub fn iter(&self) -> (it: Iter)
        ensures
            self@.size >= 1 ==> it == (Iter {
                current: Some((self.size - 1) as usize),
                len: BATCH_SIZE,
            }),
            self@.size == 0 ==> it == (Iter { current: None::<usize>, len: 0 }),
    {
        if self.size > 0 {
            Iter { current: Some(self.size - 1), len: BATCH_SIZE }
        } else {
            Iter { current: None, len: 0 }
        }
    }
}

impl Default for Batch {
    /// An empty batch.
    fn default() -> (b: Batch)
        ensures
            b@ == (BatchModel { id: 0, nodes: Seq::<Node>::empty(), size: 0, nref: 0 }),
    {
        Batch::new()
    }
}

/// A cursor over a batch's chain.  The batch itself is passed to `next`,
/// since yielding a successor may append a filler to the arena.
#[derive(Clone, Copy, Debug)]
pub struct Iter {
    pub current: Option<usize>,
    pub len: usize,
}

impl Iter {
    /// Yields the node at the cursor and advances along the chain,
    /// appending a filler when the chain would otherwise end before the
    /// last position.
    pub fn next(&mut self, b: &mut Batch) -> (r: Option<Node>)
        requires
            chain_wf(old(b)@),
            old(self).len > 0 ==> old(self).current.is_some() && old(self).current.unwrap()
                < old(b)@.nodes.len(),
        ensures
            chain_wf(final(b)@),
            old(self).len == 0 ==> r.is_none() && *final(self) == *old(self) && *final(b)
                == *old(b),
            old(self).len > 0 ==> {
                let c = old(self).current.unwrap() as int;
                &&& final(self).len == old(self).len - 1
                &&& r == Some(final(b)@.nodes[c])
                &&& (old(self).len == 1 ==> *final(b) == *old(b)
                    && final(self).current.is_none())
                &&& (old(self).len > 1 ==> final(b)@ == spec_produce(old(b)@, c)
                    && final(self).current == final(b)@.nodes[c].batch)
            },
    {
        if self.len != 0 {
            let c = self.current.unwrap();
            if self.len == 1 {
                self.current = None;
            } else {
                self.current = b.produce_nodes_filler(c);
                proof {
                    lemma_produce_preserves_chain_wf(old(b)@, c as int);
                }
            }
            self.len = self.len - 1;
            Some(b.nodes[c])
        } else {
            None
        }
    }
}

} // verus!
