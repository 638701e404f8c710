//! The collector: a fixed array of reservation slots, the arena of
//! published batches, and the destruction log.
//!
//! The algorithm is modeled as a sequential state machine.  Every
//! public operation has a matching `spec_` transition over the
//! collector's mathematical view, and each operation's contract states
//! that the implementation performs exactly that transition.  Running a
//! retired payload's destructor is modeled by appending the payload to
//! the `destroyed` log when its batch's counter wraps to zero.

use vstd::prelude::*;

use crate::batch::{
    chain_len_at, chain_pos_idx, chain_wf, lemma_chain_next, spec_add, spec_produce, Batch,
    BatchModel,
};
use crate::guard::Guard;
use crate::headnode::{HeadNode, NonAtomicHeadNode};
use crate::node::{Node, NodeRef};
use crate::{ADJS, BATCH_SIZE, HEAD_COUNT_LIMIT, SLOTS_LENGTH};

verus! {

/// Mathematical view of a collector.
#[verifier::ext_equal]
pub struct CollectorModel {
    pub slots: Seq<NonAtomicHeadNode>,
    pub adjs: u64,
    pub batches: Seq<BatchModel>,
    pub freed: Seq<bool>,
    pub destroyed: Seq<u64>,
    pub building: BatchModel,
}

/// The node a reference points at.
pub open spec fn m_node(m: CollectorModel, r: NodeRef) -> Node {
    m.batches[r.batch as int].nodes[r.idx as int]
}

/// The reference points into the arena of published batches.
pub open spec fn valid_ref(m: CollectorModel, r: NodeRef) -> bool {
    r.batch < m.batches.len() && r.idx < m.batches[r.batch as int].nodes.len()
}

/// An optional head reference is absent or points into the arena.
pub open spec fn slot_ref_wf(m: CollectorModel, r: Option<NodeRef>) -> bool {
    match r {
        None => true,
        Some(rr) => valid_ref(m, rr),
    }
}

/// A node's per-slot chain link is absent or points at a node of a
/// strictly earlier batch — slot chains always run from newer batches
/// to older ones, which bounds every traversal.
pub open spec fn node_links_wf(m: CollectorModel, bid: int, n: Node) -> bool {
    match n.list {
        None => true,
        Some(r) => valid_ref(m, r) && (r.batch as int) < bid,
    }
}

/// The payloads destroyed when a batch is freed, in chain order
/// (newest real node first); fillers carry none.
pub open spec fn batch_payloads(b: BatchModel) -> Seq<u64> {
    Seq::new(b.size as nat, |p: int| b.nodes[b.size - 1 - p].val.unwrap())
}

/// A published batch: stamped with its position, fully extended to one
/// node per slot, chain well formed, and all chain links well formed.
pub open spec fn published_batch_wf(m: CollectorModel, bid: int) -> bool {
    let b = m.batches[bid];
    &&& b.id == bid
    &&& chain_wf(b)
    &&& b.size >= 1
    &&& b.nodes.len() == SLOTS_LENGTH
    &&& forall|j: int|
        0 <= j < b.nodes.len() ==> node_links_wf(m, bid, #[trigger] b.nodes[j])
}

/// The collector's structural invariant.
pub open spec fn collector_wf(m: CollectorModel) -> bool {
    &&& m.slots.len() == SLOTS_LENGTH
    &&& m.adjs == ADJS
    &&& m.freed.len() == m.batches.len()
    &&& m.batches.len() + 1 < usize::MAX
    &&& m.building.id == m.batches.len()
    &&& m.building.nref == 0
    &&& chain_wf(m.building)
    &&& m.building.nodes.len() == m.building.size
    &&& forall|j: int|
        0 <= j < m.building.nodes.len() ==> (#[trigger] m.building.nodes[j]).list.is_none()
    &&& forall|s: int|
        0 <= s < SLOTS_LENGTH ==> (#[trigger] m.slots[s]).head_count <= HEAD_COUNT_LIMIT
    &&& forall|s: int| 0 <= s < SLOTS_LENGTH ==> slot_ref_wf(m, (#[trigger] m.slots[s]).head_ptr)
    &&& forall|s: int|
        0 <= s < SLOTS_LENGTH ==> ((#[trigger] m.slots[s]).head_count == 0
            ==> m.slots[s].head_ptr.is_none())
    &&& forall|b: int| 0 <= b < m.batches.len() ==> published_batch_wf(m, b)
}

/// The collector as first constructed: empty slots, no batches, an
/// empty building batch, nothing destroyed.
pub open spec fn spec_init() -> CollectorModel {
    CollectorModel {
        slots: Seq::new(SLOTS_LENGTH as nat, |i: int| NonAtomicHeadNode {
            head_ptr: None,
            head_count: 0,
        }),
        adjs: ADJS,
        batches: Seq::<BatchModel>::empty(),
        freed: Seq::<bool>::empty(),
        destroyed: Seq::<u64>::empty(),
        building: BatchModel { id: 0, nodes: Seq::<Node>::empty(), size: 0, nref: 0 },
    }
}

/// Freeing batch `bid`: it is marked freed and every payload it holds
/// is destroyed, in chain order.
pub open spec fn spec_free(m: CollectorModel, bid: int) -> CollectorModel {
    CollectorModel {
        freed: m.freed.update(bid, true),
        destroyed: m.destroyed + batch_payloads(m.batches[bid]),
        ..m
    }
}

/// Wrapping addition of `val` to batch `bid`'s counter; the batch is
/// freed exactly when the counter lands on zero.
pub open spec fn spec_nref_add(m: CollectorModel, bid: int, val: u64) -> CollectorModel {
    let b = m.batches[bid];
    let newref = b.nref.wrapping_add(val);
    let m1 = CollectorModel {
        batches: m.batches.update(bid, BatchModel { nref: newref, ..b }),
        ..m
    };
    if newref == 0 {
        spec_free(m1, bid)
    } else {
        m1
    }
}

/// Wrapping subtraction of one from batch `bid`'s counter, freeing on
/// zero.
pub open spec fn spec_nref_sub1(m: CollectorModel, bid: int) -> CollectorModel {
    let b = m.batches[bid];
    let newref = b.nref.wrapping_sub(1);
    let m1 = CollectorModel {
        batches: m.batches.update(bid, BatchModel { nref: newref, ..b }),
        ..m
    };
    if newref == 0 {
        spec_free(m1, bid)
    } else {
        m1
    }
}

/// Crediting `val` to the batch owning the node `r` points at; absent
/// references credit nothing.
pub open spec fn spec_add_adjs(m: CollectorModel, node: Option<NodeRef>, val: u64) -> CollectorModel {
    match node {
        None => m,
        Some(r) => spec_nref_add(m, m_node(m, r).nref_node.unwrap() as int, val),
    }
}

/// The traversal performed on unpin: starting from `r`, walk the
/// per-slot chain, subtracting one from each visited node's batch
/// counter, and stop after the chain ends or after visiting the
/// departing reader's own handle.
pub open spec fn spec_traverse(m: CollectorModel, r: NodeRef, handle: Option<NodeRef>) -> CollectorModel
    decreases r.batch,
{
    let next = m_node(m, r).list;
    let m1 = spec_nref_sub1(m, m_node(m, r).nref_node.unwrap() as int);
    if next.is_none() || handle == Some(r) {
        m1
    } else if next.unwrap().batch < r.batch {
        spec_traverse(m1, next.unwrap(), handle)
    } else {
        m1
    }
}

/// Setting the per-slot chain link of the node `r` points at.
pub open spec fn spec_set_list(m: CollectorModel, r: NodeRef, l: Option<NodeRef>) -> CollectorModel {
    let b = m.batches[r.batch as int];
    let nd = Node { list: l, ..b.nodes[r.idx as int] };
    CollectorModel {
        batches: m.batches.update(
            r.batch as int,
            BatchModel { nodes: b.nodes.update(r.idx as int, nd), ..b },
        ),
        ..m
    }
}

/// Registering a reader at slot `s`: the reader count rises by one and
/// the reader's guard records the head it observed.
pub open spec fn spec_pin(m: CollectorModel, s: int) -> CollectorModel {
    let curr = m.slots[s];
    CollectorModel {
        slots: m.slots.update(s, NonAtomicHeadNode {
            head_ptr: curr.head_ptr,
            head_count: (curr.head_count + 1) as usize,
        }),
        ..m
    }
}

/// The guard handed to a reader that pins slot `s`.
pub open spec fn spec_pin_guard(m: CollectorModel, s: int) -> Guard {
    Guard { slot: s as usize, handle: m.slots[s].head_ptr }
}

/// Deregistering the reader holding guard `g`: the slot's count drops
/// (resetting the slot when the last reader leaves), a drained slot
/// credits `ADJS` to its departing head's batch, and if publications
/// happened since the reader pinned, the chain hanging off the prior
/// head is traversed.
pub open spec fn spec_unpin(m: CollectorModel, g: Guard) -> CollectorModel {
    let s = g.slot as int;
    let curr = m.slots[s];
    let new_slot = if curr.head_count == 1 {
        NonAtomicHeadNode { head_ptr: None, head_count: 0 }
    } else {
        NonAtomicHeadNode {
            head_ptr: curr.head_ptr,
            head_count: (curr.head_count - 1) as usize,
        }
    };
    let traverse_start: Option<NodeRef> = if curr.head_ptr != g.handle {
        match curr.head_ptr {
            None => None,
            Some(h) => m_node(m, h).list,
        }
    } else {
        None
    };
    let m1 = CollectorModel { slots: m.slots.update(s, new_slot), ..m };
    let m2 = if curr.head_count == 1 && curr.head_ptr.is_some() {
        spec_add_adjs(m1, curr.head_ptr, ADJS)
    } else {
        m1
    };
    match traverse_start {
        None => m2,
        Some(t) => spec_traverse(m2, t, g.handle),
    }
}

/// One step of publication: position `i` of the published batch's
/// chain is offered to slot `i`.  A slot with no readers rejects the
/// node (its chain link is cleared); otherwise the node becomes the new
/// head, linked to the prior head, and the prior head's batch is
/// credited with the reader count plus `ADJS`.
pub open spec fn spec_publish_step(m: CollectorModel, bid: int, i: int) -> CollectorModel {
    let b = m.batches[bid];
    let c = chain_pos_idx(b.size, i);
    let b1 = if i < SLOTS_LENGTH - 1 {
        spec_produce(b, c)
    } else {
        b
    };
    let m1 = CollectorModel { batches: m.batches.update(bid, b1), ..m };
    let v = NodeRef { batch: bid as usize, idx: c as usize };
    let slot = m.slots[i];
    if slot.head_count == 0 {
        spec_set_list(m1, v, None)
    } else {
        let m2 = CollectorModel {
            slots: m1.slots.update(i, NonAtomicHeadNode {
                head_ptr: Some(v),
                head_count: slot.head_count,
            }),
            ..m1
        };
        let m3 = spec_set_list(m2, v, slot.head_ptr);
        spec_add_adjs(m3, slot.head_ptr, ((slot.head_count + ADJS) as u64))
    }
}

/// Publication across all slots, from slot `i` on.
pub open spec fn spec_publish_loop(m: CollectorModel, bid: int, i: int) -> CollectorModel
    decreases SLOTS_LENGTH - i,
{
    if i < 0 || i >= SLOTS_LENGTH {
        m
    } else {
        spec_publish_loop(spec_publish_step(m, bid, i), bid, i + 1)
    }
}

/// Publication never touches the building batch.
pub proof fn lemma_publish_loop_building(m: CollectorModel, bid: int, i: int)
    ensures
        spec_publish_loop(m, bid, i).building == m.building,
    decreases SLOTS_LENGTH - i,
{
    if i < 0 || i >= SLOTS_LENGTH {
    } else {
        assert(spec_publish_step(m, bid, i).building == m.building);
        lemma_publish_loop_building(spec_publish_step(m, bid, i), bid, i + 1);
    }
}

/// The number of slots among the first `i` with no readers.
pub open spec fn count_empty(slots: Seq<NonAtomicHeadNode>, i: int) -> int
    decreases i,
{
    if i <= 0 {
        0
    } else {
        count_empty(slots, i - 1) + (if slots[i - 1].head_count == 0 {
            1int
        } else {
            0int
        })
    }
}

/// Publishing the building batch: it joins the arena, one node of its
/// chain is offered to every slot, and slots that rejected their node
/// (no readers to charge) are credited directly to the batch, `ADJS`
/// each.  An empty building batch publishes nothing.
pub open spec fn spec_process(m: CollectorModel) -> CollectorModel {
    if m.building.size == 0 {
        m
    } else {
        let bid = m.batches.len() as int;
        let nref_ref = NodeRef { batch: bid as usize, idx: (m.building.size - 1) as usize };
        let m1 = CollectorModel {
            batches: m.batches.push(m.building),
            freed: m.freed.push(false),
            building: BatchModel {
                id: (bid + 1) as usize,
                nodes: Seq::<Node>::empty(),
                size: 0,
                nref: 0,
            },
            ..m
        };
        let m2 = spec_publish_loop(m1, bid, 0);
        let e = count_empty(m.slots, SLOTS_LENGTH as int);
        if e > 0 {
            spec_add_adjs(m2, Some(nref_ref), (e as u64).wrapping_mul(ADJS))
        } else {
            m2
        }
    }
}

/// Handing a retirement node to the building batch; a full batch is
/// published first and the node then joins the fresh batch.
pub open spec fn spec_add_to_batch(m: CollectorModel, val: Node) -> CollectorModel {
    if m.building.size < BATCH_SIZE {
        CollectorModel { building: spec_add(m.building, val), ..m }
    } else {
        let m1 = spec_process(m);
        CollectorModel { building: spec_add(m1.building, val), ..m1 }
    }
}

/// Retiring a payload: it is wrapped in a fresh node and handed to the
/// building batch; retiring nothing changes nothing.
pub open spec fn spec_retire(m: CollectorModel, garbage: Option<u64>) -> CollectorModel {
    match garbage {
        None => m,
        Some(p) => spec_add_to_batch(
            m,
            Node { val: Some(p), list: None, batch: None, nref_node: None },
        ),
    }
}

/// What destroying a batch's payloads needs of the arena: the batch
/// exists, its real section is in bounds, and every real node carries a
/// payload.
pub open spec fn batch_destroy_req(m: CollectorModel, bid: int) -> bool {
    &&& 0 <= bid < m.batches.len()
    &&& m.batches[bid].size <= m.batches[bid].nodes.len()
    &&& forall|j: int|
        0 <= j < m.batches[bid].size ==> (#[trigger] m.batches[bid].nodes[j]).val.is_some()
}

/// What crediting through an optional node reference needs of the
/// arena: an absent reference needs nothing; a present one must point
/// at a node whose owning-batch stamp is a live arena position.
pub open spec fn add_adjs_req(m: CollectorModel, node: Option<NodeRef>) -> bool {
    match node {
        None => true,
        Some(r) => {
            &&& valid_ref(m, r)
            &&& m_node(m, r).nref_node.is_some()
            &&& batch_destroy_req(m, m_node(m, r).nref_node.unwrap() as int)
        },
    }
}

/// A structural change that only touches counters, freed flags and the
/// destruction log leaves the collector invariant intact.
pub proof fn lemma_counters_only_wf(m: CollectorModel, m2: CollectorModel)
    requires
        collector_wf(m),
        m2.slots == m.slots,
        m2.adjs == m.adjs,
        m2.building == m.building,
        m2.batches.len() == m.batches.len(),
        m2.freed.len() == m.freed.len(),
        forall|b: int|
            0 <= b < m.batches.len() ==> (#[trigger] m2.batches[b]).nodes == m.batches[b].nodes
                && m2.batches[b].id == m.batches[b].id && m2.batches[b].size == m.batches[b].size,
    ensures
        collector_wf(m2),
{
    assert forall|s: int| 0 <= s < SLOTS_LENGTH implies slot_ref_wf(
        m2,
        (#[trigger] m2.slots[s]).head_ptr,
    ) by {
        assert(slot_ref_wf(m, m.slots[s].head_ptr));
    }
    assert forall|b: int| 0 <= b < m2.batches.len() implies published_batch_wf(m2, b) by {
        assert(published_batch_wf(m, b));
        assert(chain_wf(m2.batches[b])) by {
            assert(m2.batches[b].nodes == m.batches[b].nodes);
        }
        assert forall|j: int| 0 <= j < m2.batches[b].nodes.len() implies node_links_wf(
            m2,
            b,
            #[trigger] m2.batches[b].nodes[j],
        ) by {
            assert(node_links_wf(m, b, m.batches[b].nodes[j]));
        }
    }
}

/// Crediting a batch's counter preserves the collector invariant.
pub proof fn lemma_spec_nref_add_wf(m: CollectorModel, bid: int, val: u64)
    requires
        collector_wf(m),
        0 <= bid < m.batches.len(),
    ensures
        collector_wf(spec_nref_add(m, bid, val)),
{
    lemma_counters_only_wf(m, spec_nref_add(m, bid, val));
}

/// Subtracting from a batch's counter preserves the collector
/// invariant.
pub proof fn lemma_spec_nref_sub1_wf(m: CollectorModel, bid: int)
    requires
        collector_wf(m),
        0 <= bid < m.batches.len(),
    ensures
        collector_wf(spec_nref_sub1(m, bid)),
{
    lemma_counters_only_wf(m, spec_nref_sub1(m, bid));
}

/// Crediting through a node reference preserves the collector
/// invariant.
pub proof fn lemma_spec_add_adjs_wf(m: CollectorModel, node: Option<NodeRef>, val: u64)
    requires
        collector_wf(m),
        add_adjs_req(m, node),
    ensures
        collector_wf(spec_add_adjs(m, node, val)),
{
    match node {
        None => {},
        Some(r) => {
            lemma_spec_nref_add_wf(m, m_node(m, r).nref_node.unwrap() as int, val);
        },
    }
}

/// A published batch stays well formed in a collector whose arena only
/// grew and whose copy of the batch differs at most in its counter.
pub proof fn lemma_batch_wf_transfer(m: CollectorModel, m2: CollectorModel, b: int)
    requires
        published_batch_wf(m, b),
        0 <= b < m.batches.len(),
        m2.batches.len() >= m.batches.len(),
        m2.batches[b].nodes == m.batches[b].nodes,
        m2.batches[b].id == m.batches[b].id,
        m2.batches[b].size == m.batches[b].size,
        forall|x: int|
            0 <= x < m.batches.len() ==> (#[trigger] m2.batches[x]).nodes.len()
                >= m.batches[x].nodes.len(),
    ensures
        published_batch_wf(m2, b),
{
    assert(chain_wf(m2.batches[b])) by {
        assert(m2.batches[b].nodes == m.batches[b].nodes);
    }
    assert forall|j: int| 0 <= j < m2.batches[b].nodes.len() implies node_links_wf(
        m2,
        b,
        #[trigger] m2.batches[b].nodes[j],
    ) by {
        assert(node_links_wf(m, b, m.batches[b].nodes[j]));
    }
}

/// Changing only the building batch — to another well-formed building
/// batch — preserves the collector invariant.
pub proof fn lemma_building_change_wf(m: CollectorModel, m2: CollectorModel)
    requires
        collector_wf(m),
        m2.slots == m.slots,
        m2.adjs == m.adjs,
        m2.batches == m.batches,
        m2.freed == m.freed,
        m2.building.id == m.building.id,
        m2.building.nref == m.building.nref,
        chain_wf(m2.building),
        m2.building.nodes.len() == m2.building.size,
        forall|j: int|
            0 <= j < m2.building.nodes.len() ==> (#[trigger] m2.building.nodes[j]).list.is_none(),
    ensures
        collector_wf(m2),
{
    assert forall|s: int| 0 <= s < SLOTS_LENGTH implies slot_ref_wf(
        m2,
        (#[trigger] m2.slots[s]).head_ptr,
    ) by {
        assert(slot_ref_wf(m, m.slots[s].head_ptr));
    }
    assert forall|b: int| 0 <= b < m2.batches.len() implies published_batch_wf(m2, b) by {
        assert(published_batch_wf(m, b));
        assert forall|j: int| 0 <= j < m2.batches[b].nodes.len() implies node_links_wf(
            m2,
            b,
            #[trigger] m2.batches[b].nodes[j],
        ) by {
            assert(node_links_wf(m, b, m.batches[b].nodes[j]));
        }
    }
}

/// A traversal only touches counters, so it preserves the collector
/// invariant; the arena's nodes and the slots are untouched.
pub proof fn lemma_spec_traverse_wf(m: CollectorModel, r: NodeRef, handle: Option<NodeRef>)
    requires
        collector_wf(m),
        valid_ref(m, r),
    ensures
        collector_wf(spec_traverse(m, r, handle)),
        spec_traverse(m, r, handle).slots == m.slots,
        spec_traverse(m, r, handle).building == m.building,
        spec_traverse(m, r, handle).batches.len() == m.batches.len(),
        forall|b: int|
            0 <= b < m.batches.len() ==> (#[trigger] spec_traverse(m, r, handle).batches[b]).nodes
                == m.batches[b].nodes,
    decreases r.batch,
{
    let bid = m_node(m, r).nref_node.unwrap() as int;
    assert(published_batch_wf(m, r.batch as int));
    assert(m_node(m, r).nref_node == Some(r.batch));
    let m1 = spec_nref_sub1(m, bid);
    lemma_spec_nref_sub1_wf(m, bid);
    let next = m_node(m, r).list;
    if next.is_none() || handle == Some(r) {
    } else if next.unwrap().batch < r.batch {
        assert(node_links_wf(m, r.batch as int, m_node(m, r)));
        assert(valid_ref(m1, next.unwrap()));
        lemma_spec_traverse_wf(m1, next.unwrap(), handle);
    }
}

#[verifier::external_type_specification]
#[verifier::external_body]
pub struct ExThreadRng(rand::rngs::ThreadRng);

/// Relies on rand::thread_rng: hands back the calling thread's lazily
/// initialized generator.  Nothing is promised of the values it will
/// produce; initialization failure aborts, as rand documents.
#[verifier::external_body]
fn fresh_thread_rng() -> rand::rngs::ThreadRng {
    rand::thread_rng()
}

/// Relies on rand::Rng::gen_range: a draw from the non-empty range
/// below SLOTS_LENGTH, so the result is always a valid slot index.
#[verifier::external_body]
fn get_slot(rng: &mut rand::rngs::ThreadRng) -> (r: usize)
    ensures
        r < SLOTS_LENGTH,
{
    rand::Rng::gen_range(rng, 0..SLOTS_LENGTH)
}

/// The collector: `SLOTS_LENGTH` reservation slots, the arena of
/// published batches with their freed flags, the log of destroyed
/// payloads, and the batch currently being built.
pub struct Collector {
    pub slots: Vec<HeadNode>,
    pub adjs: u64,
    pub batches: Vec<Batch>,
    pub freed: Vec<bool>,
    pub destroyed: Vec<u64>,
    pub building: Batch,
}

impl View for Collector {
    type V = CollectorModel;

    open spec fn view(&self) -> CollectorModel {
        CollectorModel {
            slots: Seq::new(self.slots@.len(), |i: int| self.slots@[i].head),
            adjs: self.adjs,
            batches: Seq::new(self.batches@.len(), |i: int| self.batches@[i]@),
            freed: self.freed@,
            destroyed: self.destroyed@,
            building: self.building@,
        }
    }
}

impl Collector {
    /// A fresh collector with empty slots and an empty building batch.
    pub fn new() -> (c: Collector)
        ensures
            c@ == spec_init(),
            collector_wf(c@),
    {
        let mut slots: Vec<HeadNode> = Vec::new();
        let mut i: usize = 0;
        while i < SLOTS_LENGTH
            invariant
                i <= SLOTS_LENGTH,
                slots@.len() == i,
                forall|j: int|
                    0 <= j < i ==> (#[trigger] slots@[j]).head == (NonAtomicHeadNode {
                        head_ptr: None,
                        head_count: 0,
                    }),
            decreases SLOTS_LENGTH - i,
        {
            slots.push(HeadNode::default());
            i = i + 1;
        }
        let c = Collector {
            slots,
            adjs: ADJS,
            batches: Vec::new(),
            freed: Vec::new(),
            destroyed: Vec::new(),
            building: Batch::new(),
        };
        proof {
            assert(c@.slots =~= spec_init().slots);
            assert(c@.batches =~= spec_init().batches);
            assert(c@ =~~= spec_init());
        }
        c
    }

    /// Marks batch `bid` freed and destroys its payloads: dropping the
    /// batch's chain head transitively drops every node it owns,
    /// running each real node's deferred destruction.
    fn free_batch(&mut self, bid: usize)
        requires
            bid < old(self)@.batches.len(),
            old(self)@.batches[bid as int].size <= old(self)@.batches[bid as int].nodes.len(),
            old(self)@.freed.len() == old(self)@.batches.len(),
            forall|j: int|
                0 <= j < old(self)@.batches[bid as int].size ==> (#[trigger] old(
                    self,
                )@.batches[bid as int].nodes[j]).val.is_some(),
        ensures
            final(self)@ == spec_free(old(self)@, bid as int),
    {
        self.freed.set(bid, true);
        let sz = self.batches[bid].get_size();
        let mut p: usize = 0;
        while p < sz
            invariant
                p <= sz,
                bid < self@.batches.len(),
                sz == self@.batches[bid as int].size,
                self@.batches[bid as int].size <= self@.batches[bid as int].nodes.len(),
                forall|j: int|
                    0 <= j < self@.batches[bid as int].size ==> (#[trigger] self@.batches[
                        bid as int
                    ].nodes[j]).val.is_some(),
                self@.slots == old(self)@.slots,
                self@.adjs == old(self)@.adjs,
                self@.batches == old(self)@.batches,
                self@.building == old(self)@.building,
                self@.freed == old(self)@.freed.update(bid as int, true),
                self@.destroyed == old(self)@.destroyed + batch_payloads(
                    old(self)@.batches[bid as int],
                ).take(p as int),
            decreases sz - p,
        {
            let b = &self.batches[bid];
            let nd = b.nodes[sz - 1 - p];
            let payload = match nd.val {
                Some(v) => v,
                None => 0,
            };
            self.destroyed.push(payload);
            proof {
                assert(self@.destroyed =~= old(self)@.destroyed + batch_payloads(
                    old(self)@.batches[bid as int],
                ).take(p + 1));
            }
            p = p + 1;
        }
        proof {
            assert(batch_payloads(old(self)@.batches[bid as int]).take(sz as int)
                =~= batch_payloads(old(self)@.batches[bid as int]));
            assert(final(self)@ =~~= spec_free(old(self)@, bid as int));
        }
    }

    /// Atomically credits `val` to the batch owning the node `node`
    /// points at, freeing that batch when its counter wraps to zero.
    pub(crate) fn add_adjs(&mut self, node: Option<NodeRef>, val: u64)
        requires
            add_adjs_req(old(self)@, node),
            old(self)@.freed.len() == old(self)@.batches.len(),
        ensures
            final(self)@ == spec_add_adjs(old(self)@, node, val),
    {
        match node {
            None => {},
            Some(r) => {
                let b = &self.batches[r.batch];
                let nd = b.nodes[r.idx];
                let bid = nd.get_batch_ptr();
                let bref = &mut self.batches[bid];
                let prev = bref.fetch_add_nref(val);
                proof {
                    assert(self@.batches =~= old(self)@.batches.update(
                        bid as int,
                        BatchModel {
                            nref: prev.wrapping_add(val),
                            ..old(self)@.batches[bid as int]
                        },
                    ));
                }
                if prev.wrapping_add(val) == 0 {
                    self.free_batch(bid);
                }
                proof {
                    assert(final(self)@ =~~= spec_add_adjs(old(self)@, node, val));
                }
            },
        }
    }

    /// Walks the per-slot chain from `start`, subtracting one from each
    /// visited node's batch counter (freeing batches that reach zero),
    /// and stops once the chain ends or the departing reader's own
    /// handle has been visited.
    #[verifier::rlimit(100)]
    pub(crate) fn traverse(&mut self, start: NodeRef, local_guard: &Guard)
        requires
            collector_wf(old(self)@),
            valid_ref(old(self)@, start),
        ensures
            collector_wf(final(self)@),
            final(self)@ == spec_traverse(old(self)@, start, local_guard.handle),
    {
        let ghost m0 = old(self)@;
        let mut current = start;
        loop
            invariant_except_break
                collector_wf(self@),
                valid_ref(self@, current),
                spec_traverse(self@, current, local_guard.handle) == spec_traverse(
                    m0,
                    start,
                    local_guard.handle,
                ),
            ensures
                collector_wf(self@),
                self@ == spec_traverse(m0, start, local_guard.handle),
            decreases current.batch,
        {
            let ghost m_pre = self@;
            proof {
                assert(published_batch_wf(m_pre, current.batch as int));
                assert(m_node(m_pre, current).nref_node == Some(current.batch));
            }
            let b = &self.batches[current.batch];
            let nd = b.nodes[current.idx];
            let next = nd.get_list();
            let bid = nd.get_batch_ptr();
            let bref = &mut self.batches[bid];
            let prev = bref.fetch_sub_nref(1);
            proof {
                assert(self@.batches =~= m_pre.batches.update(
                    bid as int,
                    BatchModel { nref: prev.wrapping_sub(1), ..m_pre.batches[bid as int] },
                ));
            }
            if prev.wrapping_sub(1) == 0 {
                self.free_batch(bid);
            }
            proof {
                assert(self@ =~~= spec_nref_sub1(m_pre, bid as int));
                lemma_spec_nref_sub1_wf(m_pre, bid as int);
            }
            if next.is_none() || local_guard.is_handle(Some(current)) {
                break;
            }
            proof {
                assert(node_links_wf(m_pre, current.batch as int, m_node(m_pre, current)));
            }
            current = next.unwrap();
        }
    }

    /// Registers the caller as a reader: a slot is chosen at random,
    /// its reader count rises by one, and the returned guard records
    /// the slot and the head observed there.
    pub fn pin(&mut self) -> (g: Guard)
        requires
            collector_wf(old(self)@),
            forall|s: int|
                0 <= s < SLOTS_LENGTH ==> (#[trigger] old(self)@.slots[s]).head_count
                    < HEAD_COUNT_LIMIT,
        ensures
            collector_wf(final(self)@),
            g.slot < SLOTS_LENGTH,
            g == spec_pin_guard(old(self)@, g.slot as int),
            final(self)@ == spec_pin(old(self)@, g.slot as int),
    {
        let mut rng = fresh_thread_rng();
        let slot = get_slot(&mut rng);
        proof {
            assert(old(self)@.slots[slot as int].head_count < HEAD_COUNT_LIMIT);
        }
        let sref = &mut self.slots[slot];
        let prev = sref.pin_slot();
        let g = Guard::new(slot, prev.get_guard_handle());
        proof {
            assert(self@.slots =~= spec_pin(old(self)@, slot as int).slots);
            assert(self@ =~~= spec_pin(old(self)@, slot as int));
            assert forall|s: int| 0 <= s < SLOTS_LENGTH implies slot_ref_wf(
                self@,
                (#[trigger] self@.slots[s]).head_ptr,
            ) by {
                assert(slot_ref_wf(old(self)@, old(self)@.slots[s].head_ptr));
            }
            assert forall|b: int| 0 <= b < self@.batches.len() implies published_batch_wf(
                self@,
                b,
            ) by {
                assert(published_batch_wf(old(self)@, b));
                assert forall|j: int|
                    0 <= j < self@.batches[b].nodes.len() implies node_links_wf(
                    self@,
                    b,
                    #[trigger] self@.batches[b].nodes[j],
                ) by {
                    assert(node_links_wf(old(self)@, b, old(self)@.batches[b].nodes[j]));
                }
            }
        }
        g
    }

    /// Deregisters the reader holding `local_guard`.  The slot's count
    /// drops (the last reader resets the slot and credits `ADJS` to the
    /// departing head's batch), and if the head moved since the reader
    /// pinned, the chain hanging off the prior head is traversed so
    /// every batch the reader passed over is paid out.
    #[verifier::rlimit(100)]
    pub fn unpin(&mut self, local_guard: Guard)
        requires
            collector_wf(old(self)@),
            local_guard.slot < SLOTS_LENGTH,
            old(self)@.slots[local_guard.slot as int].head_count >= 1,
        ensures
            collector_wf(final(self)@),
            final(self)@ == spec_unpin(old(self)@, local_guard),
    {
        let ghost m0 = old(self)@;
        let s = local_guard.get_slot();
        let sref = &mut self.slots[s];
        let curr = sref.unpin_slot();
        proof {
            assert(self@.slots =~= m0.slots.update(
                s as int,
                if curr.head_count == 1 {
                    NonAtomicHeadNode { head_ptr: None, head_count: 0 }
                } else {
                    NonAtomicHeadNode {
                        head_ptr: curr.head_ptr,
                        head_count: (curr.head_count - 1) as usize,
                    }
                },
            ));
            assert forall|t: int| 0 <= t < SLOTS_LENGTH implies slot_ref_wf(
                self@,
                (#[trigger] self@.slots[t]).head_ptr,
            ) by {
                assert(slot_ref_wf(m0, m0.slots[t].head_ptr));
            }
            assert forall|b: int| 0 <= b < self@.batches.len() implies published_batch_wf(
                self@,
                b,
            ) by {
                assert(published_batch_wf(m0, b));
                assert forall|j: int|
                    0 <= j < self@.batches[b].nodes.len() implies node_links_wf(
                    self@,
                    b,
                    #[trigger] self@.batches[b].nodes[j],
                ) by {
                    assert(node_links_wf(m0, b, m0.batches[b].nodes[j]));
                }
            }
        }
        let ghost m1 = self@;
        let mut traverse_node: Option<NodeRef> = None;
        if !local_guard.is_handle(curr.get_guard_handle()) {
            traverse_node = match curr.head_ptr {
                None => None,
                Some(h) => {
                    proof {
                        assert(slot_ref_wf(m0, Some(h)));
                    }
                    let b = &self.batches[h.batch];
                    b.nodes[h.idx].get_list()
                },
            };
        }
        if curr.head_count == 1 && curr.head_ptr.is_some() {
            proof {
                match curr.head_ptr {
                    None => {},
                    Some(h) => {
                        assert(slot_ref_wf(m0, Some(h)));
                        assert(published_batch_wf(m1, h.batch as int));
                        assert(m_node(m1, h).nref_node == Some(h.batch));
                        assert(add_adjs_req(m1, curr.head_ptr));
                    },
                }
            }
            self.add_adjs(curr.get_guard_handle(), ADJS);
            proof {
                lemma_spec_add_adjs_wf(m1, curr.head_ptr, ADJS);
            }
        }
        let ghost m2 = self@;
        match traverse_node {
            None => {},
            Some(t) => {
                proof {
                    let h = curr.head_ptr.unwrap();
                    assert(published_batch_wf(m0, h.batch as int));
                    assert(node_links_wf(m0, h.batch as int, m_node(m0, h)));
                    assert(valid_ref(m2, t));
                }
                self.traverse(t, &local_guard);
            },
        }
        proof {
            assert(final(self)@ == spec_unpin(m0, local_guard));
        }
    }

    /// Sets the per-slot chain link of the node `r` points at.
    fn set_node_list(&mut self, r: NodeRef, l: Option<NodeRef>)
        requires
            valid_ref(old(self)@, r),
        ensures
            final(self)@ == spec_set_list(old(self)@, r, l),
    {
        let bref = &mut self.batches[r.batch];
        let mut nd = bref.nodes[r.idx];
        nd.set_list(l);
        bref.nodes.set(r.idx, nd);
        proof {
            assert(final(self)@.batches =~~= spec_set_list(old(self)@, r, l).batches);
            assert(final(self)@ =~~= spec_set_list(old(self)@, r, l));
        }
    }

    /// Publishes the building batch.  Each slot is offered one node of
    /// the batch's chain, fillers standing in for missing retirements;
    /// an accepting slot links the node to its prior head and credits
    /// the prior head's batch with the reader count plus `ADJS`, while
    /// each slot with no readers is afterwards credited directly to the
    /// published batch.  Runs when the building batch fills, and is
    /// called directly to flush a partial batch, as a thread's exit
    /// would.
    #[verifier::rlimit(100)]
    pub fn process_batch_handle(&mut self)
        requires
            collector_wf(old(self)@),
            old(self)@.batches.len() + 2 < usize::MAX,
        ensures
            collector_wf(final(self)@),
            final(self)@ == spec_process(old(self)@),
    {
        let ghost m0 = old(self)@;
        let sz = self.building.get_size();
        if sz == 0 {
            return;
        }
        let bid = self.batches.len();
        let nref_node = self.building.get_node_nref();
        let mut fresh = Batch::new_with_id(bid + 1);
        core::mem::swap(&mut self.building, &mut fresh);
        self.batches.push(fresh);
        self.freed.push(false);
        proof {
            assert(self@.batches =~= m0.batches.push(m0.building));
            assert(self@ =~~= (CollectorModel {
                batches: m0.batches.push(m0.building),
                freed: m0.freed.push(false),
                building: BatchModel {
                    id: (bid + 1) as usize,
                    nodes: Seq::<Node>::empty(),
                    size: 0,
                    nref: 0,
                },
                ..m0
            }));
        }
        let ghost m1 = self@;
        proof {
            assert forall|b: int| 0 <= b < bid implies published_batch_wf(m1, b) by {
                assert(published_batch_wf(m0, b));
                lemma_batch_wf_transfer(m0, m1, b);
            }
            assert forall|j: int| 0 <= j < SLOTS_LENGTH implies slot_ref_wf(
                m1,
                (#[trigger] m1.slots[j]).head_ptr,
            ) by {
                assert(slot_ref_wf(m0, m0.slots[j].head_ptr));
            }
        }
        let bref0 = &self.batches[bid];
        let mut batch_iter = bref0.iter();
        let mut empty_slots: usize = 0;
        let mut i: usize = 0;
        while i < SLOTS_LENGTH
            invariant
                0 <= i <= SLOTS_LENGTH,
                1 <= sz <= BATCH_SIZE,
                collector_wf(m0),
                m0.batches.len() == bid as int,
                m1.batches == m0.batches.push(m0.building),
                sz as int == m0.building.size,
                sz as int == m1.batches[bid as int].size,
                self@.batches.len() == bid + 1,
                self@.freed.len() == self@.batches.len(),
                self@.slots.len() == SLOTS_LENGTH,
                self@.adjs == ADJS,
                m1.slots.len() == SLOTS_LENGTH,
                m1.slots == m0.slots,
                self@.building == m1.building,
                m1.building == (BatchModel {
                    id: (bid + 1) as usize,
                    nodes: Seq::<Node>::empty(),
                    size: 0,
                    nref: 0,
                }),
                batch_iter.len == SLOTS_LENGTH - i,
                i < SLOTS_LENGTH ==> batch_iter.current == Some(
                    chain_pos_idx(sz as int, i as int) as usize,
                ),
                ({
                    let bb = self@.batches[bid as int];
                    &&& bb.id == bid
                    &&& bb.size == sz as int
                    &&& chain_wf(bb)
                    &&& bb.nodes.len() == chain_len_at(sz as int, i as int)
                    &&& (i < SLOTS_LENGTH ==> chain_pos_idx(sz as int, i as int)
                        < bb.nodes.len())
                    &&& forall|j: int|
                        0 <= j < bb.nodes.len() ==> node_links_wf(
                            self@,
                            bid as int,
                            #[trigger] bb.nodes[j],
                        )
                }),
                forall|j: int| i <= j < SLOTS_LENGTH ==> self@.slots[j] == m1.slots[j],
                forall|j: int|
                    0 <= j < SLOTS_LENGTH ==> (#[trigger] self@.slots[j]).head_count
                        <= HEAD_COUNT_LIMIT,
                forall|j: int|
                    0 <= j < SLOTS_LENGTH ==> ((#[trigger] self@.slots[j]).head_count == 0
                        ==> self@.slots[j].head_ptr.is_none()),
                forall|j: int|
                    0 <= j < SLOTS_LENGTH ==> slot_ref_wf(
                        self@,
                        (#[trigger] self@.slots[j]).head_ptr,
                    ),
                forall|b: int| 0 <= b < bid ==> published_batch_wf(self@, b),
                empty_slots as int == count_empty(m1.slots, i as int),
                empty_slots <= i,
                spec_publish_loop(m1, bid as int, 0) == spec_publish_loop(
                    self@,
                    bid as int,
                    i as int,
                ),
            decreases SLOTS_LENGTH - i,
        {
            let ghost m_pre = self@;
            let c = batch_iter.current.unwrap();
            proof {
                if i < SLOTS_LENGTH - 1 {
                    lemma_chain_next(m_pre.batches[bid as int], i as int);
                }
            }
            let bref = &mut self.batches[bid];
            let yielded = batch_iter.next(bref);
            proof {
                let bb1 = if (i as int) < SLOTS_LENGTH - 1 {
                    spec_produce(m_pre.batches[bid as int], c as int)
                } else {
                    m_pre.batches[bid as int]
                };
                assert(self@.batches =~~= m_pre.batches.update(bid as int, bb1));
                assert(self@ =~~= (CollectorModel {
                    batches: m_pre.batches.update(bid as int, bb1),
                    ..m_pre
                }));
                crate::batch::lemma_produce_preserves_chain_wf(
                    m_pre.batches[bid as int],
                    c as int,
                );
            }
            let ghost m_a = self@;
            let vref = NodeRef { batch: bid, idx: c };
            let sref = &mut self.slots[i];
            let res = sref.add_to_slot(vref);
            match res {
                Ok(prev) => {
                    proof {
                        assert(self@.slots =~= m_a.slots.update(
                            i as int,
                            NonAtomicHeadNode {
                                head_ptr: Some(vref),
                                head_count: prev.head_count,
                            },
                        ));
                        assert(self@ =~~= (CollectorModel {
                            slots: m_a.slots.update(i as int, NonAtomicHeadNode {
                                head_ptr: Some(vref),
                                head_count: prev.head_count,
                            }),
                            ..m_a
                        }));
                    }
                    let ghost m_b = self@;
                    self.set_node_list(vref, prev.get_guard_handle());
                    let ghost m_c = self@;
                    proof {
                        match prev.head_ptr {
                            None => {},
                            Some(h) => {
                                assert(prev == m_pre.slots[i as int]);
                                assert(m_pre.slots[i as int] == m0.slots[i as int]);
                                assert(slot_ref_wf(m0, m0.slots[i as int].head_ptr));
                                assert(h.batch < bid);
                                assert(published_batch_wf(m_pre, h.batch as int));
                                assert(m_node(m_c, h) == m_node(m_pre, h));
                                assert(m_node(m_c, h).nref_node == Some(h.batch));
                                assert(add_adjs_req(m_c, Some(h)));
                            },
                        }
                        assert(prev.head_count + ADJS <= u64::MAX);
                    }
                    let cnt64: u64 = prev.head_count as u64;
                    self.add_adjs(prev.get_guard_handle(), cnt64 + ADJS);
                    proof {
                        assert(self@ == spec_publish_step(m_pre, bid as int, i as int));
                    }
                },
                Err(()) => {
                    self.set_node_list(vref, None);
                    empty_slots = empty_slots + 1;
                    proof {
                        assert(self@ == spec_publish_step(m_pre, bid as int, i as int));
                    }
                },
            }
            proof {
                assert(spec_publish_loop(m_pre, bid as int, i as int) == spec_publish_loop(
                    self@,
                    bid as int,
                    i as int + 1,
                ));
                let m_post = self@;
                assert forall|x: int|
                    0 <= x < m_pre.batches.len() implies (#[trigger] m_post.batches[x]).nodes.len()
                    >= m_pre.batches[x].nodes.len() by {}
                assert forall|b: int| 0 <= b < bid implies published_batch_wf(m_post, b) by {
                    assert(published_batch_wf(m_pre, b));
                    assert(m_post.batches[b].nodes == m_pre.batches[b].nodes);
                    assert(m_post.batches[b].id == m_pre.batches[b].id);
                    assert(m_post.batches[b].size == m_pre.batches[b].size);
                    lemma_batch_wf_transfer(m_pre, m_post, b);
                }
                let c_i = chain_pos_idx(sz as int, i as int);
                let bb_pre = m_pre.batches[bid as int];
                let bb1 = if (i as int) < SLOTS_LENGTH - 1 {
                    spec_produce(bb_pre, c_i)
                } else {
                    bb_pre
                };
                let bb_post = m_post.batches[bid as int];
                assert(bb_post.nodes.len() == bb1.nodes.len());
                assert forall|j: int|
                    0 <= j < bb1.nodes.len() implies (#[trigger] bb_post.nodes[j]).val
                    == bb1.nodes[j].val && bb_post.nodes[j].batch == bb1.nodes[j].batch
                    && bb_post.nodes[j].nref_node == bb1.nodes[j].nref_node by {}
                crate::batch::lemma_chain_wf_list_irrelevant(bb1, bb_post);
                assert forall|j: int| 0 <= j < bb_post.nodes.len() implies node_links_wf(
                    m_post,
                    bid as int,
                    #[trigger] bb_post.nodes[j],
                ) by {
                    if j == c_i {
                        if m_pre.slots[i as int].head_count == 0 {
                            assert(bb_post.nodes[j].list.is_none());
                        } else {
                            assert(bb_post.nodes[j].list == m_pre.slots[i as int].head_ptr);
                            assert(m_pre.slots[i as int] == m0.slots[i as int]);
                            assert(slot_ref_wf(m0, (m0.slots[i as int]).head_ptr));
                            match m0.slots[i as int].head_ptr {
                                None => {},
                                Some(h) => {
                                    assert(valid_ref(m0, h));
                                    assert(h.batch < bid);
                                    assert(published_batch_wf(m0, h.batch as int));
                                    assert(published_batch_wf(m_post, h.batch as int));
                                    assert(m_post.batches[h.batch as int].nodes.len()
                                        == SLOTS_LENGTH);
                                },
                            }
                        }
                    } else if j < bb_pre.nodes.len() {
                        assert(bb_post.nodes[j].list == bb_pre.nodes[j].list);
                        assert(node_links_wf(m_pre, bid as int, bb_pre.nodes[j]));
                    } else {
                        assert(bb_post.nodes[j].list.is_none());
                    }
                }
            }
            i = i + 1;
        }
        let ghost m_exit = self@;
        proof {
            assert(spec_publish_loop(m_exit, bid as int, SLOTS_LENGTH as int) == m_exit);
            assert(m_exit == spec_publish_loop(m1, bid as int, 0));
            assert(collector_wf(m_exit)) by {
                assert(chain_len_at(sz as int, SLOTS_LENGTH as int) == SLOTS_LENGTH as int);
                assert(published_batch_wf(m_exit, bid as int));
            }
        }
        if empty_slots > 0 {
            proof {
                let r = NodeRef { batch: bid, idx: (sz - 1) as usize };
                assert(nref_node == Some(r));
                assert(m_node(m_exit, r).nref_node == Some(bid));
                assert(add_adjs_req(m_exit, nref_node));
                lemma_spec_add_adjs_wf(m_exit, nref_node, (empty_slots as u64).wrapping_mul(ADJS));
            }
            self.add_adjs(nref_node, (empty_slots as u64).wrapping_mul(ADJS));
        }
        proof {
            assert(count_empty(m1.slots, SLOTS_LENGTH as int) == count_empty(
                m0.slots,
                SLOTS_LENGTH as int,
            ));
            assert(final(self)@ == spec_process(m0));
        }
    }

    /// Hands a retirement node to the building batch; when the batch is
    /// already full it is published first and the node joins the fresh
    /// batch.
    #[verifier::rlimit(100)]
    pub fn add_to_batch(&mut self, val: Node)
        requires
            collector_wf(old(self)@),
            old(self)@.batches.len() + 2 < usize::MAX,
            val.val.is_some(),
            val.list.is_none(),
        ensures
            collector_wf(final(self)@),
            final(self)@ == spec_add_to_batch(old(self)@, val),
    {
        let res = self.building.add(val);
        match res {
            Ok(()) => {
                proof {
                    assert(final(self)@ =~~= spec_add_to_batch(old(self)@, val));
                    assert forall|j: int|
                        0 <= j < final(self)@.building.nodes.len() implies (#[trigger] final(self)@.building.nodes[j]).list.is_none() by {
                        if j < old(self)@.building.nodes.len() {
                            assert(old(self)@.building.nodes[j].list.is_none());
                        }
                    }
                    lemma_building_change_wf(old(self)@, final(self)@);
                }
            },
            Err(v) => {
                proof {
                    assert(old(self)@.building.size >= BATCH_SIZE);
                    assert(v == val);
                }
                self.process_batch_handle();
                let ghost m1 = self@;
                proof {
                    assert(m1 == spec_process(old(self)@));
                    let mp = CollectorModel {
                        batches: old(self)@.batches.push(old(self)@.building),
                        freed: old(self)@.freed.push(false),
                        building: BatchModel {
                            id: (old(self)@.batches.len() + 1) as usize,
                            nodes: Seq::<Node>::empty(),
                            size: 0,
                            nref: 0,
                        },
                        ..old(self)@
                    };
                    lemma_publish_loop_building(mp, old(self)@.batches.len() as int, 0);
                    assert(m1.building.size == 0);
                    assert(chain_wf(m1.building));
                }
                let res2 = self.building.add(v);
                proof {
                    assert(res2 == Result::<(), Node>::Ok(()));
                    assert(final(self)@ =~~= spec_add_to_batch(old(self)@, val));
                    assert forall|j: int|
                        0 <= j < final(self)@.building.nodes.len() implies (#[trigger] final(self)@.building.nodes[j]).list.is_none() by {
                        if j < m1.building.nodes.len() {
                            assert(m1.building.nodes[j].list.is_none());
                        }
                    }
                    lemma_building_change_wf(m1, final(self)@);
                }
            },
        }
    }

    /// The payloads whose deferred destruction has run, in the order
    /// it ran.
    pub fn destroyed(&self) -> (r: &Vec<u64>)
        ensures
            r@ == self@.destroyed,
    {
        &self.destroyed
    }

    /// The number of batches published so far.
    pub fn batch_count(&self) -> (r: usize)
        ensures
            r == self@.batches.len(),
    {
        self.batches.len()
    }

    /// Whether published batch `bid` has been freed.
    pub fn is_batch_freed(&self, bid: usize) -> (r: bool)
        requires
            bid < self@.freed.len(),
        ensures
            r == self@.freed[bid as int],
    {
        self.freed[bid]
    }

    /// The current value of slot `i`.
    pub fn load_slot(&self, i: usize) -> (r: NonAtomicHeadNode)
        requires
            i < self@.slots.len(),
        ensures
            r == self@.slots[i as int],
    {
        self.slots[i].load()
    }

    /// Whether the building batch is full.
    pub fn is_full(&self) -> (r: bool)
        ensures
            r == (self@.building.size == BATCH_SIZE),
    {
        self.building.is_full()
    }

    /// The number of retirements waiting in the building batch.
    pub fn get_size(&self) -> (r: usize)
        ensures
            r == self@.building.size,
    {
        self.building.get_size()
    }

    /// Retires a payload under a live guard: the payload is wrapped in
    /// a fresh node and handed to the building batch for deferred
    /// destruction.  Retiring nothing changes nothing.  The guard is
    /// only the caller's evidence of being pinned.
    pub fn retire(&mut self, garbage: Option<u64>, _local_guard: &Guard)
        requires
            collector_wf(old(self)@),
            old(self)@.batches.len() + 2 < usize::MAX,
        ensures
            collector_wf(final(self)@),
            final(self)@ == spec_retire(old(self)@, garbage),
    {
        match garbage {
            None => {},
            Some(g) => {
                let garb_node = Node::new(g);
                self.add_to_batch(garb_node);
            },
        }
    }
}

} // verus!
