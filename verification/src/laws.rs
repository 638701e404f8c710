//! The laws of the reclamation engine, stated over the collector's
//! mathematical model and proved from the `spec_` transitions that the
//! executable operations are verified to perform.
//!
//! The central facts: a pin immediately undone leaves the collector
//! untouched; publishing with no readers destroys the batch's payloads
//! on the spot; publishing under readers defers destruction, and the
//! batch is freed exactly when the last contribution arrives — the
//! counter receives one `ADJS` per slot, and `SLOTS_LENGTH` of those
//! wrap a 64-bit word back to zero.

use vstd::prelude::*;

use crate::batch::{
    chain_len_at, chain_pos_idx, chain_wf, lemma_chain_next, lemma_chain_wf_list_irrelevant,
    lemma_produce_preserves_chain_wf, spec_add, spec_produce, BatchModel,
};
use crate::collector::{
    batch_destroy_req, batch_payloads, collector_wf, count_empty, m_node, node_links_wf,
    published_batch_wf,
    slot_ref_wf, spec_add_adjs, spec_nref_add, spec_nref_sub1, spec_pin, spec_pin_guard,
    spec_process, spec_publish_loop, spec_publish_step, spec_retire, spec_set_list, spec_traverse,
    spec_unpin, valid_ref, CollectorModel,
};
use crate::guard::Guard;
use crate::headnode::NonAtomicHeadNode;
use crate::node::{Node, NodeRef};
use crate::{ADJS, BATCH_SIZE, HEAD_COUNT_LIMIT, SLOTS_LENGTH};

verus! {

/// `k` per-slot contributions of `ADJS` wrap a 64-bit counter to zero
/// exactly when all `SLOTS_LENGTH` have arrived (or none has): the
/// constant is chosen so that the full set of slots sums to 2^64.
pub proof fn lemma_adjs_wrap(k: int)
    requires
        0 <= k <= SLOTS_LENGTH,
    ensures
        k < SLOTS_LENGTH ==> (k as u64).wrapping_mul(ADJS) == k * (ADJS as int),
        k == SLOTS_LENGTH ==> (k as u64).wrapping_mul(ADJS) == 0,
        ((k as u64).wrapping_mul(ADJS) == 0) <==> (k == 0 || k == SLOTS_LENGTH),
{
    assert((ADJS as int) == 0x400000000000000);
    if k < SLOTS_LENGTH {
        assert(0 <= k * 0x400000000000000 < 0x10000000000000000 && (k >= 1 ==> k
            * 0x400000000000000 >= 0x400000000000000) && (k as nat * 0x400000000000000nat)
            % 0x10000000000000000nat == k as nat * 0x400000000000000nat) by (nonlinear_arith)
            requires
                0 <= k < 64,
        ;
    } else {
        assert((64nat * 0x400000000000000nat) % 0x10000000000000000nat == 0nat)
            by (nonlinear_arith);
    }
}

/// Adding one more `ADJS` contribution moves a counter holding `k`
/// contributions to one holding `k + 1`.
pub proof fn lemma_adjs_step(k: int)
    requires
        0 <= k < SLOTS_LENGTH,
    ensures
        ((k as u64).wrapping_mul(ADJS)).wrapping_add(ADJS) == ((k + 1) as u64).wrapping_mul(ADJS),
{
    lemma_adjs_wrap(k);
    lemma_adjs_wrap(k + 1);
    assert((ADJS as int) == 0x400000000000000);
    assert((k + 1) * 0x400000000000000 == k * 0x400000000000000 + 0x400000000000000)
        by (nonlinear_arith);
}

/// Pinning a slot and dropping the guard straight away leaves every
/// slot — indeed the whole collector — exactly as it was before the
/// pin: nothing is credited and nothing is traversed.
pub proof fn lemma_pin_unpin_identity(m: CollectorModel, s: int)
    requires
        collector_wf(m),
        0 <= s < SLOTS_LENGTH,
        m.slots[s].head_count < HEAD_COUNT_LIMIT,
    ensures
        spec_unpin(spec_pin(m, s), spec_pin_guard(m, s)) == m,
{
    let m1 = spec_pin(m, s);
    let g = spec_pin_guard(m, s);
    let curr = m1.slots[s];
    assert(curr.head_ptr == m.slots[s].head_ptr);
    assert(curr.head_count == m.slots[s].head_count + 1);
    let m2 = spec_unpin(m1, g);
    if curr.head_count == 1 {
        assert(m.slots[s].head_count == 0);
        assert(m.slots[s].head_ptr.is_none());
        assert(m1.slots.update(s, NonAtomicHeadNode { head_ptr: None, head_count: 0 })
            =~= m.slots);
    } else {
        assert(m1.slots.update(
            s,
            NonAtomicHeadNode {
                head_ptr: curr.head_ptr,
                head_count: (curr.head_count - 1) as usize,
            },
        ) =~= m.slots);
    }
    assert(m2 =~~= m);
}

/// The shape of a collector in which batch `bid` has been published
/// and still awaits contributions: its counter holds `credits` of the
/// eventual `SLOTS_LENGTH` `ADJS` credits, it has not been freed, and
/// none of its nodes links to an older chain (each was published into
/// a slot with no prior head, or declined by an empty slot).
pub open spec fn pending_batch_state(m: CollectorModel, bid: int, credits: int) -> bool {
    &&& collector_wf(m)
    &&& 0 <= bid < m.batches.len()
    &&& 0 <= credits < SLOTS_LENGTH
    &&& m.batches[bid].nref == (credits as u64).wrapping_mul(ADJS)
    &&& !m.freed[bid]
    &&& forall|j: int|
        0 <= j < m.batches[bid].nodes.len() ==> (#[trigger] m.batches[bid].nodes[j]).list.is_none()
}

/// Bounds on the count of empty slots; a full count means every slot
/// is empty.
pub proof fn lemma_count_empty_bounds(slots: Seq<NonAtomicHeadNode>, i: int)
    requires
        0 <= i,
    ensures
        0 <= count_empty(slots, i) <= i,
        count_empty(slots, i) == i ==> forall|s: int|
            0 <= s < i ==> (#[trigger] slots[s]).head_count == 0,
    decreases i,
{
    if i > 0 {
        lemma_count_empty_bounds(slots, i - 1);
    }
}

/// Slots that all hold readers contribute nothing to the empty count.
pub proof fn lemma_count_empty_none(slots: Seq<NonAtomicHeadNode>, i: int)
    requires
        0 <= i,
        forall|s: int| 0 <= s < i ==> (#[trigger] slots[s]).head_count >= 1,
    ensures
        count_empty(slots, i) == 0,
    decreases i,
{
    if i > 0 {
        lemma_count_empty_none(slots, i - 1);
    }
}

/// With exactly one occupied slot, every other slot counts as empty.
pub proof fn lemma_count_empty_except(slots: Seq<NonAtomicHeadNode>, i: int, s0: int)
    requires
        0 <= i,
        forall|s: int| 0 <= s < i && s != s0 ==> (#[trigger] slots[s]).head_count == 0,
        0 <= s0,
        slots.len() > s0,
        slots[s0].head_count >= 1,
    ensures
        count_empty(slots, i) == if s0 < i {
            i - 1
        } else {
            i
        },
    decreases i,
{
    if i > 0 {
        lemma_count_empty_except(slots, i - 1, s0);
    }
}

/// Publication into slots that hold no head yet: an empty slot
/// declines its node, a pinned slot accepts it with nothing to pay
/// (there is no displaced head to credit), so the loop touches neither
/// the batch's counter nor the destruction log, and every accepted
/// node's chain link stays clear.
#[verifier::rlimit(100)]
pub proof fn lemma_publish_loop_uniform(m: CollectorModel, bid: int, sz: int, i: int)
    requires
        0 <= i <= SLOTS_LENGTH,
        1 <= sz <= BATCH_SIZE,
        0 <= bid < m.batches.len(),
        m.slots.len() == SLOTS_LENGTH,
        m.batches[bid].id == bid,
        m.batches[bid].size == sz,
        m.batches[bid].nref == 0,
        chain_wf(m.batches[bid]),
        m.batches[bid].nodes.len() == chain_len_at(sz, i),
        i < SLOTS_LENGTH ==> chain_pos_idx(sz, i) < m.batches[bid].nodes.len(),
        forall|j: int|
            0 <= j < m.batches[bid].nodes.len() ==> (#[trigger] m.batches[bid].nodes[j]).list.is_none(),
        forall|s: int| i <= s < SLOTS_LENGTH ==> (#[trigger] m.slots[s]).head_ptr.is_none(),
    ensures
        ({
            let m2 = spec_publish_loop(m, bid, i);
            &&& m2.destroyed == m.destroyed
            &&& m2.freed == m.freed
            &&& m2.building == m.building
            &&& m2.adjs == m.adjs
            &&& m2.batches.len() == m.batches.len()
            &&& forall|b: int|
                0 <= b < m.batches.len() && b != bid ==> m2.batches[b] == m.batches[b]
            &&& m2.batches[bid].id == bid
            &&& m2.batches[bid].size == sz
            &&& m2.batches[bid].nref == 0
            &&& chain_wf(m2.batches[bid])
            &&& m2.batches[bid].nodes.len() == chain_len_at(sz, SLOTS_LENGTH as int)
            &&& forall|j: int|
                0 <= j < m2.batches[bid].nodes.len() ==> (#[trigger] m2.batches[bid].nodes[j]).list.is_none()
            &&& batch_payloads(m2.batches[bid]) == batch_payloads(m.batches[bid])
            &&& m2.slots.len() == SLOTS_LENGTH
            &&& forall|s: int| 0 <= s < i ==> m2.slots[s] == m.slots[s]
            &&& forall|s: int|
                i <= s < SLOTS_LENGTH ==> m2.slots[s] == (if (#[trigger] m.slots[s]).head_count
                    == 0 {
                    m.slots[s]
                } else {
                    NonAtomicHeadNode {
                        head_ptr: Some(NodeRef {
                            batch: bid as usize,
                            idx: chain_pos_idx(sz, s) as usize,
                        }),
                        head_count: m.slots[s].head_count,
                    }
                })
        }),
    decreases SLOTS_LENGTH - i,
{
    if i >= SLOTS_LENGTH {
        assert(chain_len_at(sz, i) == chain_len_at(sz, SLOTS_LENGTH as int));
    } else {
        let c = chain_pos_idx(sz, i);
        let b = m.batches[bid];
        if i < SLOTS_LENGTH - 1 {
            lemma_chain_next(b, i);
        }
        lemma_produce_preserves_chain_wf(b, c);
        let b1 = if i < SLOTS_LENGTH - 1 {
            spec_produce(b, c)
        } else {
            b
        };
        let ms = spec_publish_step(m, bid, i);
        let bs = ms.batches[bid];
        assert(bs.nodes.len() == b1.nodes.len());
        assert forall|j: int|
            0 <= j < b1.nodes.len() implies (#[trigger] bs.nodes[j]).val == b1.nodes[j].val
            && bs.nodes[j].batch == b1.nodes[j].batch && bs.nodes[j].nref_node
            == b1.nodes[j].nref_node by {}
        lemma_chain_wf_list_irrelevant(b1, bs);
        assert forall|j: int| 0 <= j < bs.nodes.len() implies (#[trigger] bs.nodes[j]).list.is_none() by {
            if j != c {
                if j < b.nodes.len() {
                    assert(b.nodes[j].list.is_none());
                }
            }
        }
        assert(batch_payloads(bs) =~= batch_payloads(b));
        if i + 1 < SLOTS_LENGTH {
            assert(chain_pos_idx(sz, i + 1) < bs.nodes.len());
        } else {
            assert(bs.nodes.len() == chain_len_at(sz, i + 1));
        }
        lemma_publish_loop_uniform(ms, bid, sz, i + 1);
        assert(spec_publish_loop(m, bid, i) == spec_publish_loop(ms, bid, i + 1));
        let m2 = spec_publish_loop(m, bid, i);
        assert forall|s: int|
            i <= s < SLOTS_LENGTH implies m2.slots[s] == (if (#[trigger] m.slots[s]).head_count
            == 0 {
            m.slots[s]
        } else {
            NonAtomicHeadNode {
                head_ptr: Some(NodeRef {
                    batch: bid as usize,
                    idx: chain_pos_idx(sz, s) as usize,
                }),
                head_count: m.slots[s].head_count,
            }
        }) by {
            if s == i {
                assert(m2.slots[s] == ms.slots[s]);
            } else {
                assert(ms.slots[s] == m.slots[s]);
            }
        }
    }
}

/// Publication while exactly one slot is occupied — by one reader and
/// the head `h0` of an earlier batch.  That slot accepts its node,
/// linking it to `h0` and crediting `h0`'s batch with the reader count
/// plus `ADJS`; every other slot declines.  The published batch's own
/// counter is untouched by the loop.
#[verifier::rlimit(100)]
pub proof fn lemma_publish_loop_one_head(m: CollectorModel, bid: int, sz: int, i: int, s0: int, h0: NodeRef)
    requires
        0 <= i <= SLOTS_LENGTH,
        1 <= sz <= BATCH_SIZE,
        0 <= bid < m.batches.len(),
        0 <= s0 < SLOTS_LENGTH,
        m.slots.len() == SLOTS_LENGTH,
        m.batches[bid].id == bid,
        m.batches[bid].size == sz,
        m.batches[bid].nref == 0,
        chain_wf(m.batches[bid]),
        m.batches[bid].nodes.len() == chain_len_at(sz, i),
        i < SLOTS_LENGTH ==> chain_pos_idx(sz, i) < m.batches[bid].nodes.len(),
        forall|j: int|
            0 <= j < m.batches[bid].nodes.len() ==> (#[trigger] m.batches[bid].nodes[j]).list
                == (if s0 < i && j == chain_pos_idx(sz, s0) {
                Some(h0)
            } else {
                None::<NodeRef>
            }),
        forall|s: int|
            i <= s < SLOTS_LENGTH && s != s0 ==> (#[trigger] m.slots[s]) == (NonAtomicHeadNode {
                head_ptr: None,
                head_count: 0,
            }),
        i <= s0 ==> m.slots[s0] == (NonAtomicHeadNode { head_ptr: Some(h0), head_count: 1 }),
        (h0.batch as int) != bid,
        h0.batch < m.batches.len(),
        h0.idx < m.batches[h0.batch as int].nodes.len(),
        m.batches[h0.batch as int].nodes[h0.idx as int].nref_node == Some(h0.batch),
        i <= s0 ==> m.batches[h0.batch as int].nref.wrapping_add((1 + ADJS) as u64) != 0,
    ensures
        ({
            let m2 = spec_publish_loop(m, bid, i);
            let ha = h0.batch as int;
            &&& m2.destroyed == m.destroyed
            &&& m2.freed == m.freed
            &&& m2.building == m.building
            &&& m2.adjs == m.adjs
            &&& m2.batches.len() == m.batches.len()
            &&& forall|b: int|
                0 <= b < m.batches.len() && b != bid && b != ha ==> m2.batches[b]
                    == m.batches[b]
            &&& (i <= s0 ==> m2.batches[ha] == (BatchModel {
                nref: m.batches[ha].nref.wrapping_add((1 + ADJS) as u64),
                ..m.batches[ha]
            }))
            &&& (i > s0 ==> m2.batches[ha] == m.batches[ha])
            &&& m2.batches[bid].id == bid
            &&& m2.batches[bid].size == sz
            &&& m2.batches[bid].nref == 0
            &&& chain_wf(m2.batches[bid])
            &&& m2.batches[bid].nodes.len() == chain_len_at(sz, SLOTS_LENGTH as int)
            &&& forall|j: int|
                0 <= j < m2.batches[bid].nodes.len() ==> (#[trigger] m2.batches[bid].nodes[j]).list
                    == (if j == chain_pos_idx(sz, s0) {
                    Some(h0)
                } else {
                    None::<NodeRef>
                })
            &&& batch_payloads(m2.batches[bid]) == batch_payloads(m.batches[bid])
            &&& m2.slots.len() == SLOTS_LENGTH
            &&& forall|s: int| 0 <= s < i ==> m2.slots[s] == m.slots[s]
            &&& forall|s: int|
                i <= s < SLOTS_LENGTH && s != s0 ==> (#[trigger] m2.slots[s]) == m.slots[s]
            &&& (i <= s0 ==> m2.slots[s0] == (NonAtomicHeadNode {
                head_ptr: Some(NodeRef {
                    batch: bid as usize,
                    idx: chain_pos_idx(sz, s0) as usize,
                }),
                head_count: 1,
            }))
        }),
    decreases SLOTS_LENGTH - i,
{
    if i >= SLOTS_LENGTH {
        assert(chain_len_at(sz, i) == chain_len_at(sz, SLOTS_LENGTH as int));
    } else {
        let c = chain_pos_idx(sz, i);
        let b = m.batches[bid];
        if i < SLOTS_LENGTH - 1 {
            lemma_chain_next(b, i);
        }
        lemma_produce_preserves_chain_wf(b, c);
        let b1 = if i < SLOTS_LENGTH - 1 {
            spec_produce(b, c)
        } else {
            b
        };
        let ms = spec_publish_step(m, bid, i);
        let bs = ms.batches[bid];
        assert(bs.nodes.len() == b1.nodes.len());
        assert forall|j: int|
            0 <= j < b1.nodes.len() implies (#[trigger] bs.nodes[j]).val == b1.nodes[j].val
            && bs.nodes[j].batch == b1.nodes[j].batch && bs.nodes[j].nref_node
            == b1.nodes[j].nref_node by {}
        lemma_chain_wf_list_irrelevant(b1, bs);
        assert forall|j: int|
            0 <= j < bs.nodes.len() implies (#[trigger] bs.nodes[j]).list == (if s0 < i + 1 && j
            == chain_pos_idx(sz, s0) {
            Some(h0)
        } else {
            None::<NodeRef>
        }) by {
            if j != c && j < b.nodes.len() {
                assert(b.nodes[j].list == m.batches[bid].nodes[j].list);
            }
        }
        assert(batch_payloads(bs) =~= batch_payloads(b));
        if i + 1 < SLOTS_LENGTH {
            assert(chain_pos_idx(sz, i + 1) < bs.nodes.len());
        } else {
            assert(bs.nodes.len() == chain_len_at(sz, i + 1));
        }
        if i == s0 {
            assert(ms.batches[h0.batch as int] == (BatchModel {
                nref: m.batches[h0.batch as int].nref.wrapping_add((1 + ADJS) as u64),
                ..m.batches[h0.batch as int]
            }));
        }
        lemma_publish_loop_one_head(ms, bid, sz, i + 1, s0, h0);
        assert(spec_publish_loop(m, bid, i) == spec_publish_loop(ms, bid, i + 1));
    }
}

/// Publishing the building batch while no slot holds a prior head:
/// pinned slots accept their node and keep their reader counts, empty
/// slots are credited straight to the batch, `ADJS` each.  With every
/// slot empty those credits wrap to zero at once and the payloads are
/// destroyed before publication returns; otherwise destruction is
/// deferred and the batch waits with one credit per empty slot.
#[verifier::rlimit(100)]
pub proof fn lemma_process_fresh_heads(m: CollectorModel)
    requires
        collector_wf(m),
        m.batches.len() + 2 < usize::MAX,
        1 <= m.building.size,
        forall|s: int| 0 <= s < SLOTS_LENGTH ==> (#[trigger] m.slots[s]).head_ptr.is_none(),
    ensures
        ({
            let m2 = spec_process(m);
            let bid = m.batches.len() as int;
            let e = count_empty(m.slots, SLOTS_LENGTH as int);
            &&& m2.batches.len() == bid + 1
            &&& batch_payloads(m2.batches[bid]) == batch_payloads(m.building)
            &&& m2.batches[bid].size == m.building.size
            &&& (e == SLOTS_LENGTH ==> m2.freed[bid] && m2.destroyed == m.destroyed
                + batch_payloads(m.building) && m2.slots == m.slots)
            &&& (e < SLOTS_LENGTH ==> {
                &&& pending_batch_state(m2, bid, e)
                &&& m2.destroyed == m.destroyed
                &&& !m2.freed[bid]
                &&& forall|s: int|
                    0 <= s < SLOTS_LENGTH ==> m2.slots[s] == (if (#[trigger] m.slots[s]).head_count
                        == 0 {
                        m.slots[s]
                    } else {
                        NonAtomicHeadNode {
                            head_ptr: Some(NodeRef {
                                batch: bid as usize,
                                idx: chain_pos_idx(m.building.size, s) as usize,
                            }),
                            head_count: m.slots[s].head_count,
                        }
                    })
            })
        }),
{
    let bid = m.batches.len() as int;
    let sz = m.building.size;
    let nref_ref = NodeRef { batch: bid as usize, idx: (sz - 1) as usize };
    let m1 = CollectorModel {
        batches: m.batches.push(m.building),
        freed: m.freed.push(false),
        building: BatchModel {
            id: (bid + 1) as usize,
            nodes: Seq::<Node>::empty(),
            size: 0,
            nref: 0,
        },
        ..m
    };
    lemma_publish_loop_uniform(m1, bid, sz, 0);
    let m2 = spec_publish_loop(m1, bid, 0);
    let e = count_empty(m.slots, SLOTS_LENGTH as int);
    lemma_count_empty_bounds(m.slots, SLOTS_LENGTH as int);
    lemma_adjs_wrap(e);
    assert(chain_len_at(sz, SLOTS_LENGTH as int) == SLOTS_LENGTH as int);
    assert(m_node(m2, nref_ref).nref_node == Some(bid as usize)) by {
        assert(chain_wf(m2.batches[bid]));
        assert(0 <= sz - 1 < m2.batches[bid].size);
    }
    let mfin = spec_process(m);
    // The collector invariant for the post-loop state.
    assert forall|b: int| 0 <= b < m2.batches.len() implies published_batch_wf(m2, b) by {
        if b == bid {
            assert forall|j: int| 0 <= j < m2.batches[bid].nodes.len() implies node_links_wf(
                m2,
                bid,
                #[trigger] m2.batches[bid].nodes[j],
            ) by {
                assert(m2.batches[bid].nodes[j].list.is_none());
            }
        } else {
            assert(published_batch_wf(m, b));
            assert(m2.batches[b] == m.batches[b]);
            crate::collector::lemma_batch_wf_transfer(m, m2, b);
        }
    }
    assert forall|s: int| 0 <= s < SLOTS_LENGTH implies slot_ref_wf(
        m2,
        (#[trigger] m2.slots[s]).head_ptr,
    ) by {
        if m.slots[s].head_count == 0 {
            assert(m2.slots[s] == m.slots[s]);
        } else {
            assert(chain_pos_idx(sz, s) < SLOTS_LENGTH as int);
        }
    }
    assert forall|s: int| 0 <= s < SLOTS_LENGTH implies (#[trigger] m2.slots[s]).head_count
        <= HEAD_COUNT_LIMIT && (m2.slots[s].head_count == 0
        ==> m2.slots[s].head_ptr.is_none()) by {
        assert(m.slots[s].head_count <= HEAD_COUNT_LIMIT);
        if m.slots[s].head_count == 0 {
            assert(m2.slots[s] == m.slots[s]);
        }
    }
    assert(collector_wf(m2));
    if e == SLOTS_LENGTH {
        assert forall|s: int| 0 <= s < SLOTS_LENGTH implies (#[trigger] m.slots[s]).head_count
            == 0 by {}
        assert(m2.slots =~= m.slots);
        assert(e > 0);
        assert((e as u64).wrapping_mul(ADJS) == 0);
        assert(mfin == spec_add_adjs(m2, Some(nref_ref), (e as u64).wrapping_mul(ADJS)));
        assert(m2.batches[bid].nref.wrapping_add(0) == 0);
        assert(mfin.freed[bid]);
        assert(mfin.destroyed == m.destroyed + batch_payloads(m2.batches[bid]));
    } else {
        if e > 0 {
            assert(mfin == spec_add_adjs(m2, Some(nref_ref), (e as u64).wrapping_mul(ADJS)));
            assert(m2.batches[bid].nref.wrapping_add((e as u64).wrapping_mul(ADJS)) == (
            e as u64).wrapping_mul(ADJS));
            assert((e as u64).wrapping_mul(ADJS) != 0);
            crate::collector::lemma_spec_nref_add_wf(m2, bid, (e as u64).wrapping_mul(ADJS));
        } else {
            assert(mfin == m2);
        }
        assert(pending_batch_state(mfin, bid, e)) by {
            assert(mfin.batches[bid].nodes == m2.batches[bid].nodes);
            crate::collector::lemma_counters_only_wf(m2, mfin);
        }
    }
}

/// One departing reader on a slot holding the pending batch's node:
/// the slot resets, the batch earns one more `ADJS` credit, and the
/// batch is freed — its payloads destroyed, exactly once — precisely
/// when this was the last of its `SLOTS_LENGTH` contributions.  Until
/// then the destruction log does not move: no payload is freed while a
/// reader that pinned before publication still holds its guard.
#[verifier::rlimit(100)]
pub proof fn lemma_drain_unpin(m: CollectorModel, bid: int, credits: int, s: int)
    requires
        pending_batch_state(m, bid, credits),
        0 <= s < SLOTS_LENGTH,
        m.slots[s].head_count == 1,
        m.slots[s].head_ptr.is_some(),
        m.slots[s].head_ptr.unwrap().batch == bid as usize,
    ensures
        ({
            let m2 = spec_unpin(m, Guard { slot: s as usize, handle: None });
            &&& m2.slots == m.slots.update(
                s,
                NonAtomicHeadNode { head_ptr: None, head_count: 0 },
            )
            &&& m2.batches.len() == m.batches.len()
            &&& forall|b: int|
                0 <= b < m.batches.len() ==> (#[trigger] m2.batches[b]).nodes
                    == m.batches[b].nodes && m2.batches[b].size == m.batches[b].size
            &&& (credits + 1 < SLOTS_LENGTH ==> pending_batch_state(m2, bid, credits + 1)
                && m2.destroyed == m.destroyed && m2.freed == m.freed)
            &&& (credits + 1 == SLOTS_LENGTH ==> m2.freed[bid] && m2.destroyed == m.destroyed
                + batch_payloads(m.batches[bid]))
        }),
{
    let g = Guard { slot: s as usize, handle: None };
    let curr = m.slots[s];
    let v = curr.head_ptr.unwrap();
    assert(slot_ref_wf(m, Some(v)));
    assert(published_batch_wf(m, bid));
    assert(m_node(m, v).nref_node == Some(bid as usize)) by {
        assert(chain_wf(m.batches[bid]));
    }
    assert(m_node(m, v).list.is_none());
    let m1 = CollectorModel {
        slots: m.slots.update(s, NonAtomicHeadNode { head_ptr: None, head_count: 0 }),
        ..m
    };
    let m2 = spec_unpin(m, g);
    lemma_adjs_step(credits);
    lemma_adjs_wrap(credits + 1);
    assert(m2 == spec_add_adjs(m1, Some(v), ADJS));
    let newref = m.batches[bid].nref.wrapping_add(ADJS);
    assert(newref == ((credits + 1) as u64).wrapping_mul(ADJS));
    assert forall|t: int| 0 <= t < SLOTS_LENGTH implies slot_ref_wf(
        m1,
        (#[trigger] m1.slots[t]).head_ptr,
    ) by {
        assert(slot_ref_wf(m, m.slots[t].head_ptr));
    }
    assert forall|b: int| 0 <= b < m1.batches.len() implies published_batch_wf(m1, b) by {
        assert(published_batch_wf(m, b));
        assert forall|j: int| 0 <= j < m1.batches[b].nodes.len() implies node_links_wf(
            m1,
            b,
            #[trigger] m1.batches[b].nodes[j],
        ) by {
            assert(node_links_wf(m, b, m.batches[b].nodes[j]));
        }
    }
    assert(collector_wf(m1));
    if credits + 1 < SLOTS_LENGTH {
        assert(newref != 0);
        crate::collector::lemma_spec_nref_add_wf(m1, bid, ADJS);
        assert(pending_batch_state(m2, bid, credits + 1)) by {
            assert(m2.batches[bid].nodes == m.batches[bid].nodes);
        }
    } else {
        assert(newref == 0);
        assert(m2.freed[bid]);
        assert(m2.destroyed == m.destroyed + batch_payloads(CollectorModel {
            batches: m1.batches.update(
                bid,
                BatchModel { nref: newref, ..m1.batches[bid] },
            ),
            ..m1
        }.batches[bid]));
        assert(batch_payloads(BatchModel { nref: newref, ..m1.batches[bid] }) =~= batch_payloads(
            m.batches[bid],
        ));
    }
}

/// Slots that are all empty are all counted.
pub proof fn lemma_count_empty_all(slots: Seq<NonAtomicHeadNode>, i: int)
    requires
        0 <= i,
        forall|s: int| 0 <= s < i ==> (#[trigger] slots[s]).head_count == 0,
    ensures
        count_empty(slots, i) == i,
    decreases i,
{
    if i > 0 {
        lemma_count_empty_all(slots, i - 1);
    }
}

/// Unpinning the readers of slots `s` up to the last one, in order.
pub open spec fn spec_drain_from(m: CollectorModel, s: int) -> CollectorModel
    decreases SLOTS_LENGTH - s,
{
    if s < 0 || s >= SLOTS_LENGTH {
        m
    } else {
        spec_drain_from(spec_unpin(m, Guard { slot: s as usize, handle: None }), s + 1)
    }
}

/// Draining every remaining reader of a pending batch: destruction
/// waits for the very last guard, and when it drops, the batch is
/// freed and its payloads are destroyed — appended to the log exactly
/// once.
#[verifier::rlimit(100)]
pub proof fn lemma_drain_all(m: CollectorModel, bid: int, s: int)
    requires
        0 <= s < SLOTS_LENGTH,
        pending_batch_state(m, bid, s),
        forall|t: int|
            s <= t < SLOTS_LENGTH ==> (#[trigger] m.slots[t]).head_count == 1
                && m.slots[t].head_ptr.is_some() && m.slots[t].head_ptr.unwrap().batch
                == bid as usize,
    ensures
        spec_drain_from(m, s).freed[bid],
        spec_drain_from(m, s).destroyed == m.destroyed + batch_payloads(m.batches[bid]),
    decreases SLOTS_LENGTH - s,
{
    lemma_drain_unpin(m, bid, s, s);
    let m1 = spec_unpin(m, Guard { slot: s as usize, handle: None });
    assert(spec_drain_from(m, s) == spec_drain_from(m1, s + 1));
    if s + 1 == SLOTS_LENGTH {
        assert(spec_drain_from(m1, s + 1) == m1);
    } else {
        assert forall|t: int|
            s + 1 <= t < SLOTS_LENGTH implies (#[trigger] m1.slots[t]).head_count == 1
            && m1.slots[t].head_ptr.is_some() && m1.slots[t].head_ptr.unwrap().batch
            == bid as usize by {
            assert(m1.slots[t] == m.slots[t]);
        }
        lemma_drain_all(m1, bid, s + 1);
        assert(batch_payloads(m1.batches[bid]) =~= batch_payloads(m.batches[bid]));
    }
}

/// With no reader pinned anywhere, a retired batch is destroyed the
/// moment it is published: every slot declines its node, the batch at
/// once collects all `SLOTS_LENGTH` credits, and they wrap its counter
/// to zero.  The slots are left exactly as they were.
pub proof fn lemma_no_readers_immediate(m: CollectorModel)
    requires
        collector_wf(m),
        m.batches.len() + 2 < usize::MAX,
        1 <= m.building.size,
        forall|s: int|
            0 <= s < SLOTS_LENGTH ==> (#[trigger] m.slots[s]) == (NonAtomicHeadNode {
                head_ptr: None,
                head_count: 0,
            }),
    ensures
        spec_process(m).destroyed == m.destroyed + batch_payloads(m.building),
        spec_process(m).freed[m.batches.len() as int],
        spec_process(m).slots == m.slots,
{
    lemma_count_empty_all(m.slots, SLOTS_LENGTH as int);
    lemma_process_fresh_heads(m);
}

/// A single pinned reader makes retirement wait: publication defers
/// destruction, and the payloads are destroyed exactly when that
/// reader unpins — never before.
#[verifier::rlimit(100)]
pub proof fn lemma_single_reader_defers(m: CollectorModel, s0: int)
    requires
        collector_wf(m),
        m.batches.len() + 2 < usize::MAX,
        1 <= m.building.size,
        0 <= s0 < SLOTS_LENGTH,
        m.slots[s0] == (NonAtomicHeadNode { head_ptr: None, head_count: 1 }),
        forall|s: int|
            0 <= s < SLOTS_LENGTH && s != s0 ==> (#[trigger] m.slots[s]) == (NonAtomicHeadNode {
                head_ptr: None,
                head_count: 0,
            }),
    ensures
        ({
            let bid = m.batches.len() as int;
            let m1 = spec_process(m);
            let m2 = spec_unpin(m1, Guard { slot: s0 as usize, handle: None });
            &&& !m1.freed[bid]
            &&& m1.destroyed == m.destroyed
            &&& m2.freed[bid]
            &&& m2.destroyed == m.destroyed + batch_payloads(m.building)
        }),
{
    lemma_count_empty_except(m.slots, SLOTS_LENGTH as int, s0);
    lemma_process_fresh_heads(m);
    let bid = m.batches.len() as int;
    let m1 = spec_process(m);
    lemma_drain_unpin(m1, bid, SLOTS_LENGTH as int - 1, s0);
}

/// With one reader pinned on each slot, publication defers the whole
/// batch — nothing is destroyed while any of them holds its guard —
/// and draining all the readers destroys the payloads exactly once.
#[verifier::rlimit(100)]
pub proof fn lemma_all_readers_defer(m: CollectorModel)
    requires
        collector_wf(m),
        m.batches.len() + 2 < usize::MAX,
        1 <= m.building.size,
        forall|s: int|
            0 <= s < SLOTS_LENGTH ==> (#[trigger] m.slots[s]) == (NonAtomicHeadNode {
                head_ptr: None,
                head_count: 1,
            }),
    ensures
        ({
            let bid = m.batches.len() as int;
            let m1 = spec_process(m);
            &&& m1.destroyed == m.destroyed
            &&& !m1.freed[bid]
            &&& pending_batch_state(m1, bid, 0)
            &&& spec_drain_from(m1, 0).freed[bid]
            &&& spec_drain_from(m1, 0).destroyed == m.destroyed + batch_payloads(m.building)
        }),
{
    lemma_count_empty_none(m.slots, SLOTS_LENGTH as int);
    lemma_process_fresh_heads(m);
    let bid = m.batches.len() as int;
    let m1 = spec_process(m);
    assert forall|t: int| 0 <= t < SLOTS_LENGTH implies (#[trigger] m1.slots[t]).head_count == 1
        && m1.slots[t].head_ptr.is_some() && m1.slots[t].head_ptr.unwrap().batch
        == bid as usize by {
        assert(m.slots[t].head_count == 1);
    }
    lemma_drain_all(m1, bid, 0);
}

/// While more than one reader still sits on a slot that holds the
/// pending batch's node, one of them unpinning neither frees the batch
/// nor destroys anything: the slot keeps its head, no credit is paid,
/// and the batch keeps waiting for the remaining readers.
#[verifier::rlimit(100)]
pub proof fn lemma_extra_reader_unpin(m: CollectorModel, bid: int, credits: int, s: int)
    requires
        pending_batch_state(m, bid, credits),
        0 <= s < SLOTS_LENGTH,
        m.slots[s].head_count >= 2,
        m.slots[s].head_ptr.is_some(),
        m.slots[s].head_ptr.unwrap().batch == bid as usize,
    ensures
        ({
            let m2 = spec_unpin(m, Guard { slot: s as usize, handle: None });
            &&& m2.slots == m.slots.update(
                s,
                NonAtomicHeadNode {
                    head_ptr: m.slots[s].head_ptr,
                    head_count: (m.slots[s].head_count - 1) as usize,
                },
            )
            &&& m2.destroyed == m.destroyed
            &&& m2.freed == m.freed
            &&& m2.batches == m.batches
            &&& pending_batch_state(m2, bid, credits)
        }),
{
    let g = Guard { slot: s as usize, handle: None };
    let v = m.slots[s].head_ptr.unwrap();
    assert(slot_ref_wf(m, Some(v)));
    assert(m_node(m, v).list.is_none());
    let m2 = spec_unpin(m, g);
    assert forall|t: int| 0 <= t < SLOTS_LENGTH implies slot_ref_wf(
        m2,
        (#[trigger] m2.slots[t]).head_ptr,
    ) by {
        assert(slot_ref_wf(m, m.slots[t].head_ptr));
    }
    assert forall|b: int| 0 <= b < m2.batches.len() implies published_batch_wf(m2, b) by {
        assert(published_batch_wf(m, b));
        assert forall|j: int| 0 <= j < m2.batches[b].nodes.len() implies node_links_wf(
            m2,
            b,
            #[trigger] m2.batches[b].nodes[j],
        ) by {
            assert(node_links_wf(m, b, m.batches[b].nodes[j]));
        }
    }
}

/// Every sequence is a prefix of itself.
pub proof fn lemma_prefix_refl(a: Seq<u64>)
    ensures
        a.is_prefix_of(a),
{
    assert(a.take(a.len() as int) =~= a);
}

/// A sequence is a prefix of anything appended to it.
pub proof fn lemma_prefix_append(a: Seq<u64>, b: Seq<u64>)
    ensures
        a.is_prefix_of(a + b),
{
    assert((a + b).take(a.len() as int) =~= a);
}

/// Being a prefix is transitive.
pub proof fn lemma_prefix_trans(a: Seq<u64>, b: Seq<u64>, c: Seq<u64>)
    requires
        a.is_prefix_of(b),
        b.is_prefix_of(c),
    ensures
        a.is_prefix_of(c),
{
    assert(c.take(a.len() as int) =~= a) by {
        assert forall|i: int| 0 <= i < a.len() implies c[i] == a[i] by {
            assert(b[i] == a[i]);
        }
    }
}

/// Destruction is permanent under a counter credit: the log only
/// grows and freed batches stay freed.
pub proof fn lemma_nref_add_monotone(m: CollectorModel, bid: int, val: u64)
    ensures
        m.destroyed.is_prefix_of(spec_nref_add(m, bid, val).destroyed),
{
    let b = m.batches[bid];
    let newref = b.nref.wrapping_add(val);
    let m1 = CollectorModel {
        batches: m.batches.update(bid, BatchModel { nref: newref, ..b }),
        ..m
    };
    if newref == 0 {
        lemma_prefix_append(m.destroyed, batch_payloads(m1.batches[bid]));
    } else {
        lemma_prefix_refl(m.destroyed);
    }
}

/// Destruction is permanent under a counter decrement.
pub proof fn lemma_nref_sub1_monotone(m: CollectorModel, bid: int)
    ensures
        m.destroyed.is_prefix_of(spec_nref_sub1(m, bid).destroyed),
{
    let b = m.batches[bid];
    let newref = b.nref.wrapping_sub(1);
    let m1 = CollectorModel {
        batches: m.batches.update(bid, BatchModel { nref: newref, ..b }),
        ..m
    };
    if newref == 0 {
        lemma_prefix_append(m.destroyed, batch_payloads(m1.batches[bid]));
    } else {
        lemma_prefix_refl(m.destroyed);
    }
}

/// Destruction is permanent under a credit through a node reference.
pub proof fn lemma_add_adjs_monotone(m: CollectorModel, node: Option<NodeRef>, val: u64)
    ensures
        m.destroyed.is_prefix_of(spec_add_adjs(m, node, val).destroyed),
{
    match node {
        None => {
            lemma_prefix_refl(m.destroyed);
        },
        Some(r) => {
            lemma_nref_add_monotone(m, m_node(m, r).nref_node.unwrap() as int, val);
        },
    }
}

/// A traversal touches only batch counters, freed flags and the
/// destruction log — never the slots or the building batch.
pub proof fn lemma_traverse_slots(m: CollectorModel, r: NodeRef, handle: Option<NodeRef>)
    ensures
        spec_traverse(m, r, handle).slots == m.slots,
        spec_traverse(m, r, handle).building == m.building,
    decreases r.batch,
{
    let bid = m_node(m, r).nref_node.unwrap() as int;
    let m1 = spec_nref_sub1(m, bid);
    let next = m_node(m, r).list;
    if next.is_none() || handle == Some(r) {
    } else if next.unwrap().batch < r.batch {
        lemma_traverse_slots(m1, next.unwrap(), handle);
    }
}

/// Destruction is permanent under a traversal: the log only grows and
/// freed batches stay freed.
pub proof fn lemma_traverse_monotone(m: CollectorModel, r: NodeRef, handle: Option<NodeRef>)
    ensures
        m.destroyed.is_prefix_of(spec_traverse(m, r, handle).destroyed),
    decreases r.batch,
{
    let bid = m_node(m, r).nref_node.unwrap() as int;
    let m1 = spec_nref_sub1(m, bid);
    lemma_nref_sub1_monotone(m, bid);
    let next = m_node(m, r).list;
    if next.is_none() || handle == Some(r) {
    } else if next.unwrap().batch < r.batch {
        lemma_traverse_monotone(m1, next.unwrap(), handle);
        lemma_prefix_trans(m.destroyed, m1.destroyed, spec_traverse(m, r, handle).destroyed);
    }
}

/// Destruction is permanent under a single publication step.
pub proof fn lemma_publish_step_monotone(m: CollectorModel, bid: int, i: int)
    ensures
        m.destroyed.is_prefix_of(spec_publish_step(m, bid, i).destroyed),
{
    let b0 = m.batches[bid];
    let c = chain_pos_idx(b0.size, i);
    let b1 = if i < SLOTS_LENGTH - 1 {
        spec_produce(b0, c)
    } else {
        b0
    };
    let m1 = CollectorModel { batches: m.batches.update(bid, b1), ..m };
    let v = NodeRef { batch: bid as usize, idx: c as usize };
    let slot = m.slots[i];
    if slot.head_count == 0 {
        lemma_prefix_refl(m.destroyed);
    } else {
        let m2 = CollectorModel {
            slots: m1.slots.update(i, NonAtomicHeadNode {
                head_ptr: Some(v),
                head_count: slot.head_count,
            }),
            ..m1
        };
        let m3 = spec_set_list(m2, v, slot.head_ptr);
        lemma_add_adjs_monotone(m3, slot.head_ptr, ((slot.head_count + ADJS) as u64));
    }
}

/// Destruction is permanent under the whole publication loop.
pub proof fn lemma_publish_loop_monotone(m: CollectorModel, bid: int, i: int)
    ensures
        m.destroyed.is_prefix_of(spec_publish_loop(m, bid, i).destroyed),
    decreases SLOTS_LENGTH - i,
{
    if i < 0 || i >= SLOTS_LENGTH {
        lemma_prefix_refl(m.destroyed);
    } else {
        lemma_publish_step_monotone(m, bid, i);
        lemma_publish_loop_monotone(spec_publish_step(m, bid, i), bid, i + 1);
        lemma_prefix_trans(
            m.destroyed,
            spec_publish_step(m, bid, i).destroyed,
            spec_publish_loop(m, bid, i).destroyed,
        );
    }
}

/// No operation of the collector ever removes a payload from the
/// destruction log or revives a freed batch: destruction runs at most
/// once and is permanent.  This holds of every pin, every unpin
/// (traversal included), every retirement and every publication.
#[verifier::rlimit(100)]
pub proof fn lemma_operations_monotone(m: CollectorModel, g: Guard, garbage: Option<u64>, s: int)
    ensures
        spec_pin(m, s).destroyed == m.destroyed,
        m.destroyed.is_prefix_of(spec_unpin(m, g).destroyed),
        m.destroyed.is_prefix_of(spec_process(m).destroyed),
        m.destroyed.is_prefix_of(spec_retire(m, garbage).destroyed),
{
    let slot = g.slot as int;
    let curr = m.slots[slot];
    let new_slot = if curr.head_count == 1 {
        NonAtomicHeadNode { head_ptr: None, head_count: 0 }
    } else {
        NonAtomicHeadNode {
            head_ptr: curr.head_ptr,
            head_count: (curr.head_count - 1) as usize,
        }
    };
    let m1 = CollectorModel { slots: m.slots.update(slot, new_slot), ..m };
    let m2 = if curr.head_count == 1 && curr.head_ptr.is_some() {
        spec_add_adjs(m1, curr.head_ptr, ADJS)
    } else {
        m1
    };
    if curr.head_count == 1 && curr.head_ptr.is_some() {
        lemma_add_adjs_monotone(m1, curr.head_ptr, ADJS);
    } else {
        lemma_prefix_refl(m.destroyed);
    }
    assert(m.destroyed.is_prefix_of(m2.destroyed));
    let traverse_start: Option<NodeRef> = if curr.head_ptr != g.handle {
        match curr.head_ptr {
            None => None,
            Some(h) => m_node(m, h).list,
        }
    } else {
        None
    };
    match traverse_start {
        None => {},
        Some(t) => {
            lemma_traverse_monotone(m2, t, g.handle);
            lemma_prefix_trans(m.destroyed, m2.destroyed, spec_unpin(m, g).destroyed);
        },
    }
    lemma_process_monotone(m);
}

/// Destruction is permanent under publication of the building batch.
pub proof fn lemma_process_monotone(m: CollectorModel)
    ensures
        m.destroyed.is_prefix_of(spec_process(m).destroyed),
{
    if m.building.size == 0 {
    } else {
        let bid = m.batches.len() as int;
        let m1 = CollectorModel {
            batches: m.batches.push(m.building),
            freed: m.freed.push(false),
            building: BatchModel {
                id: (bid + 1) as usize,
                nodes: Seq::<Node>::empty(),
                size: 0,
                nref: 0,
            },
            ..m
        };
        lemma_publish_loop_monotone(m1, bid, 0);
        let m2 = spec_publish_loop(m1, bid, 0);
        let e = count_empty(m.slots, SLOTS_LENGTH as int);
        let nref_ref = NodeRef {
            batch: bid as usize,
            idx: (m.building.size - 1) as usize,
        };
        if e > 0 {
            lemma_add_adjs_monotone(m2, Some(nref_ref), (e as u64).wrapping_mul(ADJS));
            lemma_prefix_trans(m.destroyed, m2.destroyed, spec_process(m).destroyed);
        }
    }
}

/// A chain of displaced batches: `refs` lists one node per batch, each
/// linked to the one before it, every batch live and holding exactly
/// its final unit — all its slot credits arrived and only the reader
/// that saw it displaced still owes it.  Batch positions rise along
/// the chain, as they always do on a slot's chain.
pub open spec fn unit_chain(m: CollectorModel, refs: Seq<NodeRef>) -> bool {
    &&& m.freed.len() == m.batches.len()
    &&& forall|j: int| 0 <= j < refs.len() ==> valid_ref(m, #[trigger] refs[j])
    &&& forall|j: int|
        0 <= j < refs.len() ==> m_node(m, #[trigger] refs[j]).nref_node == Some(refs[j].batch)
    &&& forall|j: int|
        0 <= j < refs.len() ==> m.batches[(#[trigger] refs[j]).batch as int].nref == 1u64
    &&& forall|j: int| 0 <= j < refs.len() ==> !m.freed[(#[trigger] refs[j]).batch as int]
    &&& forall|j: int|
        0 <= j < refs.len() ==> batch_destroy_req(m, (#[trigger] refs[j]).batch as int)
    &&& forall|j: int|
        0 <= j < refs.len() ==> m_node(m, #[trigger] refs[j]).list == (if j == 0 {
            None
        } else {
            Some(refs[j - 1])
        })
    &&& forall|j1: int, j2: int|
        0 <= j1 < j2 < refs.len() ==> (#[trigger] refs[j1]).batch < (#[trigger] refs[j2]).batch
}

/// The payloads of the listed batches, newest batch first.
pub open spec fn chain_payloads(m: CollectorModel, refs: Seq<NodeRef>) -> Seq<u64>
    decreases refs.len(),
{
    if refs.len() == 0 {
        Seq::<u64>::empty()
    } else {
        batch_payloads(m.batches[refs.last().batch as int]) + chain_payloads(
            m,
            refs.drop_last(),
        )
    }
}

/// Chain payloads depend only on the listed batches' nodes and sizes.
pub proof fn lemma_chain_payloads_stable(m: CollectorModel, m2: CollectorModel, refs: Seq<NodeRef>)
    requires
        forall|j: int|
            0 <= j < refs.len() ==> (#[trigger] refs[j]).batch < m.batches.len()
                && refs[j].batch < m2.batches.len()
                && m2.batches[refs[j].batch as int].nodes == m.batches[refs[j].batch as int].nodes
                && m2.batches[refs[j].batch as int].size == m.batches[refs[j].batch as int].size,
    ensures
        chain_payloads(m2, refs) == chain_payloads(m, refs),
    decreases refs.len(),
{
    if refs.len() > 0 {
        assert(batch_payloads(m2.batches[refs.last().batch as int]) =~= batch_payloads(
            m.batches[refs.last().batch as int],
        ));
        lemma_chain_payloads_stable(m, m2, refs.drop_last());
    }
}

/// One traversal reclaims a whole chain of displaced batches: starting
/// from the chain's newest node, every listed batch receives its final
/// unit, is freed, and has its payloads destroyed — each batch exactly
/// once, newest first.  This is the general shape of the walk an
/// unpinning reader performs over the publications it was present for.
#[verifier::rlimit(100)]
pub proof fn lemma_traverse_unit_chain(m: CollectorModel, refs: Seq<NodeRef>)
    requires
        unit_chain(m, refs),
        refs.len() >= 1,
    ensures
        ({
            let m2 = spec_traverse(m, refs.last(), None);
            &&& forall|j: int|
                0 <= j < refs.len() ==> m2.freed[(#[trigger] refs[j]).batch as int]
            &&& m2.destroyed == m.destroyed + chain_payloads(m, refs)
        }),
    decreases refs.len(),
{
    let r = refs.last();
    let bid = r.batch as int;
    let m1 = spec_nref_sub1(m, bid);
    assert(m1.freed[bid]);
    assert(m1.destroyed == m.destroyed + batch_payloads(BatchModel {
        nref: 0u64,
        ..m.batches[bid]
    }));
    assert(batch_payloads(BatchModel { nref: 0u64, ..m.batches[bid] }) =~= batch_payloads(
        m.batches[bid],
    ));
    let m2 = spec_traverse(m, r, None);
    if refs.len() == 1 {
        assert(m_node(m, r).list.is_none());
        assert(m2 == m1);
        assert(chain_payloads(m, refs) == batch_payloads(m.batches[bid]) + chain_payloads(
            m,
            refs.drop_last(),
        ));
        assert(m.destroyed + chain_payloads(m, refs) =~= m1.destroyed);
    } else {
        let rest = refs.drop_last();
        let rn = rest.last();
        assert(m_node(m, r).list == Some(rn)) by {
            assert(refs[refs.len() - 1] == r);
            assert(refs[refs.len() - 2] == rn);
        }
        assert(rn.batch < r.batch);
        assert(m2 == spec_traverse(m1, rn, None));
        assert(unit_chain(m1, rest)) by {
            assert forall|j: int| 0 <= j < rest.len() implies valid_ref(
                m1,
                #[trigger] rest[j],
            ) by {
                assert(rest[j] == refs[j]);
                assert(valid_ref(m, refs[j]));
            }
            assert forall|j: int|
                0 <= j < rest.len() implies m_node(m1, #[trigger] rest[j]).nref_node == Some(
                rest[j].batch,
            ) && m1.batches[rest[j].batch as int].nref == 1u64 && !m1.freed[rest[j].batch as int]
                && batch_destroy_req(m1, rest[j].batch as int) by {
                assert(rest[j] == refs[j]);
                assert(refs[j].batch < r.batch);
                assert(m1.batches[rest[j].batch as int] == m.batches[rest[j].batch as int]);
            }
            assert forall|j: int|
                0 <= j < rest.len() implies m_node(m1, #[trigger] rest[j]).list == (if j == 0 {
                None
            } else {
                Some(rest[j - 1])
            }) by {
                assert(rest[j] == refs[j]);
                assert(m1.batches[rest[j].batch as int] == m.batches[rest[j].batch as int]);
                if j > 0 {
                    assert(rest[j - 1] == refs[j - 1]);
                }
            }
        }
        lemma_traverse_unit_chain(m1, rest);
        lemma_chain_payloads_stable(m, m1, rest);
        assert forall|j: int|
            0 <= j < refs.len() implies m2.freed[(#[trigger] refs[j]).batch as int] by {
            if j < rest.len() {
                assert(rest[j] == refs[j]);
            } else {
                assert(refs[j] == r);
                assert(m1.freed[bid]);
                assert forall|jj: int|
                    0 <= jj < rest.len() implies (#[trigger] rest[jj]).batch != bid by {
                    assert(rest[jj] == refs[jj]);
                    assert(refs[jj].batch < r.batch);
                }
                lemma_traverse_freed_stays(m1, rest, bid);
            }
        }
        assert(m2.destroyed == m1.destroyed + chain_payloads(m1, rest));
        assert(m.destroyed + chain_payloads(m, refs) =~= m1.destroyed + chain_payloads(m, rest));
    }
}

/// A traversal over a unit chain leaves an already freed batch that is
/// not on the chain freed.
#[verifier::rlimit(100)]
pub proof fn lemma_traverse_freed_stays(m: CollectorModel, refs: Seq<NodeRef>, bid: int)
    requires
        unit_chain(m, refs),
        refs.len() >= 1,
        0 <= bid < m.freed.len(),
        m.freed[bid],
    ensures
        spec_traverse(m, refs.last(), None).freed[bid],
    decreases refs.len(),
{
    let r = refs.last();
    let m1 = spec_nref_sub1(m, r.batch as int);
    assert(m1.freed[bid]);
    if refs.len() == 1 {
        assert(m_node(m, r).list.is_none());
    } else {
        let rest = refs.drop_last();
        assert(unit_chain(m1, rest)) by {
            assert forall|j: int|
                0 <= j < rest.len() implies valid_ref(m1, #[trigger] rest[j]) && m_node(
                m1,
                rest[j],
            ).nref_node == Some(rest[j].batch) && m1.batches[rest[j].batch as int].nref == 1u64
                && !m1.freed[rest[j].batch as int] && batch_destroy_req(m1, rest[j].batch as int)
                && m_node(m1, rest[j]).list == (if j == 0 {
                None
            } else {
                Some(rest[j - 1])
            }) by {
                assert(rest[j] == refs[j]);
                assert(refs[j].batch < r.batch);
                assert(m1.batches[rest[j].batch as int] == m.batches[rest[j].batch as int]);
                if j > 0 {
                    assert(rest[j - 1] == refs[j - 1]);
                }
            }
        }
        assert(m_node(m, r).list == Some(rest.last())) by {
            assert(refs[refs.len() - 1] == r);
            assert(refs[refs.len() - 2] == rest.last());
        }
        lemma_traverse_freed_stays(m1, rest, bid);
    }
}

/// The collector as one reader at slot `s0` sees it after any run of
/// publications: `refs` lists the node each published batch placed at
/// `s0`, oldest first.  The newest heads the slot and still owes the
/// reader its count and the slot its `ADJS`; every displaced batch has
/// collected everything except the reader's single unit; and no other
/// slot is occupied.
pub open spec fn displaced_chain_state(m: CollectorModel, s0: int, refs: Seq<NodeRef>) -> bool {
    &&& collector_wf(m)
    &&& refs.len() >= 1
    &&& 0 <= s0 < SLOTS_LENGTH
    &&& m.slots[s0] == (NonAtomicHeadNode { head_ptr: Some(refs.last()), head_count: 1 })
    &&& forall|s: int|
        0 <= s < SLOTS_LENGTH && s != s0 ==> (#[trigger] m.slots[s]) == (NonAtomicHeadNode {
            head_ptr: None,
            head_count: 0,
        })
    &&& forall|j: int| 0 <= j < refs.len() ==> valid_ref(m, #[trigger] refs[j])
    &&& m.batches[refs.last().batch as int].nref == ((SLOTS_LENGTH - 1) as u64).wrapping_mul(ADJS)
    &&& forall|j: int|
        0 <= j < refs.len() - 1 ==> m.batches[(#[trigger] refs[j]).batch as int].nref == 1u64
    &&& forall|j: int| 0 <= j < refs.len() ==> !m.freed[(#[trigger] refs[j]).batch as int]
    &&& forall|j: int|
        0 <= j < refs.len() ==> m_node(m, #[trigger] refs[j]).list == (if j == 0 {
            None
        } else {
            Some(refs[j - 1])
        })
    &&& forall|j1: int, j2: int|
        0 <= j1 < j2 < refs.len() ==> (#[trigger] refs[j1]).batch < (#[trigger] refs[j2]).batch
}

/// The first publication under a lone reader starts the chain: the
/// reader's slot accepts the batch's node, every other slot declines,
/// and the batch waits with all credits but the reader's slot's.
#[verifier::rlimit(100)]
pub proof fn lemma_first_publish_starts_chain(m: CollectorModel, s0: int)
    requires
        collector_wf(m),
        m.batches.len() + 2 < usize::MAX,
        1 <= m.building.size,
        0 <= s0 < SLOTS_LENGTH,
        m.slots[s0] == (NonAtomicHeadNode { head_ptr: None, head_count: 1 }),
        forall|s: int|
            0 <= s < SLOTS_LENGTH && s != s0 ==> (#[trigger] m.slots[s]) == (NonAtomicHeadNode {
                head_ptr: None,
                head_count: 0,
            }),
    ensures
        ({
            let r0 = NodeRef {
                batch: m.batches.len() as usize,
                idx: chain_pos_idx(m.building.size, s0) as usize,
            };
            let m1 = spec_process(m);
            &&& displaced_chain_state(m1, s0, seq![r0])
            &&& m1.destroyed == m.destroyed
            &&& chain_payloads(m1, seq![r0]) == batch_payloads(m.building)
        }),
{
    lemma_count_empty_except(m.slots, SLOTS_LENGTH as int, s0);
    lemma_process_fresh_heads(m);
    let bid = m.batches.len() as int;
    let m1 = spec_process(m);
    let r0 = NodeRef {
        batch: bid as usize,
        idx: chain_pos_idx(m.building.size, s0) as usize,
    };
    assert(m1.slots[s0] == (NonAtomicHeadNode { head_ptr: Some(r0), head_count: 1 }));
    assert(seq![r0].last() == r0);
    assert(valid_ref(m1, r0)) by {
        assert(slot_ref_wf(m1, m1.slots[s0].head_ptr));
    }
    assert(m_node(m1, r0).list.is_none());
    assert forall|s: int|
        0 <= s < SLOTS_LENGTH && s != s0 implies (#[trigger] m1.slots[s]) == (NonAtomicHeadNode {
        head_ptr: None,
        head_count: 0,
    }) by {
        assert(m.slots[s].head_count == 0);
        assert(m1.slots[s] == m.slots[s]);
    }
    assert(displaced_chain_state(m1, s0, seq![r0])) by {
        assert forall|j: int| 0 <= j < seq![r0].len() implies valid_ref(m1, #[trigger] seq![r0][j])
            && !m1.freed[seq![r0][j].batch as int] && m_node(m1, seq![r0][j]).list == (if j == 0 {
            None
        } else {
            Some(seq![r0][j - 1])
        }) by {
            assert(seq![r0][j] == r0);
        }
    }
    assert(seq![r0].drop_last() =~= Seq::<NodeRef>::empty());
    assert(chain_payloads(m1, Seq::<NodeRef>::empty()) == Seq::<u64>::empty());
    assert(chain_payloads(m1, seq![r0]) == batch_payloads(m1.batches[bid]) + Seq::<u64>::empty());
    assert(chain_payloads(m1, seq![r0]) =~= batch_payloads(m.building));
}

/// Each further publication under the same reader extends the chain:
/// the reader's slot accepts the new node, linking it to the displaced
/// head, whose batch thereby collects everything but the reader's
/// unit; every other slot declines; nothing is destroyed.
/// The state right after a publication that extends the chain: the
/// facts of `lemma_publish_extends_chain`, stated of the raw model.
#[verifier::rlimit(100)]
proof fn lemma_publish_extends_chain_shape(m: CollectorModel, s0: int, refs: Seq<NodeRef>)
    requires
        displaced_chain_state(m, s0, refs),
        m.batches.len() + 2 < usize::MAX,
        1 <= m.building.size,
    ensures
        ({
            let bidb = m.batches.len() as int;
            let sz = m.building.size;
            let h0 = refs.last();
            let rn = NodeRef { batch: bidb as usize, idx: chain_pos_idx(sz, s0) as usize };
            let m1 = spec_process(m);
            &&& collector_wf(m1)
            &&& m1.destroyed == m.destroyed
            &&& m1.freed == m.freed.push(false)
            &&& m1.slots == m.slots.update(s0, NonAtomicHeadNode {
                head_ptr: Some(rn),
                head_count: 1,
            })
            &&& m1.batches.len() == m.batches.len() + 1
            &&& forall|b: int|
                0 <= b < m.batches.len() && b != (h0.batch as int) ==> m1.batches[b]
                    == m.batches[b]
            &&& m1.batches[h0.batch as int] == (BatchModel {
                nref: 1u64,
                ..m.batches[h0.batch as int]
            })
            &&& m1.batches[bidb].id == bidb
            &&& m1.batches[bidb].size == sz
            &&& m1.batches[bidb].nref == ((SLOTS_LENGTH - 1) as u64).wrapping_mul(ADJS)
            &&& m1.batches[bidb].nodes.len() == SLOTS_LENGTH
            &&& forall|j: int|
                0 <= j < m1.batches[bidb].nodes.len() ==> (#[trigger] m1.batches[bidb].nodes[j]).list
                    == (if j == chain_pos_idx(sz, s0) {
                    Some(h0)
                } else {
                    None::<NodeRef>
                })
            &&& batch_payloads(m1.batches[bidb]) == batch_payloads(m.building)
        }),
{
    let bidb = m.batches.len() as int;
    let sz = m.building.size;
    let h0 = refs.last();
    let bida = h0.batch as int;
    let rn = NodeRef { batch: bidb as usize, idx: chain_pos_idx(sz, s0) as usize };
    let m_push = CollectorModel {
        batches: m.batches.push(m.building),
        freed: m.freed.push(false),
        building: BatchModel {
            id: (bidb + 1) as usize,
            nodes: Seq::<Node>::empty(),
            size: 0,
            nref: 0,
        },
        ..m
    };
    assert((ADJS as int) == 0x400000000000000);
    lemma_adjs_wrap(SLOTS_LENGTH as int - 1);
    assert(m.batches[bida].nref == 63 * 0x400000000000000);
    assert(slot_ref_wf(m, Some(h0)));
    assert(published_batch_wf(m, bida));
    assert(m_node(m, h0).nref_node == Some(h0.batch)) by {
        assert(chain_wf(m.batches[bida]));
    }
    assert(m_push.batches[bida].nref.wrapping_add((1 + ADJS) as u64) == 1);
    lemma_publish_loop_one_head(m_push, bidb, sz, 0, s0, h0);
    let m_loop = spec_publish_loop(m_push, bidb, 0);
    lemma_count_empty_except(m.slots, SLOTS_LENGTH as int, s0);
    let e = count_empty(m.slots, SLOTS_LENGTH as int);
    assert(e == SLOTS_LENGTH as int - 1);
    lemma_adjs_wrap(e);
    let nref_ref = NodeRef { batch: bidb as usize, idx: (sz - 1) as usize };
    assert(m_node(m_loop, nref_ref).nref_node == Some(bidb as usize)) by {
        assert(chain_wf(m_loop.batches[bidb]));
        assert(0 <= sz - 1 < m_loop.batches[bidb].size);
    }
    let m1 = spec_process(m);
    assert(m1 == spec_add_adjs(m_loop, Some(nref_ref), (e as u64).wrapping_mul(ADJS)));
    assert(m_loop.batches[bidb].nref.wrapping_add((e as u64).wrapping_mul(ADJS)) == (
    e as u64).wrapping_mul(ADJS));
    assert((e as u64).wrapping_mul(ADJS) != 0);
    assert(m1.batches[bidb] == (BatchModel {
        nref: (e as u64).wrapping_mul(ADJS),
        ..m_loop.batches[bidb]
    }));
    assert(m1.destroyed == m.destroyed);
    // The collector invariant for the new state.
    assert forall|b: int| 0 <= b < m1.batches.len() implies published_batch_wf(m1, b) by {
        if b == bidb {
            assert(chain_wf(m1.batches[bidb])) by {
                lemma_chain_wf_list_irrelevant(m_loop.batches[bidb], m1.batches[bidb]);
            }
            assert forall|j: int| 0 <= j < m1.batches[bidb].nodes.len() implies node_links_wf(
                m1,
                bidb,
                #[trigger] m1.batches[bidb].nodes[j],
            ) by {
                if j == chain_pos_idx(sz, s0) {
                    assert(m1.batches[bidb].nodes[j].list == Some(h0));
                    assert(valid_ref(m, h0));
                } else {
                    assert(m1.batches[bidb].nodes[j].list.is_none());
                }
            }
        } else {
            assert(published_batch_wf(m, b));
            assert(m1.batches[b].nodes == m.batches[b].nodes);
            assert(m1.batches[b].id == m.batches[b].id);
            assert(m1.batches[b].size == m.batches[b].size);
            crate::collector::lemma_batch_wf_transfer(m, m1, b);
        }
    }
    assert forall|s: int| 0 <= s < SLOTS_LENGTH implies slot_ref_wf(
        m1,
        (#[trigger] m1.slots[s]).head_ptr,
    ) by {
        if s == s0 {
            assert(chain_pos_idx(sz, s0) < SLOTS_LENGTH as int);
        } else {
            assert(m1.slots[s] == m.slots[s]);
        }
    }
    assert forall|s: int| 0 <= s < SLOTS_LENGTH implies (#[trigger] m1.slots[s]).head_count
        <= HEAD_COUNT_LIMIT && (m1.slots[s].head_count == 0
        ==> m1.slots[s].head_ptr.is_none()) by {
        if s != s0 {
            assert(m1.slots[s] == m.slots[s]);
        }
    }
    assert(collector_wf(m1));
    assert(batch_payloads(m1.batches[bidb]) =~= batch_payloads(m.building));
    assert(m1.freed =~= m.freed.push(false));
}

/// Each further publication under the same reader extends the chain:
/// the reader's slot accepts the new node, linking it to the displaced
/// head, whose batch thereby collects everything but the reader's
/// unit; every other slot declines; nothing is destroyed.
#[verifier::rlimit(100)]
pub proof fn lemma_publish_extends_chain(m: CollectorModel, s0: int, refs: Seq<NodeRef>)
    requires
        displaced_chain_state(m, s0, refs),
        m.batches.len() + 2 < usize::MAX,
        1 <= m.building.size,
    ensures
        ({
            let rn = NodeRef {
                batch: m.batches.len() as usize,
                idx: chain_pos_idx(m.building.size, s0) as usize,
            };
            let m1 = spec_process(m);
            &&& displaced_chain_state(m1, s0, refs.push(rn))
            &&& m1.destroyed == m.destroyed
            &&& forall|j: int| 0 <= j < refs.len() ==> m1.batches[(#[trigger] refs[j]).batch as int].nodes
                == m.batches[refs[j].batch as int].nodes && m1.batches[refs[j].batch as int].size
                == m.batches[refs[j].batch as int].size
            &&& chain_payloads(m1, refs.push(rn)) == batch_payloads(m.building) + chain_payloads(
                m,
                refs,
            )
        }),
{
    let bidb = m.batches.len() as int;
    let sz = m.building.size;
    let h0 = refs.last();
    let rn = NodeRef { batch: bidb as usize, idx: chain_pos_idx(sz, s0) as usize };
    let m1 = spec_process(m);
    lemma_publish_extends_chain_shape(m, s0, refs);
    // The chain grew by the new head.
    let refs2 = refs.push(rn);
    assert(refs2.last() == rn);
    assert forall|j: int| 0 <= j < refs2.len() implies valid_ref(m1, #[trigger] refs2[j]) by {
        if j < refs.len() {
            assert(refs2[j] == refs[j]);
            assert(valid_ref(m, refs[j]));
        } else {
            assert(refs2[j] == rn);
        }
    }
    assert forall|j: int|
        0 <= j < refs2.len() - 1 implies m1.batches[(#[trigger] refs2[j]).batch as int].nref
        == 1u64 by {
        assert(refs2[j] == refs[j]);
        if j < refs.len() - 1 {
            assert(refs[j].batch < h0.batch);
            assert(m1.batches[refs[j].batch as int] == m.batches[refs[j].batch as int]);
        } else {
            assert(refs[j] == h0);
        }
    }
    assert forall|j: int|
        0 <= j < refs2.len() implies !m1.freed[(#[trigger] refs2[j]).batch as int] by {
        if j < refs.len() {
            assert(refs2[j] == refs[j]);
            assert(refs[j].batch < m.batches.len());
            assert(!m.freed[refs[j].batch as int]);
        } else {
            assert(refs2[j] == rn);
        }
    }
    assert forall|j: int|
        0 <= j < refs2.len() implies m_node(m1, #[trigger] refs2[j]).list == (if j == 0 {
        None
    } else {
        Some(refs2[j - 1])
    }) by {
        if j < refs.len() {
            assert(refs2[j] == refs[j]);
            assert(refs[j].batch < bidb);
            assert(m1.batches[refs[j].batch as int].nodes == m.batches[refs[j].batch as int].nodes);
            if j > 0 {
                assert(refs2[j - 1] == refs[j - 1]);
            }
        } else {
            assert(refs2[j] == rn);
            assert(m_node(m1, rn).list == Some(h0));
            assert(refs2[j - 1] == h0);
        }
    }
    assert forall|j1: int, j2: int|
        0 <= j1 < j2 < refs2.len() implies (#[trigger] refs2[j1]).batch < (
    #[trigger] refs2[j2]).batch by {
        assert(refs2[j1] == refs[j1]);
        if j2 < refs.len() {
            assert(refs2[j2] == refs[j2]);
        } else {
            assert(refs2[j2] == rn);
            assert(refs[j1].batch < m.batches.len());
        }
    }
    assert(displaced_chain_state(m1, s0, refs2));
    // Payload bookkeeping.
    assert(refs2.drop_last() =~= refs);
    lemma_chain_payloads_stable(m, m1, refs);
    assert(batch_payloads(m1.batches[bidb]) =~= batch_payloads(m.building));
    assert(chain_payloads(m1, refs2) == batch_payloads(m.building) + chain_payloads(m, refs));
}

/// Retiring while the chain stands only grows the building batch.
#[verifier::rlimit(60)]
pub proof fn lemma_retire_keeps_chain(
    m: CollectorModel,
    s0: int,
    refs: Seq<NodeRef>,
    garbage: Option<u64>,
)
    requires
        displaced_chain_state(m, s0, refs),
        m.building.size < BATCH_SIZE,
    ensures
        displaced_chain_state(spec_retire(m, garbage), s0, refs),
        spec_retire(m, garbage).destroyed == m.destroyed,
        spec_retire(m, garbage).batches == m.batches,
{
    match garbage {
        None => {},
        Some(p) => {
            let m2 = spec_retire(m, garbage);
            assert forall|j: int|
                0 <= j < m2.building.nodes.len() implies (#[trigger] m2.building.nodes[j]).list.is_none() by {
                if j < m.building.nodes.len() {
                    assert(m.building.nodes[j].list.is_none());
                }
            }
            crate::collector::lemma_building_change_wf(m, m2);
        },
    }
}

/// A retirement that finds the building batch full publishes it first
/// — extending the chain exactly as an explicit publication would —
/// and the retired node starts the next batch.
pub proof fn lemma_retire_full_extends_chain(
    m: CollectorModel,
    s0: int,
    refs: Seq<NodeRef>,
    p: u64,
)
    requires
        displaced_chain_state(m, s0, refs),
        m.batches.len() + 2 < usize::MAX,
        m.building.size == BATCH_SIZE,
    ensures
        ({
            let rn = NodeRef {
                batch: m.batches.len() as usize,
                idx: chain_pos_idx(m.building.size, s0) as usize,
            };
            let m2 = spec_retire(m, Some(p));
            &&& displaced_chain_state(m2, s0, refs.push(rn))
            &&& m2.destroyed == m.destroyed
            &&& m2.building.size == 1
        }),
{
    lemma_publish_extends_chain(m, s0, refs);
    let rn = NodeRef {
        batch: m.batches.len() as usize,
        idx: chain_pos_idx(m.building.size, s0) as usize,
    };
    let refs2 = refs.push(rn);
    let m1 = spec_process(m);
    let m2 = spec_retire(m, Some(p));
    let mp = CollectorModel {
        batches: m.batches.push(m.building),
        freed: m.freed.push(false),
        building: BatchModel {
            id: (m.batches.len() + 1) as usize,
            nodes: Seq::<Node>::empty(),
            size: 0,
            nref: 0,
        },
        ..m
    };
    crate::collector::lemma_publish_loop_building(mp, m.batches.len() as int, 0);
    assert(m1.building.size == 0);
    assert(m1.building.nodes.len() == 0);
    assert(m2.slots == m1.slots);
    assert(m2.batches == m1.batches);
    assert(m2.freed == m1.freed);
    assert(m2.destroyed == m1.destroyed);
    let nd = Node { val: Some(p), list: None, batch: None, nref_node: None };
    assert(m2.building == spec_add(m1.building, nd));
    assert(m2.building.nodes.len() == 1);
    assert(m2.building.size == 1);
    assert(m2.building.nodes[0] == (Node {
        val: Some(p),
        list: None,
        batch: None,
        nref_node: Some(m1.building.id),
    }));
    assert(chain_wf(m2.building));
    assert forall|j: int|
        0 <= j < m2.building.nodes.len() implies (#[trigger] m2.building.nodes[j]).list.is_none() by {
        assert(m2.building.nodes[j] == m2.building.nodes[0]);
    }
    crate::collector::lemma_building_change_wf(m1, m2);
    assert(displaced_chain_state(m2, s0, refs2)) by {
        assert forall|j: int| 0 <= j < refs2.len() implies valid_ref(m2, #[trigger] refs2[j])
            && m_node(m2, refs2[j]) == m_node(m1, refs2[j]) && !m2.freed[refs2[j].batch as int] by {
            assert(valid_ref(m1, refs2[j]));
        }
    }
}

/// Once the newest batch of a displaced chain has been paid and the
/// slot drained, the remaining chain is a unit chain: each displaced
/// batch waits on exactly its final unit.
proof fn lemma_unit_chain_from_displaced(
    m: CollectorModel,
    mu2: CollectorModel,
    s0: int,
    refs: Seq<NodeRef>,
)
    requires
        displaced_chain_state(m, s0, refs),
        refs.len() >= 2,
        mu2.batches.len() == m.batches.len(),
        mu2.freed.len() == m.freed.len(),
        forall|b: int|
            0 <= b < m.batches.len() && b != (refs.last().batch as int) ==> #[trigger] mu2.batches[b] == m.batches[b],
        forall|b: int|
            0 <= b < m.freed.len() && b != (refs.last().batch as int) ==> #[trigger] mu2.freed[b] == m.freed[b],
    ensures
        unit_chain(mu2, refs.drop_last()),
{
    let rest = refs.drop_last();
    let rlast = refs.last();
    assert forall|j: int|
        0 <= j < rest.len() implies valid_ref(mu2, #[trigger] rest[j]) && m_node(
        mu2,
        rest[j],
    ).nref_node == Some(rest[j].batch) && mu2.batches[rest[j].batch as int].nref == 1u64
        && !mu2.freed[rest[j].batch as int] && batch_destroy_req(mu2, rest[j].batch as int)
        && m_node(mu2, rest[j]).list == (if j == 0 {
        None
    } else {
        Some(rest[j - 1])
    }) by {
        assert(rest[j] == refs[j]);
        assert(refs[j].batch < rlast.batch);
        assert(valid_ref(m, refs[j]));
        assert(mu2.batches[refs[j].batch as int] == m.batches[refs[j].batch as int]);
        assert(published_batch_wf(m, refs[j].batch as int));
        assert(m_node(m, refs[j]).nref_node == Some(refs[j].batch)) by {
            assert(chain_wf(m.batches[refs[j].batch as int]));
        }
        if j > 0 {
            assert(rest[j - 1] == refs[j - 1]);
        }
    }
    assert forall|j1: int, j2: int|
        0 <= j1 < j2 < rest.len() implies (#[trigger] rest[j1]).batch < (
    #[trigger] rest[j2]).batch by {
        assert(rest[j1] == refs[j1]);
        assert(rest[j2] == refs[j2]);
    }
}

/// The reader's single unpin reclaims the entire chain: the drained
/// slot pays the newest batch its last `ADJS`, the traversal pays
/// every displaced batch its last unit, and so every batch the reader
/// outlived is freed and its payloads destroyed, each exactly once,
/// newest batch first.
#[verifier::rlimit(100)]
pub proof fn lemma_unpin_reclaims_chain(m: CollectorModel, s0: int, refs: Seq<NodeRef>)
    requires
        displaced_chain_state(m, s0, refs),
    ensures
        ({
            let m2 = spec_unpin(m, Guard { slot: s0 as usize, handle: None });
            &&& forall|j: int|
                0 <= j < refs.len() ==> m2.freed[(#[trigger] refs[j]).batch as int]
            &&& m2.destroyed == m.destroyed + chain_payloads(m, refs)
            &&& forall|s: int|
                0 <= s < SLOTS_LENGTH ==> (#[trigger] m2.slots[s]) == (NonAtomicHeadNode {
                    head_ptr: None,
                    head_count: 0,
                })
        }),
{
    let g = Guard { slot: s0 as usize, handle: None };
    let rlast = refs.last();
    let bidl = rlast.batch as int;
    assert(slot_ref_wf(m, Some(rlast)));
    assert(published_batch_wf(m, bidl));
    assert(m_node(m, rlast).nref_node == Some(rlast.batch)) by {
        assert(chain_wf(m.batches[bidl]));
    }
    let mu1 = CollectorModel {
        slots: m.slots.update(s0, NonAtomicHeadNode { head_ptr: None, head_count: 0 }),
        ..m
    };
    let mu2 = spec_add_adjs(mu1, Some(rlast), ADJS);
    lemma_adjs_step(SLOTS_LENGTH as int - 1);
    lemma_adjs_wrap(SLOTS_LENGTH as int);
    assert(m.batches[bidl].nref.wrapping_add(ADJS) == 0);
    assert(mu2.freed[bidl]);
    assert(mu2.destroyed == m.destroyed + batch_payloads(BatchModel {
        nref: 0u64,
        ..m.batches[bidl]
    }));
    assert(batch_payloads(BatchModel { nref: 0u64, ..m.batches[bidl] }) =~= batch_payloads(
        m.batches[bidl],
    ));
    let m2 = spec_unpin(m, g);
    if refs.len() == 1 {
        assert(m_node(m, rlast).list.is_none());
        assert(m2 == mu2);
        assert(refs.drop_last() =~= Seq::<NodeRef>::empty());
        assert(chain_payloads(m, Seq::<NodeRef>::empty()) == Seq::<u64>::empty());
        assert(chain_payloads(m, refs) == batch_payloads(m.batches[bidl]) + Seq::<u64>::empty());
        assert(m.destroyed + chain_payloads(m, refs) =~= mu2.destroyed);
    } else {
        let rest = refs.drop_last();
        assert(m_node(m, rlast).list == Some(rest.last())) by {
            assert(refs[refs.len() - 1] == rlast);
            assert(refs[refs.len() - 2] == rest.last());
        }
        assert(m2 == spec_traverse(mu2, rest.last(), None));
        assert forall|b: int|
            0 <= b < m.batches.len() && b != bidl implies #[trigger] mu2.batches[b]
            == m.batches[b] by {}
        assert(mu2.batches.len() == m.batches.len());
        assert(mu2.freed.len() == m.freed.len());
        assert forall|b: int|
            0 <= b < m.freed.len() && b != bidl implies #[trigger] mu2.freed[b]
            == m.freed[b] by {}
        lemma_unit_chain_from_displaced(m, mu2, s0, refs);
        lemma_traverse_unit_chain(mu2, rest);
        lemma_chain_payloads_stable(m, mu2, rest);
        lemma_traverse_freed_stays(mu2, rest, bidl);
        lemma_traverse_slots(mu2, rest.last(), None);
        assert forall|j: int|
            0 <= j < refs.len() implies m2.freed[(#[trigger] refs[j]).batch as int] by {
            if j < rest.len() {
                assert(rest[j] == refs[j]);
            } else {
                assert(refs[j] == rlast);
            }
        }
        assert(m2.destroyed == mu2.destroyed + chain_payloads(mu2, rest));
        assert(m.destroyed + chain_payloads(m, refs) =~= mu2.destroyed + chain_payloads(m, rest));
    }
    assert forall|s: int|
        0 <= s < SLOTS_LENGTH implies (#[trigger] spec_unpin(m, g).slots[s])
        == (NonAtomicHeadNode { head_ptr: None, head_count: 0 }) by {
        if s != s0 {
            assert(m.slots[s] == (NonAtomicHeadNode { head_ptr: None, head_count: 0 }));
        }
    }
}

/// A batch displaced from its slot by a later publication is paid out
/// by the passing reader.  With one reader pinned at `s0` and batch
/// `bida` heading that slot (one `ADJS` short of complete), publishing
/// the building batch links the new node to `bida`'s and credits
/// `bida` with the reader count plus `ADJS` — one unit over a full
/// wrap, so `bida` now waits only for the reader.  Nothing is
/// destroyed until the reader unpins; then the drained slot pays the
/// new batch its last `ADJS` and the traversal pays `bida` its last
/// unit, so both batches are freed and both payload sets destroyed,
/// each exactly once.
#[verifier::rlimit(100)]
pub proof fn lemma_displaced_batch_paid_by_traversal(m: CollectorModel, bida: int, s0: int)
    requires
        pending_batch_state(m, bida, SLOTS_LENGTH as int - 1),
        m.batches.len() + 2 < usize::MAX,
        1 <= m.building.size,
        0 <= s0 < SLOTS_LENGTH,
        m.slots[s0].head_count == 1,
        m.slots[s0].head_ptr.is_some(),
        m.slots[s0].head_ptr.unwrap().batch == bida as usize,
        forall|s: int|
            0 <= s < SLOTS_LENGTH && s != s0 ==> (#[trigger] m.slots[s]) == (NonAtomicHeadNode {
                head_ptr: None,
                head_count: 0,
            }),
    ensures
        ({
            let bidb = m.batches.len() as int;
            let m1 = spec_process(m);
            let m2 = spec_unpin(m1, Guard { slot: s0 as usize, handle: None });
            &&& m1.destroyed == m.destroyed
            &&& !m1.freed[bida]
            &&& !m1.freed[bidb]
            &&& m2.freed[bida]
            &&& m2.freed[bidb]
            &&& m2.destroyed == m.destroyed + batch_payloads(m.building) + batch_payloads(
                m.batches[bida],
            )
        }),
{
    let bidb = m.batches.len() as int;
    let sz = m.building.size;
    let a0 = m.slots[s0].head_ptr.unwrap();
    let m_push = CollectorModel {
        batches: m.batches.push(m.building),
        freed: m.freed.push(false),
        building: BatchModel {
            id: (bidb + 1) as usize,
            nodes: Seq::<Node>::empty(),
            size: 0,
            nref: 0,
        },
        ..m
    };
    assert((ADJS as int) == 0x400000000000000);
    lemma_adjs_wrap(SLOTS_LENGTH as int - 1);
    assert(m.batches[bida].nref == 63 * 0x400000000000000);
    assert(slot_ref_wf(m, Some(a0)));
    assert(published_batch_wf(m, bida));
    assert(m_node(m, a0).nref_node == Some(a0.batch)) by {
        assert(chain_wf(m.batches[bida]));
    }
    assert(m_node(m, a0).list.is_none());
    assert(m_push.batches[bida].nref.wrapping_add((1 + ADJS) as u64) == 1);
    lemma_publish_loop_one_head(m_push, bidb, sz, 0, s0, a0);
    let m_loop = spec_publish_loop(m_push, bidb, 0);
    assert(m_loop.batches[bida] == (BatchModel { nref: 1u64, ..m.batches[bida] }));
    lemma_count_empty_except(m.slots, SLOTS_LENGTH as int, s0);
    let e = count_empty(m.slots, SLOTS_LENGTH as int);
    assert(e == SLOTS_LENGTH as int - 1);
    lemma_adjs_wrap(e);
    let nref_ref = NodeRef { batch: bidb as usize, idx: (sz - 1) as usize };
    assert(m_node(m_loop, nref_ref).nref_node == Some(bidb as usize)) by {
        assert(chain_wf(m_loop.batches[bidb]));
        assert(0 <= sz - 1 < m_loop.batches[bidb].size);
    }
    let m1 = spec_process(m);
    assert(m1 == spec_add_adjs(m_loop, Some(nref_ref), (e as u64).wrapping_mul(ADJS)));
    assert(m_loop.batches[bidb].nref.wrapping_add((e as u64).wrapping_mul(ADJS)) == (
    e as u64).wrapping_mul(ADJS));
    assert((e as u64).wrapping_mul(ADJS) != 0);
    assert(m1.batches[bidb] == (BatchModel {
        nref: (e as u64).wrapping_mul(ADJS),
        ..m_loop.batches[bidb]
    }));
    assert(m1.batches[bida] == m_loop.batches[bida]);
    assert(m1.destroyed == m.destroyed);
    assert(!m1.freed[bida]);
    assert(!m1.freed[bidb]);
    // The reader unpins: the slot drains, paying the new batch its
    // last ADJS; the traversal then pays the displaced batch its unit.
    let g = Guard { slot: s0 as usize, handle: None };
    let b0 = NodeRef { batch: bidb as usize, idx: chain_pos_idx(sz, s0) as usize };
    assert(m1.slots[s0] == (NonAtomicHeadNode { head_ptr: Some(b0), head_count: 1 }));
    assert(m_node(m1, b0).list == Some(a0)) by {
        assert(chain_pos_idx(sz, s0) < m_loop.batches[bidb].nodes.len());
    }
    assert(m_node(m1, b0).nref_node == Some(bidb as usize)) by {
        assert(chain_wf(m1.batches[bidb]));
    }
    let mu1 = CollectorModel {
        slots: m1.slots.update(s0, NonAtomicHeadNode { head_ptr: None, head_count: 0 }),
        ..m1
    };
    let mu2 = spec_add_adjs(mu1, Some(b0), ADJS);
    lemma_adjs_step(e);
    lemma_adjs_wrap(SLOTS_LENGTH as int);
    assert(m1.batches[bidb].nref.wrapping_add(ADJS) == 0);
    assert(mu2.freed[bidb]);
    assert(mu2.destroyed == m.destroyed + batch_payloads(BatchModel {
        nref: 0u64,
        ..m1.batches[bidb]
    }));
    assert(batch_payloads(BatchModel { nref: 0u64, ..m1.batches[bidb] }) =~= batch_payloads(
        m.building,
    ));
    // The traversal visits the displaced head and stops at the chain's
    // end.
    let m2 = spec_unpin(m1, g);
    assert(m2 == spec_traverse(mu2, a0, None));
    assert(m_node(mu2, a0).nref_node == Some(bida as usize));
    assert(m_node(mu2, a0).list.is_none());
    assert(mu2.batches[bida].nref == 1);
    let mt = spec_nref_sub1(mu2, bida);
    assert(m2 == mt);
    assert(mt.freed[bida]);
    assert(mt.freed[bidb]);
    assert(mt.destroyed == mu2.destroyed + batch_payloads(BatchModel {
        nref: 0u64,
        ..mu2.batches[bida]
    }));
    assert(batch_payloads(BatchModel { nref: 0u64, ..mu2.batches[bida] }) =~= batch_payloads(
        m.batches[bida],
    ));
    assert(m2.destroyed == m.destroyed + batch_payloads(m.building) + batch_payloads(
        m.batches[bida],
    ));
}

/// A reader that pins only after a batch was published, and unpins
/// again, does not disturb it: the pending batch still waits for the
/// readers that were present at publication, and nothing is destroyed
/// by the newcomer's visit.
pub proof fn lemma_late_reader_harmless(m: CollectorModel, bid: int, credits: int, t: int)
    requires
        pending_batch_state(m, bid, credits),
        0 <= t < SLOTS_LENGTH,
        m.slots[t].head_count < HEAD_COUNT_LIMIT,
    ensures
        spec_unpin(spec_pin(m, t), spec_pin_guard(m, t)) == m,
        pending_batch_state(spec_unpin(spec_pin(m, t), spec_pin_guard(m, t)), bid, credits),
{
    lemma_pin_unpin_identity(m, t);
}

} // verus!
