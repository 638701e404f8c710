use hyaline_smr::Collector;
use hyaline_smr::HEAD_COUNT_LIMIT;
use hyaline_smr::SLOTS_LENGTH;

const MAX_THREADS: usize = 8;

fn node_producer(i: usize) -> Option<u64> {
    if i % 2 == 0 {
        Some(i as u64)
    } else {
        Some((3 * i) as u64)
    }
}

/// Workers take turns pinning once and retiring 5000 payloads each;
/// after the last worker's guard drops and the residual batch is
/// flushed, every payload's deferred destruction has run exactly once.
#[test]
fn count_drop() {
    let mut collector = Collector::new();
    for _i in 0..MAX_THREADS {
        let guard = collector.pin();
        for j in 0..5000 {
            collector.retire(node_producer(j), &guard);
        }
        collector.unpin(guard);
    }
    collector.process_batch_handle();
    assert_eq!(collector.destroyed().len(), MAX_THREADS * 5000);
    for b in 0..collector.batch_count() {
        assert!(collector.is_batch_freed(b));
    }
}

/// Three readers in turn retire a pair of payloads each; once all
/// guards are gone and the residual batch is flushed, all six are
/// destroyed.
#[test]
fn collector_test() {
    let mut collector = Collector::new();
    let mut expected: u64 = 0;
    for round in 0..3 {
        let guard = collector.pin();
        collector.retire(Some((2 * round) as u64), &guard);
        collector.retire(Some((2 * round + 1) as u64), &guard);
        expected += 2;
        collector.unpin(guard);
    }
    collector.process_batch_handle();
    assert_eq!(collector.destroyed().len(), expected as usize);
}

/// A stack whose popped nodes are retired rather than dropped: after
/// 16 rounds of 1024 pushes and pops, the stack is empty and every
/// popped payload was destroyed exactly once.
#[test]
fn treiber_stack() {
    let mut collector = Collector::new();
    let mut stack: Vec<u64> = Vec::new();
    let mut pushes: usize = 0;
    for round in 0..16u64 {
        for i in 0..1024u64 {
            stack.push(round * 1024 + i);
            pushes += 1;
            let guard = collector.pin();
            let popped = stack.pop();
            collector.retire(popped, &guard);
            collector.unpin(guard);
        }
    }
    collector.process_batch_handle();
    assert!(stack.is_empty());
    assert_eq!(collector.destroyed().len(), pushes);
    let destroyed = collector.destroyed();
    let mut seen = vec![false; pushes];
    for p in destroyed {
        assert!(!seen[*p as usize]);
        seen[*p as usize] = true;
    }
}

/// With nothing pinned, a single retirement is destroyed as soon as
/// the batch is published.
#[test]
fn single_thread_free() {
    let mut collector = Collector::new();
    let guard = collector.pin();
    collector.retire(Some(42), &guard);
    collector.unpin(guard);
    assert_eq!(collector.destroyed().len(), 0);
    collector.process_batch_handle();
    assert_eq!(collector.destroyed().len(), 1);
    assert_eq!(collector.destroyed()[0], 42);
}

/// Pinning and immediately dropping the guard leaves every slot
/// exactly as it was before the pin.
#[test]
fn pin_then_drop_guard_leaves_slots() {
    let mut collector = Collector::new();
    let guard = collector.pin();
    assert!(guard.get_slot() < SLOTS_LENGTH);
    assert!(collector.load_slot(guard.get_slot()).head_count == 1);
    assert!(collector.load_slot(guard.get_slot()).head_count < HEAD_COUNT_LIMIT);
    collector.unpin(guard);
    for s in 0..SLOTS_LENGTH {
        let slot = collector.load_slot(s);
        assert!(slot.head_count == 0);
        assert!(slot.head_ptr.is_none());
    }
}

/// One pinned reader defers a retirement until that reader unpins.
#[test]
fn single_reader_defers() {
    let mut collector = Collector::new();
    let guard = collector.pin();
    collector.retire(Some(7), &guard);
    collector.process_batch_handle();
    assert_eq!(collector.destroyed().len(), 0);
    collector.unpin(guard);
    assert_eq!(collector.destroyed().len(), 1);
    assert_eq!(collector.destroyed()[0], 7);
}

/// Many simultaneous readers each defer a retirement; the payload is
/// destroyed only when the last of them unpins.
#[test]
fn many_readers_defer() {
    let mut collector = Collector::new();
    let mut guards = Vec::new();
    for _i in 0..SLOTS_LENGTH {
        guards.push(collector.pin());
    }
    let retiree = collector.pin();
    collector.retire(Some(99), &retiree);
    collector.unpin(retiree);
    collector.process_batch_handle();
    assert_eq!(collector.destroyed().len(), 0);
    while guards.len() > 1 {
        let g = guards.pop().unwrap();
        collector.unpin(g);
        assert_eq!(collector.destroyed().len(), 0);
    }
    let last = guards.pop().unwrap();
    collector.unpin(last);
    assert_eq!(collector.destroyed().len(), 1);
    assert_eq!(collector.destroyed()[0], 99);
}

/// Filling a batch to exactly its capacity and publishing it under a
/// pinned reader: all the destructors run by the time the reader's
/// unpin returns.
#[test]
fn batch_fill_boundary() {
    let mut collector = Collector::new();
    let guard = collector.pin();
    for i in 0..hyaline_smr::BATCH_SIZE {
        collector.retire(Some(i as u64), &guard);
    }
    assert!(collector.is_full());
    collector.process_batch_handle();
    assert_eq!(collector.destroyed().len(), 0);
    collector.unpin(guard);
    assert_eq!(collector.destroyed().len(), hyaline_smr::BATCH_SIZE);
}

/// A reader that pins and unpins after publication does not release
/// the payload; only the reader that was present at publication does.
#[test]
fn guard_lifetime_overlap() {
    let mut collector = Collector::new();
    let guard_a = collector.pin();
    collector.retire(Some(1234), &guard_a);
    collector.process_batch_handle();
    let guard_c = collector.pin();
    collector.unpin(guard_c);
    assert_eq!(collector.destroyed().len(), 0);
    collector.unpin(guard_a);
    assert_eq!(collector.destroyed().len(), 1);
    assert_eq!(collector.destroyed()[0], 1234);
}

/// Two publications under one reader chain their batches through the
/// reader's slot; the unpin pays the newer batch by draining the slot
/// and the displaced older batch by traversal, destroying both.
#[test]
fn displaced_batch_paid_at_unpin() {
    let mut collector = Collector::new();
    let guard = collector.pin();
    for i in 0..hyaline_smr::BATCH_SIZE {
        collector.retire(Some(i as u64), &guard);
    }
    collector.process_batch_handle();
    for i in 0..3u64 {
        collector.retire(Some(1000 + i), &guard);
    }
    collector.process_batch_handle();
    assert_eq!(collector.destroyed().len(), 0);
    collector.unpin(guard);
    assert_eq!(collector.destroyed().len(), hyaline_smr::BATCH_SIZE + 3);
    // Chain order: the newer batch's payloads come first, newest real
    // node first.
    assert_eq!(collector.destroyed()[0], 1002);
    assert_eq!(collector.destroyed()[3], (hyaline_smr::BATCH_SIZE - 1) as u64);
    assert!(collector.is_batch_freed(0));
    assert!(collector.is_batch_freed(1));
}

/// Any number of publications under one reader chain up on its slot;
/// nothing is destroyed until the reader unpins, and then every batch
/// it outlived is reclaimed at once, each payload exactly once.
#[test]
fn publication_chain_reclaimed_at_unpin() {
    let mut collector = Collector::new();
    let guard = collector.pin();
    let mut retired: usize = 0;
    for round in 0..5u64 {
        for i in 0..2u64 {
            collector.retire(Some(round * 2 + i), &guard);
            retired += 1;
        }
        collector.process_batch_handle();
        assert_eq!(collector.destroyed().len(), 0);
    }
    assert_eq!(collector.batch_count(), 5);
    collector.unpin(guard);
    assert_eq!(collector.destroyed().len(), retired);
    for b in 0..collector.batch_count() {
        assert!(collector.is_batch_freed(b));
    }
    let mut seen = vec![false; retired];
    for p in collector.destroyed() {
        assert!(!seen[*p as usize]);
        seen[*p as usize] = true;
    }
}

/// Retiring nothing changes nothing.
#[test]
fn retire_none_is_noop() {
    let mut collector = Collector::new();
    let guard = collector.pin();
    collector.retire(None, &guard);
    assert_eq!(collector.get_size(), 0);
    collector.unpin(guard);
    collector.process_batch_handle();
    assert_eq!(collector.destroyed().len(), 0);
    assert_eq!(collector.batch_count(), 0);
}
