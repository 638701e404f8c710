use hyaline_smr::Batch;
use hyaline_smr::Collector;
use hyaline_smr::Node;
use hyaline_smr::BATCH_SIZE;

fn node_producer(i: usize) -> Node {
    if i % 2 == 0 {
        Node::new(i as u64)
    } else {
        Node::new((2 * i + 1) as u64)
    }
}

#[test]
fn basic_batch_test() {
    let mut collector = Collector::new();
    for i in 1..2 * BATCH_SIZE {
        collector.add_to_batch(node_producer(i));
        if i % BATCH_SIZE != 0 {
            assert!(!collector.is_full());
            assert!(collector.get_size() == i % BATCH_SIZE);
        } else {
            assert!(collector.is_full());
            assert!(collector.get_size() == BATCH_SIZE)
        }
    }
}

#[test]
fn full_iterator_test() {
    let mut batch = Batch::default();
    for i in 1..BATCH_SIZE + 3 {
        let res = batch.add(node_producer(i));
        if i == BATCH_SIZE + 1 {
            assert!(res.is_err());
            break;
        }
    }
    let mut batch_iter = batch.iter();
    let mut count = 0;
    while let Some(node) = batch_iter.next(&mut batch) {
        count += 1;
        if count != BATCH_SIZE {
            assert!(node.is_present_batch_ptr());
        } else {
            assert!(!node.is_present_batch_ptr());
        }
    }
    assert_eq!(count, BATCH_SIZE);
}

#[test]
fn partial_iterator_test() {
    let mut batch = Batch::default();
    for i in 1..BATCH_SIZE / 2 {
        let res = batch.add(node_producer(i));
        assert!(res.is_ok());
    }
    let mut batch_iter = batch.iter();
    let mut count = 0;
    while let Some(node) = batch_iter.next(&mut batch) {
        count += 1;
        if count != BATCH_SIZE {
            assert!(node.is_present_batch_ptr());
        } else {
            assert!(!node.is_present_batch_ptr());
        }
    }
    assert_eq!(count, BATCH_SIZE);
}

#[test]
fn empty_batch_yields_nothing() {
    let mut batch = Batch::default();
    let mut batch_iter = batch.iter();
    assert!(batch_iter.next(&mut batch).is_none());
    assert_eq!(batch.get_size(), 0);
    assert!(!batch.is_full());
}

#[test]
fn filler_inherits_batch_identity() {
    let mut batch = Batch::default();
    for i in 1..4 {
        assert!(batch.add(node_producer(i)).is_ok());
    }
    let first = batch.get_node_nref();
    assert!(first.is_some());
    let mut batch_iter = batch.iter();
    let mut count = 0;
    while let Some(node) = batch_iter.next(&mut batch) {
        count += 1;
        // Every yielded node, filler or not, charges the same batch.
        assert_eq!(node.get_batch_ptr(), 0);
    }
    assert_eq!(count, BATCH_SIZE);
}
