use transaction_pool::garbage_collector::{GarbageCollector, GarbageCollectorNode};
use transaction_pool::types::Address;

fn node(sender: Address, count: usize, timestamp: u64) -> GarbageCollectorNode {
    GarbageCollectorNode { sender, count, timestamp }
}

#[test]
fn collector_pops_larger_count_first() {
    let a = Address::new(1, 1);
    let b = Address::new(1, 2);
    let c = Address::new(1, 3);
    let mut gc = GarbageCollector::new();
    assert!(gc.is_empty());
    assert_eq!(gc.top(), None);
    assert_eq!(gc.pop(), None);
    gc.insert(&a, 1, 50);
    gc.insert(&b, 3, 70);
    gc.insert(&c, 2, 10);
    assert_eq!(gc.len(), 3);
    assert_eq!(gc.gc_size(), 6);
    assert_eq!(gc.top(), Some(node(b, 3, 70)));
    assert_eq!(gc.pop(), Some(node(b, 3, 70)));
    assert_eq!(gc.pop(), Some(node(c, 2, 10)));
    assert_eq!(gc.pop(), Some(node(a, 1, 50)));
    assert_eq!(gc.pop(), None);
    assert!(gc.is_empty());
}

#[test]
fn collector_breaks_ties_by_age_then_address() {
    let a = Address::new(1, 1);
    let b = Address::new(1, 2);
    let c = Address::new(0, 9);
    let mut gc = GarbageCollector::new();
    gc.insert(&a, 0, 30);
    gc.insert(&b, 0, 20);
    gc.insert(&c, 0, 30);
    assert_eq!(gc.pop(), Some(node(b, 0, 20)));
    assert_eq!(gc.pop(), Some(node(c, 0, 30)));
    assert_eq!(gc.pop(), Some(node(a, 0, 30)));
}

#[test]
fn collector_insert_replaces_the_record() {
    let a = Address::new(1, 1);
    let b = Address::new(1, 2);
    let mut gc = GarbageCollector::new();
    gc.insert(&a, 4, 30);
    gc.insert(&b, 1, 30);
    gc.insert(&a, 0, 99);
    assert_eq!(gc.len(), 2);
    assert_eq!(gc.gc_size(), 1);
    assert_eq!(gc.get_timestamp(&a), Some(99));
    assert_eq!(gc.get_timestamp(&Address::new(7, 7)), None);
    assert_eq!(gc.get(&b), Some(node(b, 1, 30)));
    assert_eq!(gc.top(), Some(node(b, 1, 30)));
    gc.clear();
    assert_eq!(gc.len(), 0);
    assert_eq!(gc.gc_size(), 0);
}

#[test]
fn collector_size_is_capped() {
    let mut gc = GarbageCollector::new();
    gc.insert(&Address::new(1, 1), usize::MAX, 1);
    gc.insert(&Address::new(1, 2), 5, 1);
    assert_eq!(gc.gc_size(), usize::MAX);
}
