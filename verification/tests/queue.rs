use nanoclaw_core::queue::GroupQueue;

#[test]
fn preserves_fifo() {
    let mut q = GroupQueue::default();
    q.enqueue("g1");
    q.enqueue("g2");
    assert_eq!(q.dequeue().as_deref(), Some("g1"));
    assert_eq!(q.dequeue().as_deref(), Some("g2"));
}

#[test]
fn deduplicates_inflight_group() {
    let mut q = GroupQueue::default();
    q.enqueue("g1");
    q.enqueue("g1");
    assert_eq!(q.len(), 1);
    assert_eq!(q.dequeue().as_deref(), Some("g1"));
    assert!(q.is_empty());
}

#[test]
fn dequeued_group_can_wait_again() {
    let mut q = GroupQueue::default();
    assert_eq!(q.dequeue(), None);
    q.enqueue("g1");
    assert_eq!(q.dequeue().as_deref(), Some("g1"));
    q.enqueue("g1");
    assert_eq!(q.len(), 1);
    assert!(!q.is_empty());
}
