use nanoclaw_core::group_queue::GroupQueue;

#[test]
fn enforces_global_concurrency() {
    let mut q = GroupQueue::new(1);
    q.enqueue("g1");
    q.enqueue("g2");

    assert_eq!(q.next().as_deref(), Some("g1"));
    assert_eq!(q.next(), None);

    q.complete("g1");
    assert_eq!(q.next().as_deref(), Some("g2"));
}

#[test]
fn blocks_duplicate_when_active_or_queued() {
    let mut q = GroupQueue::new(2);
    q.enqueue("g1");
    q.enqueue("g1");
    assert_eq!(q.next().as_deref(), Some("g1"));
    q.enqueue("g1");
    assert_eq!(q.next(), None);
}

#[test]
fn tracks_active_groups() {
    let mut q = GroupQueue::new(2);
    q.enqueue("a");
    assert!(!q.is_active("a"));
    assert_eq!(q.next().as_deref(), Some("a"));
    assert!(q.is_active("a"));
    q.complete("a");
    assert!(!q.is_active("a"));
    q.complete("never-started");
    assert!(!q.is_active("never-started"));
}

#[test]
fn zero_concurrency_never_starts() {
    let mut q = GroupQueue::default();
    q.enqueue("a");
    assert_eq!(q.next(), None);
    let mut q = GroupQueue::new(0);
    q.enqueue("a");
    assert_eq!(q.next(), None);
}

#[test]
fn serves_in_arrival_order_up_to_the_limit() {
    let mut q = GroupQueue::new(2);
    q.enqueue("c");
    q.enqueue("a");
    q.enqueue("b");
    assert_eq!(q.next().as_deref(), Some("c"));
    assert_eq!(q.next().as_deref(), Some("a"));
    assert_eq!(q.next(), None);
    q.complete("c");
    assert_eq!(q.next().as_deref(), Some("b"));
    assert_eq!(q.next(), None);
}
