use simblock::event::SimEvent;
use simblock::simulation::event_queue::EventQueue;
use simblock::simulation::node::NodeState;
use simblock::simulation::propagation::PropagationTracker;
use simblock::types::BlockId;
use std::collections::VecDeque;

fn ev(n: u32) -> SimEvent {
    SimEvent::InvArrive { to: n, from: n, block: BlockId(0) }
}

#[test]
fn event_queue_pops_by_time_then_sequence() {
    let mut q = EventQueue::new();
    assert_eq!(q.push(30, ev(1)), (30, 1));
    assert_eq!(q.push(10, ev(2)), (10, 2));
    assert_eq!(q.push(10, ev(3)), (10, 3));
    assert_eq!(q.push(20, ev(4)), (20, 4));
    assert_eq!(q.len(), 4);
    let order: Vec<(u64, u64)> = std::iter::from_fn(|| q.pop_live().map(|t| (t.at_ms(), t.seq()))).collect();
    assert_eq!(order, vec![(10, 2), (10, 3), (20, 4), (30, 1)]);
    assert_eq!(q.len(), 0);
}

#[test]
fn event_queue_skips_cancelled_entries() {
    let mut q = EventQueue::new();
    let (_, a) = q.push(5, ev(1));
    q.push(7, ev(2));
    q.cancel(a);
    q.cancel(a);
    q.cancel(99);
    let t = q.pop_live().unwrap();
    assert_eq!((t.at_ms, t.seq), (7, 2));
    assert_eq!(t.inner, ev(2));
    assert!(q.pop_live().is_none());
    q.push(1, ev(3));
    q.clear();
    assert_eq!(q.len(), 0);
    assert!(q.pop_live().is_none());
}

#[test]
fn propagation_tracker_records_and_evicts_oldest() {
    let mut t = PropagationTracker::with_capacity(2);
    t.record(BlockId(1), 5, 100);
    t.record(BlockId(1), 6, 120);
    t.record(BlockId(1), 5, 90);
    assert_eq!(t.observations(BlockId(1)), vec![(5, 90), (6, 120)]);
    t.record(BlockId(2), 1, 0);
    t.record(BlockId(3), 1, 0);
    // capacity 2 allows a third block; the fourth evicts the oldest
    assert_eq!(t.blocks(), vec![BlockId(1), BlockId(2), BlockId(3)]);
    t.record(BlockId(4), 2, 7);
    assert_eq!(t.blocks(), vec![BlockId(2), BlockId(3), BlockId(4)]);
    assert!(t.observations(BlockId(1)).is_empty());
    t.evict_oldest();
    assert_eq!(t.blocks(), vec![BlockId(3), BlockId(4)]);
    let mut e = PropagationTracker::with_capacity(0);
    e.evict_oldest();
    assert!(e.blocks().is_empty());
}

fn node(outbound: Vec<u32>, inbound: Vec<u32>) -> NodeState {
    NodeState {
        id: 1,
        region: 0,
        mining_power: 1,
        use_cbr: false,
        is_churn: false,
        max_outbound: 4,
        outbound,
        inbound,
        tip: None,
        pending_mining: None,
        orphans: Vec::new(),
        block_send_queue: VecDeque::new(),
        sending_block: false,
        downloading: Vec::new(),
    }
}

#[test]
fn node_neighbor_views() {
    let n = node(vec![7, 3], vec![5]);
    assert_eq!(n.neighbors_iter(), vec![7, 3, 5]);
    assert_eq!(n.neighbors_sorted(), vec![3, 5, 7]);
    assert_eq!(n.neighbors(), vec![3, 5, 7]);
    assert_eq!(n.neighbor_count(), 3);
    let empty = node(vec![], vec![]);
    assert_eq!(empty.neighbor_count(), 0);
    assert!(empty.neighbors().is_empty());
}
