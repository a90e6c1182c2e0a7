use atlas::batch::MergedOp;
use atlas::protocol::{IoOp, IoPriority, IoRequest};
use atlas::scheduler::Scheduler;

fn make_op(id: u64, priority: IoPriority) -> MergedOp {
    let req = IoRequest::new(id, IoOp::Read, priority);
    MergedOp { req, channel_idx: 0, sources: vec![(id, 0, 4096)] }
}

#[test]
fn priority_ordering() {
    let mut sched = Scheduler::new();
    sched.enqueue(make_op(1, IoPriority::Low));
    sched.enqueue(make_op(2, IoPriority::Critical));
    sched.enqueue(make_op(3, IoPriority::High));

    let ops = sched.drain(10);
    assert_eq!(ops[0].req.id, 2); // Critical first
    assert_eq!(ops[1].req.id, 3); // High second
    assert_eq!(ops[2].req.id, 1); // Low last
}

#[test]
fn drain_respects_max_and_keeps_the_rest() {
    let mut sched = Scheduler::new();
    sched.enqueue_all(vec![
        make_op(1, IoPriority::Low),
        make_op(2, IoPriority::High),
        make_op(3, IoPriority::Critical),
        make_op(4, IoPriority::High),
        make_op(5, IoPriority::Critical),
    ]);
    assert_eq!(sched.len(), 5);
    let first: Vec<u64> = sched.drain(3).iter().map(|m| m.req.id).collect();
    assert_eq!(first, vec![3, 5, 2]);
    assert_eq!(sched.len(), 2);
    let rest: Vec<u64> = sched.drain(10).iter().map(|m| m.req.id).collect();
    assert_eq!(rest, vec![4, 1]);
    assert!(sched.is_empty());
    assert!(sched.drain(4).is_empty());
}

#[test]
fn unknown_priority_goes_to_low() {
    let mut sched = Scheduler::new();
    let mut odd = make_op(1, IoPriority::Low);
    odd.req.priority = 9;
    sched.enqueue(odd);
    sched.enqueue(make_op(2, IoPriority::High));
    let ids: Vec<u64> = sched.drain(0).iter().map(|m| m.req.id).collect();
    assert!(ids.is_empty());
    let ids: Vec<u64> = sched.drain(2).iter().map(|m| m.req.id).collect();
    assert_eq!(ids, vec![2, 1]);
}
