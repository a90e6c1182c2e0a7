use atlas::pipeline::{Batched, PassThrough, Pipeline};
use atlas::protocol::{IoOp, IoPriority, IoRequest};

fn req(id: u64, op: IoOp, fd: u64, offset: u64, len: u32) -> IoRequest {
    let mut r = IoRequest::new(id, op, IoPriority::High);
    r.fd = fd;
    r.offset = offset;
    r.len = len;
    r
}

#[test]
fn passthrough_preserves_order_and_does_not_merge() {
    let mut p = PassThrough::new();
    // Two adjacent reads on the same fd that Batched would merge.
    p.add(req(1, IoOp::Read, 10, 0, 4096), 0);
    p.add(req(2, IoOp::Read, 10, 4096, 4096), 0);
    let ops = p.drain();
    assert_eq!(ops.len(), 2, "passthrough must not coalesce");
    assert_eq!(ops[0].req.id, 1);
    assert_eq!(ops[1].req.id, 2);
    assert_eq!(ops[0].sources.len(), 1);
}

#[test]
fn batched_coalesces_adjacent_reads() {
    let mut p = Batched::new();
    p.add(req(1, IoOp::Read, 10, 0, 4096), 0);
    p.add(req(2, IoOp::Read, 10, 4096, 4096), 0);
    let ops = p.drain();
    assert_eq!(ops.len(), 1, "batched must coalesce");
    assert_eq!(ops[0].sources.len(), 2);
    assert_eq!(ops[0].req.len, 8192);
}

#[test]
fn is_empty_tracks_state() {
    let mut p = PassThrough::new();
    assert!(p.is_empty());
    p.add(req(1, IoOp::Read, 10, 0, 4096), 0);
    assert!(!p.is_empty());
    p.drain();
    assert!(p.is_empty());
}

#[test]
fn batched_is_empty_tracks_state() {
    let mut p = Batched::default();
    assert!(p.is_empty());
    p.add(req(1, IoOp::Sync, 10, 0, 0), 0);
    assert!(!p.is_empty());
    assert_eq!(p.drain().len(), 1);
    assert!(p.is_empty());
    assert!(p.drain().is_empty());
}

#[test]
fn batched_drains_by_priority() {
    let mut p = Batched::new();
    let mut low = req(1, IoOp::Read, 10, 0, 10);
    low.priority = 0;
    let mut crit = req(2, IoOp::Sync, 10, 0, 0);
    crit.priority = 2;
    let high = req(3, IoOp::Open, 0, 0, 0);
    p.add(low, 0);
    p.add(crit, 0);
    p.add(high, 1);
    let ids: Vec<u64> = p.drain().iter().map(|m| m.req.id).collect();
    assert_eq!(ids, vec![2, 3, 1]);
}

#[test]
fn passthrough_wraps_each_request_as_single_source() {
    let mut p = PassThrough::default();
    let mut w = req(9, IoOp::Write, 3, 100, 50);
    w.data_offset = 640;
    p.add(w, 4);
    let ops = p.drain();
    assert_eq!(ops.len(), 1);
    assert_eq!(ops[0].channel_idx, 4);
    assert_eq!(ops[0].req.data_offset, 640);
    assert_eq!(ops[0].sources, vec![(9, 0, 50)]);
}

#[test]
fn batched_drain_leaves_nothing_pending() {
    let mut p = Batched::new();
    p.add(req(1, IoOp::Sync, 0, 0, 0), 0);
    p.add(req(2, IoOp::Sync, 0, 0, 0), 1);
    assert!(!p.is_empty());
    let out = p.drain();
    assert_eq!(out.len(), 2);
    assert!(p.is_empty());
    assert!(p.drain().is_empty());
}
