use atlas::batch::BatchEngine;
use atlas::protocol::{IoOp, IoPriority, IoRequest};

fn req(id: u64, op: IoOp, fd: u64, offset: u64, len: u32) -> IoRequest {
    let mut r = IoRequest::new(id, op, IoPriority::High);
    r.fd = fd;
    r.offset = offset;
    r.len = len;
    r
}

#[test]
fn merge_adjacent_reads() {
    let mut engine = BatchEngine::new();

    let mut r1 = IoRequest::new(1, IoOp::Read, IoPriority::High);
    r1.fd = 10;
    r1.offset = 0;
    r1.len = 4096;
    r1.data_offset = 0;
    engine.add(r1, 0);

    let mut r2 = IoRequest::new(2, IoOp::Read, IoPriority::High);
    r2.fd = 10;
    r2.offset = 4096;
    r2.len = 4096;
    r2.data_offset = 4096;
    engine.add(r2, 0);

    let merged = engine.drain_merged();
    assert_eq!(merged.len(), 1);
    assert_eq!(merged[0].req.len, 8192);
    assert_eq!(merged[0].sources.len(), 2);
}

#[test]
fn no_merge_different_fds() {
    let mut engine = BatchEngine::new();

    let mut r1 = IoRequest::new(1, IoOp::Read, IoPriority::High);
    r1.fd = 10;
    r1.offset = 0;
    r1.len = 4096;
    engine.add(r1, 0);

    let mut r2 = IoRequest::new(2, IoOp::Read, IoPriority::High);
    r2.fd = 11;
    r2.offset = 0;
    r2.len = 4096;
    engine.add(r2, 0);

    let merged = engine.drain_merged();
    assert_eq!(merged.len(), 2);
}

#[test]
fn empty_engine_drains_nothing() {
    let mut engine = BatchEngine::new();
    assert!(engine.is_empty());
    assert!(engine.drain_merged().is_empty());
}

#[test]
fn drain_empties_the_engine() {
    let mut engine = BatchEngine::new();
    engine.add(req(1, IoOp::Read, 1, 0, 10), 0);
    assert!(!engine.is_empty());
    engine.drain_merged();
    assert!(engine.is_empty());
}

#[test]
fn merges_out_of_order_and_overlapping_reads() {
    let mut engine = BatchEngine::new();
    engine.add(req(3, IoOp::Read, 7, 8192, 100), 0);
    engine.add(req(1, IoOp::Read, 7, 0, 4096), 0);
    engine.add(req(2, IoOp::Read, 7, 1000, 8000), 0);
    let merged = engine.drain_merged();
    assert_eq!(merged.len(), 1);
    let m = &merged[0];
    assert_eq!(m.req.id, 1);
    assert_eq!(m.req.offset, 0);
    // span 0 .. max(4096, 9000, 8292) = 9000
    assert_eq!(m.req.len, 9000);
    assert_eq!(m.sources, vec![(1, 0, 4096), (2, 1000, 8000), (3, 8192, 100)]);
}

#[test]
fn gap_between_reads_prevents_merge() {
    let mut engine = BatchEngine::new();
    engine.add(req(1, IoOp::Read, 7, 0, 100), 0);
    engine.add(req(2, IoOp::Read, 7, 101, 100), 0);
    let merged = engine.drain_merged();
    assert_eq!(merged.len(), 2);
    assert_eq!(merged[0].req.len, 100);
    assert_eq!(merged[1].req.offset, 101);
}

#[test]
fn no_merge_across_channels_or_ops() {
    let mut engine = BatchEngine::new();
    engine.add(req(1, IoOp::Read, 7, 0, 100), 0);
    engine.add(req(2, IoOp::Read, 7, 100, 100), 1);
    engine.add(req(3, IoOp::Write, 7, 200, 100), 0);
    engine.add(req(4, IoOp::Write, 7, 300, 100), 0);
    let merged = engine.drain_merged();
    // reads first (channel 0, then channel 1), then the merged writes
    assert_eq!(merged.len(), 3);
    assert_eq!((merged[0].req.id, merged[0].channel_idx), (1, 0));
    assert_eq!((merged[1].req.id, merged[1].channel_idx), (2, 1));
    assert_eq!(merged[2].req.id, 3);
    assert_eq!(merged[2].req.len, 200);
    assert_eq!(merged[2].sources, vec![(3, 0, 100), (4, 100, 100)]);
}

#[test]
fn structural_ops_pass_through_first_in_order() {
    let mut engine = BatchEngine::new();
    engine.add(req(1, IoOp::Read, 7, 0, 100), 0);
    engine.add(req(2, IoOp::Close, 7, 0, 0), 0);
    engine.add(req(3, IoOp::Open, 0, 0, 0), 1);
    engine.add(req(4, IoOp::Sync, 7, 0, 0), 0);
    let merged = engine.drain_merged();
    let ids: Vec<u64> = merged.iter().map(|m| m.req.id).collect();
    assert_eq!(ids, vec![2, 3, 4, 1]);
    assert_eq!(merged[1].channel_idx, 1);
    assert_eq!(merged[0].sources, vec![(2, 0, 0)]);
}

#[test]
fn every_request_is_a_source_exactly_once() {
    let mut engine = BatchEngine::new();
    let mut n = 0u64;
    for ch in 0..3usize {
        for fd in 0..3u64 {
            for k in 0..4u64 {
                n += 1;
                let op = if k % 2 == 0 { IoOp::Read } else { IoOp::Write };
                engine.add(req(n, op, fd, (k / 2) * 50, 60), ch);
            }
        }
    }
    let merged = engine.drain_merged();
    let mut ids: Vec<u64> = merged.iter().flat_map(|m| m.sources.iter().map(|s| s.0)).collect();
    ids.sort();
    assert_eq!(ids, (1..=n).collect::<Vec<u64>>());
}

#[test]
fn sources_lie_inside_merges_beyond_4gib() {
    let base: u64 = 5 << 30;
    let mut engine = BatchEngine::new();
    engine.add(req(2, IoOp::Read, 3, base + 4096, 4096), 0);
    engine.add(req(1, IoOp::Read, 3, base, 4096), 0);
    engine.add(req(3, IoOp::Read, 3, base + 6000, 100), 0);
    let merged = engine.drain_merged();
    assert_eq!(merged.len(), 1);
    assert_eq!((merged[0].req.offset, merged[0].req.len), (base, 8192));
    assert_eq!(merged[0].sources, vec![(1, 0, 4096), (2, 4096, 4096), (3, 6000, 100)]);
    for &(_, at, len) in &merged[0].sources {
        assert!(at + len <= merged[0].req.len);
    }
}

#[test]
fn sorting_is_stable_over_many_requests() {
    let mut engine = BatchEngine::new();
    // nine reads on fds 9..1 arriving in reverse, far apart so none merge,
    // and two reads at the same place on fd 1 arriving after them
    for k in 0..9u64 {
        engine.add(req(10 + k, IoOp::Read, 9 - k, 1 << 20, 8), 0);
    }
    engine.add(req(100, IoOp::Read, 1, 0, 8), 0);
    engine.add(req(101, IoOp::Read, 1, 0, 8), 0);
    let merged = engine.drain_merged();
    let fds: Vec<u64> = merged.iter().map(|m| m.req.fd).collect();
    assert_eq!(fds, vec![1, 1, 2, 3, 4, 5, 6, 7, 8, 9]);
    // the two equal reads on fd 1 merge, the earlier one first
    assert_eq!(merged[0].sources, vec![(100, 0, 8), (101, 0, 8)]);
    assert_eq!(merged[1].sources, vec![(18, 0, 8)]);
}
