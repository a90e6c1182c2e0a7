use atlas::batch::MergedOp;
use atlas::executor::{BatchKind, BatchOp, DataRef, IoExecutor};
use atlas::pipeline::{Batched, PassThrough, Pipeline};
use atlas::protocol::{IoOp, IoPriority, IoRequest};
use atlas::service::{fsync_reply, read_replies, write_replies, Reply, ServiceCore};
use std::collections::HashMap;

/// An executor over in-memory files, recording what it was asked to do.
#[derive(Default)]
struct MemExec {
    next_fd: i32,
    paths: HashMap<i32, String>,
    files: HashMap<String, usize>,
    log: Vec<String>,
}

impl IoExecutor for MemExec {
    fn open(&mut self, path: &str, flags: i32, mode: u32) -> i64 {
        self.log.push(format!("open {path} {flags} {mode:o}"));
        if path.starts_with("/missing") {
            return -2;
        }
        self.next_fd += 1;
        let fd = 100 + self.next_fd;
        self.paths.insert(fd, path.to_string());
        self.files.entry(path.to_string()).or_insert(10);
        fd as i64
    }
    fn close(&mut self, fd: i32) -> i64 {
        self.log.push(format!("close {fd}"));
        if self.paths.remove(&fd).is_some() { 0 } else { -9 }
    }
    fn pread(&mut self, fd: i32, buf: DataRef, len: usize, offset: u64) -> i64 {
        self.log.push(format!("pread {fd} ch{} @{} {len} {offset}", buf.channel_idx, buf.data_offset));
        let size = self.files[&self.paths[&fd]] as u64;
        if offset >= size { 0 } else { (size - offset).min(len as u64) as i64 }
    }
    fn pwrite(&mut self, fd: i32, buf: DataRef, len: usize, offset: u64) -> i64 {
        self.log.push(format!("pwrite {fd} ch{} @{} {len} {offset}", buf.channel_idx, buf.data_offset));
        len as i64
    }
    fn fsync(&mut self, fd: i32) -> i64 {
        self.log.push(format!("fsync {fd}"));
        if self.paths.contains_key(&fd) { 0 } else { -9 }
    }
}

fn open_req(id: u64, path: &str) -> IoRequest {
    let mut r = IoRequest::new(id, IoOp::Open, IoPriority::High);
    r.set_path(path);
    r.len = 2;
    r
}

fn data_req(id: u64, op: IoOp, fd: u64, offset: u64, len: u32, data_offset: u32) -> IoRequest {
    let mut r = IoRequest::new(id, op, IoPriority::High);
    r.fd = fd;
    r.offset = offset;
    r.len = len;
    r.data_offset = data_offset;
    r
}

fn ids(replies: &[Reply]) -> Vec<(u64, usize)> {
    let mut v: Vec<(u64, usize)> = replies.iter().map(|r| (r.resp.id, r.channel_idx)).collect();
    v.sort();
    v
}

#[test]
fn open_assigns_virtual_fds_from_one() {
    let mut svc = ServiceCore::new(MemExec::default());
    svc.submit(open_req(1, "/a"), 0);
    svc.submit(open_req(2, "/b"), 1);
    let replies = svc.step();
    assert_eq!(replies.len(), 2);
    assert_eq!((replies[0].channel_idx, replies[0].resp.id, replies[0].resp.fd), (0, 1, 1));
    assert_eq!((replies[1].channel_idx, replies[1].resp.id, replies[1].resp.fd), (1, 2, 2));
    assert_eq!(replies[0].resp.status, 0);
    assert!(svc.step().is_empty());
}

#[test]
fn failed_open_reports_status_and_uses_no_fd() {
    let mut svc = ServiceCore::new(MemExec::default());
    svc.submit(open_req(1, "/missing"), 0);
    svc.submit(open_req(2, "/a"), 0);
    let replies = svc.step();
    assert_eq!((replies[0].resp.status, replies[0].resp.fd), (-2, 0));
    assert_eq!((replies[1].resp.status, replies[1].resp.fd), (0, 1));
}

#[test]
fn unknown_virtual_fd_is_bad_descriptor() {
    let mut svc = ServiceCore::new(MemExec::default());
    svc.submit(data_req(1, IoOp::Read, 5, 0, 4, 0), 0);
    svc.submit(data_req(2, IoOp::Write, 5, 0, 4, 0), 0);
    svc.submit(data_req(3, IoOp::Sync, 5, 0, 0, 0), 0);
    svc.submit(data_req(4, IoOp::Close, 5, 0, 0, 0), 0);
    let replies = svc.step();
    assert_eq!(replies.len(), 4);
    for r in &replies {
        assert_eq!(r.resp.status, -9);
    }
    assert_eq!(ids(&replies), vec![(1, 0), (2, 0), (3, 0), (4, 0)]);
}

#[test]
fn unknown_op_code_is_answered_with_minus_one() {
    let mut svc = ServiceCore::new(MemExec::default());
    let mut r = IoRequest::new(8, IoOp::Open, IoPriority::High);
    r.op = 42;
    svc.submit(r, 3);
    let replies = svc.step();
    assert_eq!(replies.len(), 1);
    assert_eq!((replies[0].channel_idx, replies[0].resp.id, replies[0].resp.status), (3, 8, -1));
}

#[test]
fn open_write_sync_read_close_roundtrip() {
    let mut svc = ServiceCore::new(MemExec::default());
    svc.submit(open_req(1, "/f"), 0);
    let fd = svc.step()[0].resp.fd;
    svc.submit(data_req(2, IoOp::Write, fd, 0, 6, 128), 0);
    svc.submit(data_req(3, IoOp::Sync, fd, 0, 0, 0), 0);
    svc.submit(data_req(4, IoOp::Read, fd, 4, 64, 256), 0);
    let replies = svc.step();
    assert_eq!(replies.len(), 3);
    assert_eq!((replies[0].resp.id, replies[0].resp.status, replies[0].resp.data_len), (2, 0, 6));
    assert_eq!((replies[1].resp.id, replies[1].resp.status), (3, 0));
    // the file holds 10 bytes: reading at 4 gives 6
    assert_eq!((replies[2].resp.id, replies[2].resp.data_len, replies[2].resp.data_offset), (4, 6, 256));
    svc.submit(data_req(5, IoOp::Close, fd, 0, 0, 0), 0);
    assert_eq!(svc.step()[0].resp.status, 0);
    svc.submit(data_req(6, IoOp::Read, fd, 0, 4, 0), 0);
    assert_eq!(svc.step()[0].resp.status, -9);
}

#[test]
fn batched_service_splits_merged_read() {
    let mut svc = ServiceCore::with_pipeline(MemExec::default(), Batched::new());
    svc.submit(open_req(1, "/f"), 2);
    let fd = svc.step()[0].resp.fd;
    svc.submit(data_req(2, IoOp::Read, fd, 0, 4, 1000), 2);
    svc.submit(data_req(3, IoOp::Read, fd, 4, 4, 1004), 2);
    svc.submit(data_req(4, IoOp::Read, fd, 8, 4, 1008), 2);
    let replies = svc.step();
    // one merged pread of 12 bytes at 0 into channel 2 at 1000; file has 10
    assert_eq!(replies.len(), 3);
    let lens: Vec<(u64, u32, u32)> =
        replies.iter().map(|r| (r.resp.id, r.resp.data_offset, r.resp.data_len)).collect();
    assert_eq!(lens, vec![(2, 1000, 4), (3, 1004, 4), (4, 1008, 2)]);
}

fn mixed_requests() -> Vec<(IoRequest, usize)> {
    let mut reqs = Vec::new();
    let mut id = 0u64;
    for ch in 0..3usize {
        id += 1;
        reqs.push((open_req(id, "/g"), ch));
        for k in 0..5u64 {
            id += 1;
            let op = [IoOp::Read, IoOp::Write, IoOp::Sync, IoOp::Read, IoOp::Close][k as usize];
            reqs.push((data_req(id, op, 1 + (k % 3), k * 4, 4, 0), ch));
        }
    }
    reqs
}

fn run_round<P: Pipeline>(pipeline: P, reqs: &[(IoRequest, usize)]) -> Vec<Reply> {
    let mut svc = ServiceCore::with_pipeline(MemExec::default(), pipeline);
    for (r, ch) in reqs {
        svc.submit(*r, *ch);
    }
    svc.step()
}

#[test]
fn every_request_gets_one_reply() {
    let reqs = mixed_requests();
    let mut expected: Vec<(u64, usize)> = reqs.iter().map(|(r, ch)| (r.id, *ch)).collect();
    expected.sort();
    assert_eq!(ids(&run_round(PassThrough::new(), &reqs)), expected);
    assert_eq!(ids(&run_round(Batched::new(), &reqs)), expected);
}

#[test]
fn read_reply_lengths_follow_bytes_read() {
    let mut req = data_req(1, IoOp::Read, 1, 0, 300, 50);
    req.data_offset = 50;
    let op = MergedOp { req, channel_idx: 1, sources: vec![(1, 0, 100), (2, 100, 100), (3, 200, 100)] };
    let mut out = Vec::new();
    read_replies(&op, 150, &mut out);
    let got: Vec<(u64, u32, u32, i32)> =
        out.iter().map(|r| (r.resp.id, r.resp.data_offset, r.resp.data_len, r.resp.status)).collect();
    assert_eq!(got, vec![(1, 50, 100, 0), (2, 150, 50, 0), (3, 250, 0, 0)]);
    let mut out = Vec::new();
    read_replies(&op, -5, &mut out);
    assert!(out.iter().all(|r| r.resp.status == -5 && r.resp.data_len == 0));
    assert_eq!(out.len(), 3);
}

#[test]
fn write_and_fsync_replies() {
    let req = data_req(1, IoOp::Write, 1, 0, 8, 0);
    let op = MergedOp { req, channel_idx: 0, sources: vec![(1, 0, 3), (2, 3, 5)] };
    let mut out = Vec::new();
    write_replies(&op, 8, &mut out);
    let got: Vec<(u64, u32)> = out.iter().map(|r| (r.resp.id, r.resp.data_len)).collect();
    assert_eq!(got, vec![(1, 3), (2, 5)]);
    let mut out = Vec::new();
    write_replies(&op, -28, &mut out);
    assert!(out.iter().all(|r| r.resp.status == -28));
    let s = fsync_reply(&op, 0);
    assert_eq!((s.resp.id, s.resp.status), (1, 0));
    let s = fsync_reply(&op, -5);
    assert_eq!(s.resp.status, -5);
}

#[test]
fn executor_default_batch_runs_each_op() {
    let mut exec = MemExec::default();
    let fd = exec.open("/h", 0, 0o644) as i32;
    let buf = DataRef { channel_idx: 0, data_offset: 0 };
    let mut ops = vec![
        BatchOp::new(BatchKind::Pread { fd, buf, len: 4, offset: 0 }),
        BatchOp::new(BatchKind::Pwrite { fd, buf, len: 7, offset: 0 }),
        BatchOp::new(BatchKind::Fsync { fd: 999 }),
    ];
    exec.execute_batch(&mut ops);
    let results: Vec<i64> = ops.iter().map(|o| o.result).collect();
    assert_eq!(results, vec![4, 7, -9]);
}

#[test]
fn inline_replies_come_before_batched_ones() {
    let mut svc = ServiceCore::new(MemExec::default());
    svc.submit(open_req(1, "/f"), 0);
    let fd = svc.step()[0].resp.fd;
    // a read on the open file, then an open and a close in the same round
    svc.submit(data_req(2, IoOp::Read, fd, 0, 4, 0), 0);
    svc.submit(open_req(3, "/g"), 0);
    svc.submit(data_req(4, IoOp::Close, 99, 0, 0, 0), 0);
    let replies = svc.step();
    let order: Vec<u64> = replies.iter().map(|r| r.resp.id).collect();
    assert_eq!(order, vec![3, 4, 2]);
    assert_eq!((replies[0].resp.status, replies[0].resp.fd), (0, fd + 1));
    assert_eq!(replies[1].resp.status, -9);
    assert_eq!((replies[2].resp.status, replies[2].resp.data_len), (0, 4));
}

#[test]
fn read_after_open_in_same_round_uses_new_fd() {
    let mut svc = ServiceCore::new(MemExec::default());
    svc.submit(open_req(1, "/f"), 0);
    svc.submit(data_req(2, IoOp::Read, 1, 2, 4, 8), 0);
    let replies = svc.step();
    assert_eq!(replies.len(), 2);
    assert_eq!((replies[0].resp.id, replies[0].resp.fd), (1, 1));
    assert_eq!((replies[1].resp.id, replies[1].resp.status, replies[1].resp.data_len, replies[1].resp.data_offset), (2, 0, 4, 8));
}

#[test]
fn short_write_reports_bytes_written_per_source() {
    let req = data_req(1, IoOp::Write, 1, 0, 100, 0);
    let op = MergedOp { req, channel_idx: 0, sources: vec![(1, 0, 30), (2, 30, 50), (3, 80, 20)] };
    let mut out = Vec::new();
    write_replies(&op, 40, &mut out);
    let got: Vec<(u64, i32, u32)> = out.iter().map(|r| (r.resp.id, r.resp.status, r.resp.data_len)).collect();
    assert_eq!(got, vec![(1, 0, 30), (2, 0, 10), (3, 0, 0)]);
}
