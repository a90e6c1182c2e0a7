//! The decisions of the I/O daemon: virtual file descriptors, executing a
//! drained round of operations, and the replies owed to each channel.
//!
//! The loop that polls the shared-memory channels and sends the replies
//! lives outside the library; it hands requests to `ServiceCore::submit`
//! and sends what `ServiceCore::step` returns.
use crate::batch::{
    answered, is_data_op, merged_views, source_ids, well_sourced, MergedOp, MergedView,
};
use crate::executor::{result_in_bounds, served_ops, BatchKind, BatchOp, DataRef, IoExecutor, Served};
use crate::pipeline::{PassThrough, Pipeline};
use crate::protocol::{op_of_code, path_text, IoOp, IoRequest, IoResponse};
use std::collections::HashMap;
use vstd::multiset::Multiset;
use vstd::prelude::*;

verus! {

broadcast use vstd::std_specs::hash::group_hash_axioms;

/// The value of `libc::EBADF` ("bad file descriptor"), which the libc
/// source defines as 9 for Linux targets.
#[verifier::external_body]
fn ebadf() -> (r: i32)
    ensures
        r == 9,
{
    libc::EBADF
}

/// Every virtual fd in use is below the next one to hand out, so a fresh
/// one is never already taken.
pub open spec fn vfds_fresh(fds: Map<u64, i32>, next: u64) -> bool {
    forall|k: u64| #[trigger] fds.dom().contains(k) ==> k < next
}

/// A response owed to the client on channel `channel_idx`.
#[derive(Debug, Clone, Copy)]
pub struct Reply {
    pub channel_idx: usize,
    pub resp: IoResponse,
}

/// The response with these fields and zero padding.
pub open spec fn response(id: u64, status: i32, fd: u64, data_offset: u32, data_len: u32) -> IoResponse {
    IoResponse {
        id,
        status,
        _pad: vstd::array::spec_array_fill_for_copy_type::<u8, 4>(0u8),
        fd,
        data_offset,
        data_len,
    }
}

pub open spec fn reply(channel_idx: usize, resp: IoResponse) -> Reply {
    Reply { channel_idx, resp }
}

/// (request id, channel) of each reply, with multiplicity.
pub open spec fn reply_ids(s: Seq<Reply>) -> Multiset<(u64, usize)>
    decreases s.len(),
{
    if s.len() == 0 {
        Multiset::empty()
    } else {
        reply_ids(s.drop_last()).insert((s.last().resp.id, s.last().channel_idx))
    }
}

/// The requests an operation is answered for: each source of a read or a
/// write, else the operation's own request.
pub open spec fn op_answer_ids(m: MergedView) -> Multiset<(u64, usize)> {
    if is_data_op(m) {
        source_ids(m.sources, m.channel_idx)
    } else {
        Multiset::empty().insert((m.req.id, m.channel_idx))
    }
}

pub open spec fn round_answer_ids(ops: Seq<MergedView>) -> Multiset<(u64, usize)>
    decreases ops.len(),
{
    if ops.len() == 0 {
        Multiset::empty()
    } else {
        round_answer_ids(ops.drop_last()).add(op_answer_ids(ops.last()))
    }
}

/// A bad-descriptor error for each source of `m`.
pub open spec fn bad_fd_replies(m: MergedView) -> Seq<Reply> {
    m.sources.map_values(|s: (u64, u32, u32)| reply(m.channel_idx, response(s.0, -9i32, 0, 0, 0)))
}

/// How many of the `n` bytes a merged read or write transferred belong to
/// source `s`: those from its offset on, at most its length.
pub open spec fn source_bytes(n: i64, s: (u64, u32, u32)) -> u32 {
    if (s.1 as int) < n {
        if (n as u32 - s.1) as u32 <= s.2 {
            (n as u32 - s.1) as u32
        } else {
            s.2
        }
    } else {
        0u32
    }
}

/// The reply to one source of a merged read that returned `n`: the error
/// when `n` is negative, else where the source's bytes start in the data
/// region and how many of them were read.
pub open spec fn read_reply(m: MergedView, n: i64, s: (u64, u32, u32)) -> Reply {
    if n < 0 {
        reply(m.channel_idx, response(s.0, n as i32, 0, 0, 0))
    } else {
        reply(
            m.channel_idx,
            response(s.0, 0, 0, m.req.data_offset.wrapping_add(s.1), source_bytes(n, s)),
        )
    }
}

/// The reply to one source of a merged write that returned `n`: the error
/// when `n` is negative, else how many of the source's bytes were written.
pub open spec fn write_reply(m: MergedView, n: i64, s: (u64, u32, u32)) -> Reply {
    if n < 0 {
        reply(m.channel_idx, response(s.0, n as i32, 0, 0, 0))
    } else {
        reply(m.channel_idx, response(s.0, 0, 0, 0, source_bytes(n, s)))
    }
}

pub open spec fn status_reply(m: MergedView, n: i64) -> Reply {
    if n < 0 {
        reply(m.channel_idx, response(m.req.id, n as i32, 0, 0, 0))
    } else {
        reply(m.channel_idx, response(m.req.id, 0, 0, 0, 0))
    }
}

/// Splitting a merged read back: when the read returned `n` bytes, at
/// most the merged length, a source that lies inside the merged span is
/// answered with success, its place in the data region, and only bytes
/// that were read and belong to it; a read of the full span gives every
/// such source its whole length.
pub proof fn lemma_read_reply_slice(m: MergedView, n: i64, src: (u64, u32, u32))
    requires
        0 <= n <= m.req.len,
        src.1 + src.2 <= m.req.len,
    ensures
        ({
            let r = read_reply(m, n, src).resp;
            &&& r.id == src.0
            &&& r.status == 0
            &&& r.data_offset == m.req.data_offset.wrapping_add(src.1)
            &&& r.data_len <= src.2
            &&& src.1 < n ==> src.1 + r.data_len <= n
            &&& src.1 >= n ==> r.data_len == 0
            &&& n == m.req.len ==> r.data_len == src.2
        }),
{
    let n32 = n as u32;
    assert(n32 == n);
}

/// A write that returned `n` bytes, at most the merged length, reports to
/// each source inside the merged span only bytes written that belong to
/// it; a write of the full span reports every such source's whole length.
pub proof fn lemma_write_reply_counts(m: MergedView, n: i64, src: (u64, u32, u32))
    requires
        0 <= n <= m.req.len,
        src.1 + src.2 <= m.req.len,
    ensures
        ({
            let r = write_reply(m, n, src).resp;
            &&& r.id == src.0
            &&& r.status == 0
            &&& r.data_len <= src.2
            &&& src.1 < n ==> src.1 + r.data_len <= n
            &&& src.1 >= n ==> r.data_len == 0
            &&& n == m.req.len ==> r.data_len == src.2
        }),
{
    let n32 = n as u32;
    assert(n32 == n);
}

pub open spec fn read_replies_spec(m: MergedView, n: i64) -> Seq<Reply> {
    m.sources.map_values(|s: (u64, u32, u32)| read_reply(m, n, s))
}

pub open spec fn write_replies_spec(m: MergedView, n: i64) -> Seq<Reply> {
    m.sources.map_values(|s: (u64, u32, u32)| write_reply(m, n, s))
}

fn ok_response(id: u64) -> (r: IoResponse)
    ensures
        r == response(id, 0, 0, 0, 0),
{
    IoResponse { id, status: 0, _pad: [0u8; 4], fd: 0, data_offset: 0, data_len: 0 }
}

fn err_response(id: u64, status: i32) -> (r: IoResponse)
    ensures
        r == response(id, status, 0, 0, 0),
{
    IoResponse { id, status, _pad: [0u8; 4], fd: 0, data_offset: 0, data_len: 0 }
}

/// Appends a bad-descriptor error for each source of `op`.
pub fn push_bad_fd_replies(op: &MergedOp, replies: &mut Vec<Reply>)
    ensures
        final(replies)@ == old(replies)@ + bad_fd_replies(op@),
{
    let status = -ebadf();
    let ghost start = replies@;
    let mut k: usize = 0;
    while k < op.sources.len()
        invariant
            k <= op.sources@.len(),
            status == -9,
            replies@ == start + bad_fd_replies(op@).take(k as int),
        decreases op.sources@.len() - k,
    {
        let (id, _, _) = op.sources[k];
        replies.push(Reply { channel_idx: op.channel_idx, resp: err_response(id, status) });
        assert(bad_fd_replies(op@).take(k + 1) =~= bad_fd_replies(op@).take(k as int).push(
            reply(op.channel_idx, response(id, -9i32, 0, 0, 0)),
        ));
        k = k + 1;
    }
    assert(bad_fd_replies(op@).take(k as int) =~= bad_fd_replies(op@));
}

/// Replies for each source of a merged read whose execution returned `n`.
pub fn read_replies(op: &MergedOp, n: i64, replies: &mut Vec<Reply>)
    requires
        n <= op.req.len,
    ensures
        final(replies)@ == old(replies)@ + read_replies_spec(op@, n),
{
    let ghost start = replies@;
    let mut k: usize = 0;
    while k < op.sources.len()
        invariant
            k <= op.sources@.len(),
            n <= op.req.len,
            replies@ == start + read_replies_spec(op@, n).take(k as int),
        decreases op.sources@.len() - k,
    {
        let (id, offset_within, orig_len) = op.sources[k];
        let resp = if n < 0 {
            err_response(id, #[verifier::truncate] (n as i32))
        } else {
            let data_len = source_bytes_of(n, offset_within, orig_len);
            IoResponse {
                id,
                status: 0,
                _pad: [0u8; 4],
                fd: 0,
                data_offset: op.req.data_offset.wrapping_add(offset_within),
                data_len,
            }
        };
        replies.push(Reply { channel_idx: op.channel_idx, resp });
        assert(read_replies_spec(op@, n).take(k + 1) =~= read_replies_spec(op@, n).take(
            k as int,
        ).push(read_reply(op@, n, op.sources@[k as int])));
        k = k + 1;
    }
    assert(read_replies_spec(op@, n).take(k as int) =~= read_replies_spec(op@, n));
}

/// Replies for each source of a merged write whose execution returned `n`.
pub fn write_replies(op: &MergedOp, n: i64, replies: &mut Vec<Reply>)
    requires
        n <= op.req.len,
    ensures
        final(replies)@ == old(replies)@ + write_replies_spec(op@, n),
{
    let ghost start = replies@;
    let mut k: usize = 0;
    while k < op.sources.len()
        invariant
            k <= op.sources@.len(),
            n <= op.req.len,
            replies@ == start + write_replies_spec(op@, n).take(k as int),
        decreases op.sources@.len() - k,
    {
        let (id, offset_within, orig_len) = op.sources[k];
        let resp = if n < 0 {
            err_response(id, #[verifier::truncate] (n as i32))
        } else {
            let data_len = source_bytes_of(n, offset_within, orig_len);
            IoResponse { id, status: 0, _pad: [0u8; 4], fd: 0, data_offset: 0, data_len }
        };
        replies.push(Reply { channel_idx: op.channel_idx, resp });
        assert(write_replies_spec(op@, n).take(k + 1) =~= write_replies_spec(op@, n).take(
            k as int,
        ).push(write_reply(op@, n, op.sources@[k as int])));
        k = k + 1;
    }
    assert(write_replies_spec(op@, n).take(k as int) =~= write_replies_spec(op@, n));
}

/// The bytes of the `n` transferred that belong to a source at
/// `offset_within` of length `len`.
fn source_bytes_of(n: i64, offset_within: u32, len: u32) -> (r: u32)
    requires
        0 <= n <= u32::MAX,
    ensures
        r == source_bytes(n, (0u64, offset_within, len)),
{
    if (offset_within as i64) < n {
        let avail = (n as u32) - offset_within;
        if avail <= len {
            avail
        } else {
            len
        }
    } else {
        0
    }
}

/// The reply to an fsync that returned `n`.
pub fn fsync_reply(op: &MergedOp, n: i64) -> (r: Reply)
    ensures
        r == status_reply(op@, n),
{
    let resp = if n < 0 {
        err_response(op.req.id, #[verifier::truncate] (n as i32))
    } else {
        ok_response(op.req.id)
    };
    Reply { channel_idx: op.channel_idx, resp }
}

// ---------------------------------------------------------------------
// Counting replies
// ---------------------------------------------------------------------
pub proof fn lemma_reply_ids_concat(a: Seq<Reply>, b: Seq<Reply>)
    ensures
        reply_ids(a + b) == reply_ids(a).add(reply_ids(b)),
    decreases b.len(),
{
    broadcast use vstd::multiset::group_multiset_axioms;

    if b.len() == 0 {
        assert(a + b =~= a);
        assert(reply_ids(a).add(reply_ids(b)) =~= reply_ids(a));
    } else {
        lemma_reply_ids_concat(a, b.drop_last());
        assert((a + b).drop_last() =~= a + b.drop_last());
        assert(reply_ids(a + b) =~= reply_ids(a).add(reply_ids(b)));
    }
}

proof fn lemma_reply_ids_push(a: Seq<Reply>, r: Reply)
    ensures
        reply_ids(a.push(r)) == reply_ids(a).insert((r.resp.id, r.channel_idx)),
{
    assert(a.push(r).drop_last() =~= a);
}

/// Replies made one per source, each for that source's request on the
/// operation's channel, answer exactly the sources.
proof fn lemma_reply_ids_per_source(
    sources: Seq<(u64, u32, u32)>,
    ch: usize,
    f: spec_fn((u64, u32, u32)) -> Reply,
)
    requires
        forall|s: (u64, u32, u32)| (#[trigger] f(s)).resp.id == s.0 && f(s).channel_idx == ch,
    ensures
        reply_ids(sources.map_values(f)) == source_ids(sources, ch),
    decreases sources.len(),
{
    if sources.len() > 0 {
        lemma_reply_ids_per_source(sources.drop_last(), ch, f);
        let m = sources.map_values(f);
        assert(m.drop_last() =~= sources.drop_last().map_values(f));
        assert(m.last() == f(sources.last()));
    } else {
        assert(sources.map_values(f) =~= Seq::<Reply>::empty());
    }
}

proof fn lemma_bad_fd_ids(m: MergedView)
    ensures
        reply_ids(bad_fd_replies(m)) == source_ids(m.sources, m.channel_idx),
{
    let f = |s: (u64, u32, u32)| reply(m.channel_idx, response(s.0, -9i32, 0, 0, 0));
    lemma_reply_ids_per_source(m.sources, m.channel_idx, f);
}

proof fn lemma_read_ids(m: MergedView, n: i64)
    ensures
        reply_ids(read_replies_spec(m, n)) == source_ids(m.sources, m.channel_idx),
{
    let f = |s: (u64, u32, u32)| read_reply(m, n, s);
    lemma_reply_ids_per_source(m.sources, m.channel_idx, f);
}

proof fn lemma_write_ids(m: MergedView, n: i64)
    ensures
        reply_ids(write_replies_spec(m, n)) == source_ids(m.sources, m.channel_idx),
{
    let f = |s: (u64, u32, u32)| write_reply(m, n, s);
    lemma_reply_ids_per_source(m.sources, m.channel_idx, f);
}

/// The requests answered by the operations at positions `origin` of `ops`.
pub open spec fn origin_ids(ops: Seq<MergedView>, origin: Seq<usize>) -> Multiset<(u64, usize)>
    decreases origin.len(),
{
    if origin.len() == 0 {
        Multiset::empty()
    } else {
        origin_ids(ops, origin.drop_last()).add(op_answer_ids(ops[origin.last() as int]))
    }
}

proof fn lemma_origin_ids_concat(ops: Seq<MergedView>, a: Seq<usize>, b: Seq<usize>)
    ensures
        origin_ids(ops, a + b) == origin_ids(ops, a).add(origin_ids(ops, b)),
    decreases b.len(),
{
    broadcast use vstd::multiset::group_multiset_axioms;

    if b.len() == 0 {
        assert(a + b =~= a);
        assert(origin_ids(ops, a).add(origin_ids(ops, b)) =~= origin_ids(ops, a));
    } else {
        lemma_origin_ids_concat(ops, a, b.drop_last());
        assert((a + b).drop_last() =~= a + b.drop_last());
        assert(origin_ids(ops, a + b) =~= origin_ids(ops, a).add(origin_ids(ops, b)));
    }
}

/// The batched op was built for the operation: same kind of I/O, and for
/// reads and writes the operation's length.
pub open spec fn kind_fits(m: MergedView, kind: BatchKind) -> bool {
    match kind {
        BatchKind::Pread { len, .. } => op_of_code(m.req.op) == Some(IoOp::Read) && len
            == m.req.len,
        BatchKind::Pwrite { len, .. } => op_of_code(m.req.op) == Some(IoOp::Write) && len
            == m.req.len,
        BatchKind::Fsync { .. } => op_of_code(m.req.op) == Some(IoOp::Sync),
    }
}

// ---------------------------------------------------------------------
// The service state
// ---------------------------------------------------------------------
/// Virtual-fd table, pipeline and executor of the daemon.
pub struct ServiceCore<E: IoExecutor, P: Pipeline> {
    fd_table: HashMap<u64, i32>,
    next_fd: u64,
    pipeline: P,
    executor: E,
    /// Every call made on the backend, with its arguments and what it
    /// returned, recorded as it is made.
    log: Ghost<Seq<Served>>,
}

impl<E: IoExecutor> ServiceCore<E, PassThrough> {
    pub fn new(executor: E) -> (r: Self)
        ensures
            r.fds() == Map::<u64, i32>::empty(),
            r.next_vfd() == 1,
            r.pending_ids() == Multiset::<(u64, usize)>::empty(),
            r.served() == Seq::<Served>::empty(),
            r.drains_all(),
            vfds_fresh(r.fds(), r.next_vfd()),
    {
        Self::with_pipeline(executor, PassThrough::new())
    }
}

impl<E: IoExecutor, P: Pipeline> ServiceCore<E, P> {
    /// Virtual fd -> real fd.
    pub closed spec fn fds(&self) -> Map<u64, i32> {
        self.fd_table@
    }

    /// The virtual fd the next successful open gets.
    pub closed spec fn next_vfd(&self) -> u64 {
        self.next_fd
    }

    /// (id, channel) of the requests submitted and not yet drained.
    pub closed spec fn pending_ids(&self) -> Multiset<(u64, usize)> {
        self.pipeline.pending_ids()
    }

    /// The pipeline hands out everything pending at each drain.
    pub closed spec fn drains_all(&self) -> bool {
        self.pipeline.drains_all()
    }

    /// The operations the next `step` runs: what the pipeline drains, when
    /// anything is pending.
    pub closed spec fn next_round(&self) -> Seq<MergedView> {
        if self.pipeline.pending_ids().len() > 0 {
            self.pipeline.drained()
        } else {
            Seq::empty()
        }
    }

    /// The calls made on the backend, oldest first, with what each returned.
    pub closed spec fn served(&self) -> Seq<Served> {
        self.log@
    }

    pub fn with_pipeline(executor: E, pipeline: P) -> (r: Self)
        ensures
            r.fds() == Map::<u64, i32>::empty(),
            r.next_vfd() == 1,
            r.pending_ids() == pipeline.pending_ids(),
            r.served() == Seq::<Served>::empty(),
            r.drains_all() == pipeline.drains_all(),
            vfds_fresh(r.fds(), r.next_vfd()),
    {
        ServiceCore {
            fd_table: HashMap::new(),
            next_fd: 1,
            pipeline,
            executor,
            log: Ghost(Seq::empty()),
        }
    }

    /// Hands a polled request to the pipeline.
    pub fn submit(&mut self, req: IoRequest, channel_idx: usize)
        ensures
            final(self).pending_ids() == old(self).pending_ids().insert((req.id, channel_idx)),
            final(self).fds() == old(self).fds(),
            final(self).next_vfd() == old(self).next_vfd(),
            final(self).served() == old(self).served(),
            final(self).drains_all() == old(self).drains_all(),
    {
        self.pipeline.add(req, channel_idx);
    }

    /// Records the outcome `rc` of opening a file for request `id`: a failure
    /// is returned as its status; a real fd gets the next virtual fd.
    pub fn record_open(&mut self, id: u64, rc: i64) -> (r: IoResponse)
        ensures
            ({
                let o = open_outcome(old(self).fds(), old(self).next_vfd(), id, rc);
                &&& final(self).fds() == o.0
                &&& final(self).next_vfd() == o.1
                &&& r == o.2
            }),
            final(self).pending_ids() == old(self).pending_ids(),
            final(self).drains_all() == old(self).drains_all(),
            final(self).served() == old(self).served(),
    {
        if rc < 0 {
            return err_response(id, #[verifier::truncate] (rc as i32));
        }
        let vfd = self.next_fd;
        self.next_fd = self.next_fd.wrapping_add(1);
        self.fd_table.insert(vfd, #[verifier::truncate] (rc as i32));
        let mut resp = ok_response(id);
        resp.fd = vfd;
        resp
    }

    /// Opens `path` on the backend and records the call with what it returned.
    fn backend_open(&mut self, path: &str, flags: i32, mode: u32) -> (rc: i64)
        ensures
            final(self).served() == old(self).served().push(
                Served::Open { path: path@, flags, mode, result: rc },
            ),
            final(self).fds() == old(self).fds(),
            final(self).next_vfd() == old(self).next_vfd(),
            final(self).pending_ids() == old(self).pending_ids(),
            final(self).drains_all() == old(self).drains_all(),
    {
        let rc = self.executor.open(path, flags, mode);
        proof {
            self.log@ = self.log@.push(Served::Open { path: path@, flags, mode, result: rc });
        }
        rc
    }

    /// Closes real fd `fd` on the backend and records the call.
    fn backend_close(&mut self, fd: i32) -> (rc: i64)
        ensures
            final(self).served() == old(self).served().push(Served::Close { fd, result: rc }),
            final(self).fds() == old(self).fds(),
            final(self).next_vfd() == old(self).next_vfd(),
            final(self).pending_ids() == old(self).pending_ids(),
            final(self).drains_all() == old(self).drains_all(),
    {
        let rc = self.executor.close(fd);
        proof {
            self.log@ = self.log@.push(Served::Close { fd, result: rc });
        }
        rc
    }

    /// Runs a batch on the backend and records each op with its result.
    fn backend_batch(&mut self, ops: &mut Vec<BatchOp>)
        ensures
            final(ops)@.len() == old(ops)@.len(),
            forall|i: int|
                0 <= i < final(ops)@.len() ==> (#[trigger] final(ops)@[i]).kind == old(ops)@[i].kind
                    && result_in_bounds(final(ops)@[i]),
            final(self).served() == old(self).served() + served_ops(final(ops)@),
            final(self).fds() == old(self).fds(),
            final(self).next_vfd() == old(self).next_vfd(),
            final(self).pending_ids() == old(self).pending_ids(),
            final(self).drains_all() == old(self).drains_all(),
    {
        self.executor.execute_batch(ops);
        proof {
            self.log@ = self.log@ + served_ops(ops@);
        }
    }

    /// Opens the request's path (flags in `len`, mode 0o644) and records the
    /// outcome: the backend serves exactly that open, and its result decides
    /// the response and the new table.
    pub fn handle_open(&mut self, req: &IoRequest) -> (r: IoResponse)
        ensures
            exists|rc: i64|
                {
                    let o = #[trigger] open_outcome(old(self).fds(), old(self).next_vfd(), req.id, rc);
                    &&& final(self).served() == old(self).served().push(open_call(*req, rc))
                    &&& final(self).fds() == o.0
                    &&& final(self).next_vfd() == o.1
                    &&& r == o.2
                },
            final(self).served().len() == old(self).served().len() + 1,
            final(self).served().last() matches Served::Open { path, flags, mode, .. } && path
                == path_text(req.path@) && flags == req.len as i32 && mode == 0o644,
            final(self).pending_ids() == old(self).pending_ids(),
            final(self).drains_all() == old(self).drains_all(),
    {
        let flags = #[verifier::truncate] (req.len as i32);
        let path = req.path_str();
        let rc = self.backend_open(path, flags, 0o644);
        let r = self.record_open(req.id, rc);
        assert({
            let o = open_outcome(old(self).fds(), old(self).next_vfd(), req.id, rc);
            &&& self.served() == old(self).served().push(open_call(*req, rc))
            &&& self.fds() == o.0
            &&& self.next_vfd() == o.1
            &&& r == o.2
        });
        r
    }

    /// Forgets a virtual fd and closes the real one it stood for; an unknown
    /// virtual fd is answered with a bad-descriptor error and closes nothing.
    pub fn handle_close(&mut self, req: &IoRequest) -> (r: IoResponse)
        ensures
            exists|rc: i64|
                {
                    &&& r == #[trigger] close_response(old(self).fds(), req.id, req.fd, rc)
                    &&& final(self).served() == old(self).served() + close_calls(
                        old(self).fds(),
                        req.fd,
                        rc,
                    )
                },
            old(self).fds().dom().contains(req.fd) ==> ({
                &&& final(self).served().len() == old(self).served().len() + 1
                &&& final(self).served().last() matches Served::Close { fd, .. } && fd == old(
                    self,
                ).fds()[req.fd]
            }),
            !old(self).fds().dom().contains(req.fd) ==> final(self).served() == old(self).served(),
            final(self).fds() == old(self).fds().remove(req.fd),
            final(self).next_vfd() == old(self).next_vfd(),
            final(self).pending_ids() == old(self).pending_ids(),
            final(self).drains_all() == old(self).drains_all(),
    {
        match self.fd_table.remove(&req.fd) {
            None => {
                let r = err_response(req.id, -ebadf());
                assert(r == close_response(old(self).fds(), req.id, req.fd, 0));
                assert(self.served() =~= old(self).served() + close_calls(old(self).fds(), req.fd, 0));
                r
            },
            Some(real_fd) => {
                let rc = self.backend_close(real_fd);
                let r = if rc < 0 {
                    err_response(req.id, #[verifier::truncate] (rc as i32))
                } else {
                    ok_response(req.id)
                };
                assert(r == close_response(old(self).fds(), req.id, req.fd, rc));
                assert(self.served() =~= old(self).served() + close_calls(old(self).fds(), req.fd, rc));
                r
            },
        }
    }

    /// The batched read of a merged read whose virtual fd is known; otherwise a
    /// bad-descriptor error for each of its sources.
    pub fn prepare_read(&self, op: &MergedOp, replies: &mut Vec<Reply>) -> (r: Option<BatchOp>)
        ensures
            self.fds().dom().contains(op.req.fd) ==> final(replies)@ == old(replies)@ && r == Some(
                BatchOp::new_spec(read_kind(op@, self.fds()[op.req.fd])),
            ),
            !self.fds().dom().contains(op.req.fd) ==> final(replies)@ == old(replies)@
                + bad_fd_replies(op@) && r is None,
    {
        match self.fd_table.get(&op.req.fd) {
            None => {
                push_bad_fd_replies(op, replies);
                None
            },
            Some(real_fd) => {
                let buf = DataRef { channel_idx: op.channel_idx, data_offset: op.req.data_offset };
                Some(
                    BatchOp::new(
                        BatchKind::Pread {
                            fd: *real_fd,
                            buf,
                            len: op.req.len as usize,
                            offset: op.req.offset,
                        },
                    ),
                )
            },
        }
    }

    /// The batched write of a merged write whose virtual fd is known;
    /// otherwise a bad-descriptor error for each of its sources.
    pub fn prepare_write(&self, op: &MergedOp, replies: &mut Vec<Reply>) -> (r: Option<BatchOp>)
        ensures
            self.fds().dom().contains(op.req.fd) ==> final(replies)@ == old(replies)@ && r == Some(
                BatchOp::new_spec(write_kind(op@, self.fds()[op.req.fd])),
            ),
            !self.fds().dom().contains(op.req.fd) ==> final(replies)@ == old(replies)@
                + bad_fd_replies(op@) && r is None,
    {
        match self.fd_table.get(&op.req.fd) {
            None => {
                push_bad_fd_replies(op, replies);
                None
            },
            Some(real_fd) => {
                let buf = DataRef { channel_idx: op.channel_idx, data_offset: op.req.data_offset };
                Some(
                    BatchOp::new(
                        BatchKind::Pwrite {
                            fd: *real_fd,
                            buf,
                            len: op.req.len as usize,
                            offset: op.req.offset,
                        },
                    ),
                )
            },
        }
    }

    /// The batched fsync of an op whose virtual fd is known; otherwise one
    /// bad-descriptor error for the op's own request.
    pub fn prepare_fsync(&self, op: &MergedOp, replies: &mut Vec<Reply>) -> (r: Option<BatchOp>)
        ensures
            self.fds().dom().contains(op.req.fd) ==> final(replies)@ == old(replies)@ && r == Some(
                BatchOp::new_spec(BatchKind::Fsync { fd: self.fds()[op.req.fd] }),
            ),
            !self.fds().dom().contains(op.req.fd) ==> final(replies)@ == old(replies)@.push(
                reply(op.channel_idx, response(op.req.id, -9i32, 0, 0, 0)),
            ) && r is None,
    {
        match self.fd_table.get(&op.req.fd) {
            None => {
                replies.push(
                    Reply { channel_idx: op.channel_idx, resp: err_response(op.req.id, -ebadf()) },
                );
                None
            },
            Some(real_fd) => Some(BatchOp::new(BatchKind::Fsync { fd: *real_fd })),
        }
    }
}

pub open spec fn read_kind(m: MergedView, fd: i32) -> BatchKind {
    BatchKind::Pread {
        fd,
        buf: DataRef { channel_idx: m.channel_idx, data_offset: m.req.data_offset },
        len: m.req.len as usize,
        offset: m.req.offset,
    }
}

pub open spec fn write_kind(m: MergedView, fd: i32) -> BatchKind {
    BatchKind::Pwrite {
        fd,
        buf: DataRef { channel_idx: m.channel_idx, data_offset: m.req.data_offset },
        len: m.req.len as usize,
        offset: m.req.offset,
    }
}

// ---------------------------------------------------------------------
// The round, step by step
// ---------------------------------------------------------------------
/// What an open that returned `rc` does: a failure leaves the table alone
/// and is answered with its status; a real fd is filed under the next
/// virtual fd, which the response carries.
pub open spec fn open_outcome(fds: Map<u64, i32>, next: u64, id: u64, rc: i64) -> (
    Map<u64, i32>,
    u64,
    IoResponse,
) {
    if rc < 0 {
        (fds, next, response(id, rc as i32, 0, 0, 0))
    } else {
        (fds.insert(next, rc as i32), next.wrapping_add(1), response(id, 0, next, 0, 0))
    }
}

/// The answer to closing virtual fd `fd` when the real close returned `rc`:
/// a bad-descriptor error for an unknown fd, else the close's status.
pub open spec fn close_response(fds: Map<u64, i32>, id: u64, fd: u64, rc: i64) -> IoResponse {
    if !fds.dom().contains(fd) {
        response(id, -9i32, 0, 0, 0)
    } else if rc < 0 {
        response(id, rc as i32, 0, 0, 0)
    } else {
        response(id, 0, 0, 0, 0)
    }
}

/// Virtual fds are never reused: from a table whose fds are all below the
/// next one, which is at least 1, an open keeps that so (until the counter
/// reaches its largest value), and a successful open files the real fd
/// under a virtual fd not in use.
pub proof fn lemma_open_keeps_fresh(fds: Map<u64, i32>, next: u64, id: u64, rc: i64)
    requires
        vfds_fresh(fds, next),
        1 <= next < u64::MAX,
    ensures
        ({
            let o = open_outcome(fds, next, id, rc);
            &&& vfds_fresh(o.0, o.1)
            &&& 1 <= o.1
            &&& rc >= 0 ==> !fds.dom().contains(next) && o.2.fd == next && o.1 == next + 1
        }),
{
}

/// The open the backend serves for request `req`: its path text, the flags
/// carried in `len`, mode 0o644, and what it returned.
pub open spec fn open_call(req: IoRequest, rc: i64) -> Served {
    Served::Open { path: path_text(req.path@), flags: req.len as i32, mode: 0o644, result: rc }
}

/// The open served for an Open request carries the request's path text,
/// its `len` field as the flags, mode 0o644, and the backend's result.
pub proof fn lemma_open_call_args(req: IoRequest, rc: i64)
    ensures
        open_call(req, rc) matches Served::Open { path, flags, mode, result } && path == path_text(
            req.path@,
        ) && flags == req.len as i32 && mode == 0o644 && result == rc,
{
}

/// The close the backend serves for virtual fd `fd`: that of the real fd it
/// stands for, if any.
pub open spec fn close_calls(fds: Map<u64, i32>, fd: u64, rc: i64) -> Seq<Served> {
    if fds.dom().contains(fd) {
        seq![Served::Close { fd: fds[fd], result: rc }]
    } else {
        seq![]
    }
}

/// Where the first pass over a round stands: the fd table, the next virtual
/// fd, the replies sent so far, the opens and closes the backend served, and
/// the batched ops with the position of the operation each was built for.
#[verifier::ext_equal]
pub struct RoundState {
    pub fds: Map<u64, i32>,
    pub next: u64,
    pub replies: Seq<Reply>,
    pub calls: Seq<Served>,
    pub origins: Seq<usize>,
    pub kinds: Seq<BatchKind>,
}

/// The first pass over operation `m` at position `idx`, where `rc` is what
/// an inline open or close of it returned: opens and closes are run and
/// answered at once, reads, writes and fsyncs on a known fd join the batch,
/// the others are answered with an error.
pub open spec fn round_step(st: RoundState, m: MergedView, rc: i64, idx: usize) -> RoundState {
    let fd = m.req.fd;
    let known = st.fds.dom().contains(fd);
    match op_of_code(m.req.op) {
        Some(IoOp::Open) => {
            let o = open_outcome(st.fds, st.next, m.req.id, rc);
            RoundState {
                fds: o.0,
                next: o.1,
                replies: st.replies.push(reply(m.channel_idx, o.2)),
                calls: st.calls.push(open_call(m.req, rc)),
                ..st
            }
        },
        Some(IoOp::Close) => RoundState {
            fds: st.fds.remove(fd),
            replies: st.replies.push(reply(m.channel_idx, close_response(st.fds, m.req.id, fd, rc))),
            calls: st.calls + close_calls(st.fds, fd, rc),
            ..st
        },
        Some(IoOp::Read) => if known {
            RoundState {
                origins: st.origins.push(idx),
                kinds: st.kinds.push(read_kind(m, st.fds[fd])),
                ..st
            }
        } else {
            RoundState { replies: st.replies + bad_fd_replies(m), ..st }
        },
        Some(IoOp::Write) => if known {
            RoundState {
                origins: st.origins.push(idx),
                kinds: st.kinds.push(write_kind(m, st.fds[fd])),
                ..st
            }
        } else {
            RoundState { replies: st.replies + bad_fd_replies(m), ..st }
        },
        Some(IoOp::Sync) => if known {
            RoundState {
                origins: st.origins.push(idx),
                kinds: st.kinds.push(BatchKind::Fsync { fd: st.fds[fd] }),
                ..st
            }
        } else {
            RoundState {
                replies: st.replies.push(reply(m.channel_idx, response(m.req.id, -9i32, 0, 0, 0))),
                ..st
            }
        },
        None => RoundState {
            replies: st.replies.push(reply(m.channel_idx, response(m.req.id, -1i32, 0, 0, 0))),
            ..st
        },
    }
}

/// The first pass over `views`, the inline opens and closes returning `rcs`
/// (one entry per operation; only those of opens and closes matter).
pub open spec fn first_pass(fds: Map<u64, i32>, next: u64, views: Seq<MergedView>, rcs: Seq<i64>) -> RoundState
    decreases views.len(),
{
    if views.len() == 0 {
        RoundState { fds, next, replies: seq![], calls: seq![], origins: seq![], kinds: seq![] }
    } else {
        round_step(
            first_pass(fds, next, views.drop_last(), rcs.drop_last()),
            views.last(),
            rcs.last(),
            (views.len() - 1) as usize,
        )
    }
}

/// The replies owed for one batched op of operation `m` that returned `n`.
pub open spec fn batch_replies(m: MergedView, kind: BatchKind, n: i64) -> Seq<Reply> {
    match kind {
        BatchKind::Pread { .. } => read_replies_spec(m, n),
        BatchKind::Pwrite { .. } => write_replies_spec(m, n),
        BatchKind::Fsync { .. } => seq![status_reply(m, n)],
    }
}

/// The replies of the second pass, in batch order, the batch having
/// returned `results`.
pub open spec fn second_pass(
    views: Seq<MergedView>,
    origins: Seq<usize>,
    kinds: Seq<BatchKind>,
    results: Seq<i64>,
) -> Seq<Reply>
    decreases origins.len(),
{
    if origins.len() == 0 {
        seq![]
    } else {
        second_pass(views, origins.drop_last(), kinds.drop_last(), results.drop_last())
            + batch_replies(views[origins.last() as int], kinds.last(), results.last())
    }
}

/// The batched ops `kinds` as the backend serves them, with `results`.
pub open spec fn batch_served(kinds: Seq<BatchKind>, results: Seq<i64>) -> Seq<Served> {
    Seq::new(kinds.len(), |j: int| Served::Op { kind: kinds[j], result: results[j] })
}

/// A round over `views` from table `fds`, next virtual fd `next` and backend
/// log `served`, whose inline opens and closes returned `rcs` and whose
/// batch returned `results`, ends with table `fds1`, next virtual fd
/// `next1`, backend log `served1`, and the replies `replies`: those of the
/// first pass, then those of the batch. The backend served the first pass's
/// opens and closes, in order, then each batched op, in order.
pub open spec fn round_outcome(
    fds: Map<u64, i32>,
    next: u64,
    served: Seq<Served>,
    views: Seq<MergedView>,
    rcs: Seq<i64>,
    results: Seq<i64>,
    replies: Seq<Reply>,
    fds1: Map<u64, i32>,
    next1: u64,
    served1: Seq<Served>,
) -> bool {
    let st = first_pass(fds, next, views, rcs);
    &&& rcs.len() == views.len()
    &&& results.len() == st.kinds.len()
    &&& forall|j: int|
        0 <= j < results.len() ==> result_in_bounds(
            BatchOp { kind: #[trigger] st.kinds[j], result: results[j] },
        )
    &&& replies == st.replies + second_pass(views, st.origins, st.kinds, results)
    &&& fds1 == st.fds
    &&& next1 == st.next
    &&& served1 == served + st.calls + batch_served(st.kinds, results)
}

proof fn lemma_round_take(views: Seq<MergedView>, i: int)
    requires
        0 <= i < views.len(),
    ensures
        round_answer_ids(views.take(i + 1)) == round_answer_ids(views.take(i)).add(
            op_answer_ids(views[i]),
        ),
{
    assert(views.take(i + 1).drop_last() =~= views.take(i));
}

proof fn lemma_origin_skip(views: Seq<MergedView>, origin: Seq<usize>, k: int)
    requires
        0 <= k < origin.len(),
    ensures
        origin_ids(views, origin.skip(k)) == op_answer_ids(views[origin[k] as int]).add(
            origin_ids(views, origin.skip(k + 1)),
        ),
{
    broadcast use vstd::multiset::group_multiset_axioms;

    assert(origin.skip(k) =~= seq![origin[k]] + origin.skip(k + 1));
    lemma_origin_ids_concat(views, seq![origin[k]], origin.skip(k + 1));
    let single = seq![origin[k]];
    assert(single.drop_last() =~= Seq::<usize>::empty());
    assert(origin_ids(views, single.drop_last()) =~= Multiset::empty());
    assert(single.last() == origin[k]);
    assert(origin_ids(views, seq![origin[k]]) =~= op_answer_ids(views[origin[k] as int]));
}

pub open spec fn kinds_of(b: Seq<BatchOp>) -> Seq<BatchKind> {
    b.map_values(|x: BatchOp| x.kind)
}

pub open spec fn results_of(b: Seq<BatchOp>) -> Seq<i64> {
    b.map_values(|x: BatchOp| x.result)
}

proof fn lemma_first_pass_take(
    fds: Map<u64, i32>,
    next: u64,
    views: Seq<MergedView>,
    rcs: Seq<i64>,
    rc: i64,
    i: int,
)
    requires
        0 <= i < views.len(),
        rcs.len() == i,
        i <= usize::MAX,
    ensures
        first_pass(fds, next, views.take(i + 1), rcs.push(rc)) == round_step(
            first_pass(fds, next, views.take(i), rcs),
            views[i],
            rc,
            i as usize,
        ),
{
    assert(views.take(i + 1).drop_last() =~= views.take(i));
    assert(rcs.push(rc).drop_last() =~= rcs);
}

proof fn lemma_second_pass_take(
    views: Seq<MergedView>,
    origins: Seq<usize>,
    kinds: Seq<BatchKind>,
    results: Seq<i64>,
    k: int,
)
    requires
        0 <= k < origins.len(),
        origins.len() == kinds.len(),
        kinds.len() == results.len(),
    ensures
        second_pass(views, origins.take(k + 1), kinds.take(k + 1), results.take(k + 1))
            == second_pass(views, origins.take(k), kinds.take(k), results.take(k)) + batch_replies(
            views[origins[k] as int],
            kinds[k],
            results[k],
        ),
{
    assert(origins.take(k + 1).drop_last() =~= origins.take(k));
    assert(kinds.take(k + 1).drop_last() =~= kinds.take(k));
    assert(results.take(k + 1).drop_last() =~= results.take(k));
}

impl<E: IoExecutor, P: Pipeline> ServiceCore<E, P> {
    /// Handles one drained round: structural ops (open/close) run inline
    /// because they change the fd table; data-plane ops (read/write/fsync)
    /// are collected into one batch for the executor, and their replies
    /// follow once it has run. Whatever the executor returned, the replies
    /// and the new fd table are those of `round_outcome`; they answer each
    /// read and write once per source and every other op once.
    pub fn execute_round(&mut self, ops: Vec<MergedOp>) -> (replies: Vec<Reply>)
        ensures
            exists|rcs: Seq<i64>, results: Seq<i64>|
                #[trigger] round_outcome(
                    old(self).fds(),
                    old(self).next_vfd(),
                    old(self).served(),
                    merged_views(ops@),
                    rcs,
                    results,
                    replies@,
                    final(self).fds(),
                    final(self).next_vfd(),
                    final(self).served(),
                ),
            reply_ids(replies@) == round_answer_ids(merged_views(ops@)),
            final(self).pending_ids() == old(self).pending_ids(),
            final(self).drains_all() == old(self).drains_all(),
            vfds_fresh(old(self).fds(), old(self).next_vfd()) && old(self).next_vfd() + ops@.len()
                <= u64::MAX ==> vfds_fresh(final(self).fds(), final(self).next_vfd())
                && old(self).next_vfd() <= final(self).next_vfd(),
    {
        broadcast use vstd::multiset::group_multiset_axioms;

        let ghost views = merged_views(ops@);
        let ghost pending0 = self.pending_ids();
        let ghost drains0 = self.drains_all();
        let ghost fds0 = self.fds();
        let ghost next0 = self.next_vfd();
        let ghost served0 = self.served();
        let ghost fresh = vfds_fresh(fds0, next0) && next0 + ops@.len() <= u64::MAX;
        let ghost mut rcs: Seq<i64> = Seq::empty();
        let mut replies: Vec<Reply> = Vec::new();
        let mut batch: Vec<BatchOp> = Vec::with_capacity(ops.len());
        // Index in `ops` of each batch entry, to fan the result out to sources.
        let mut batch_origin: Vec<usize> = Vec::with_capacity(ops.len());
        proof {
            assert(views.take(0) =~= Seq::<MergedView>::empty());
            assert(reply_ids(replies@).add(origin_ids(views, batch_origin@)) =~= Multiset::empty());
            assert(first_pass(fds0, next0, views.take(0), rcs) =~= (RoundState {
                fds: self.fds(),
                next: self.next_vfd(),
                replies: replies@,
                calls: self.served().skip(served0.len() as int),
                origins: batch_origin@,
                kinds: kinds_of(batch@),
            }));
        }
        let mut i: usize = 0;
        while i < ops.len()
            invariant
                i <= ops@.len(),
                views == merged_views(ops@),
                batch@.len() == batch_origin@.len(),
                forall|k: int|
                    0 <= k < batch_origin@.len() ==> (#[trigger] batch_origin@[k]) < ops@.len()
                        && kind_fits(views[batch_origin@[k] as int], batch@[k].kind),
                reply_ids(replies@).add(origin_ids(views, batch_origin@)) == round_answer_ids(
                    views.take(i as int),
                ),
                rcs.len() == i,
                first_pass(fds0, next0, views.take(i as int), rcs) =~= (RoundState {
                    fds: self.fds(),
                    next: self.next_vfd(),
                    replies: replies@,
                    calls: self.served().skip(served0.len() as int),
                    origins: batch_origin@,
                    kinds: kinds_of(batch@),
                }),
                self.pending_ids() == pending0,
                self.drains_all() == drains0,
                self.served().len() >= served0.len(),
                self.served().take(served0.len() as int) == served0,
                fresh == (vfds_fresh(fds0, next0) && next0 + ops@.len() <= u64::MAX),
                fresh ==> vfds_fresh(self.fds(), self.next_vfd()) && next0 <= self.next_vfd()
                    <= next0 + i,
            decreases ops@.len() - i,
        {
            let op = &ops[i];
            let ghost r0 = replies@;
            let ghost o0 = batch_origin@;
            let ghost b0 = batch@;
            let ghost v = op@;
            let ghost st0 = first_pass(fds0, next0, views.take(i as int), rcs);
            let ghost sv0 = self.served();
            let ghost rc: i64 = 0;
            proof {
                lemma_round_take(views, i as int);
                assert(views[i as int] == v);
            }
            match IoOp::from_u8(op.req.op) {
                Some(IoOp::Open) => {
                    let resp = self.handle_open(&op.req);
                    replies.push(Reply { channel_idx: op.channel_idx, resp });
                    proof {
                        lemma_reply_ids_push(r0, Reply { channel_idx: op.channel_idx, resp });
                        rc = choose|rc: i64|
                            {
                                let o = #[trigger] open_outcome(st0.fds, st0.next, v.req.id, rc);
                                &&& self.served() == sv0.push(open_call(v.req, rc))
                                &&& self.fds() == o.0
                                &&& self.next_vfd() == o.1
                                &&& resp == o.2
                            };
                        assert(self.served().skip(served0.len() as int) =~= sv0.skip(
                            served0.len() as int,
                        ).push(open_call(v.req, rc)));
                    }
                },
                Some(IoOp::Close) => {
                    let resp = self.handle_close(&op.req);
                    replies.push(Reply { channel_idx: op.channel_idx, resp });
                    proof {
                        lemma_reply_ids_push(r0, Reply { channel_idx: op.channel_idx, resp });
                        rc = choose|rc: i64|
                            {
                                &&& resp == #[trigger] close_response(st0.fds, v.req.id, v.req.fd, rc)
                                &&& self.served() == sv0 + close_calls(st0.fds, v.req.fd, rc)
                            };
                        assert(self.served().skip(served0.len() as int) =~= sv0.skip(
                            served0.len() as int,
                        ) + close_calls(st0.fds, v.req.fd, rc));
                    }
                },
                Some(IoOp::Read) => {
                    match self.prepare_read(op, &mut replies) {
                        Some(bop) => {
                            batch.push(bop);
                            batch_origin.push(i);
                            proof {
                                assert(batch_origin@.drop_last() =~= o0);
                                assert(kinds_of(batch@) =~= kinds_of(b0).push(bop.kind));
                            }
                        },
                        None => {
                            proof {
                                lemma_reply_ids_concat(r0, bad_fd_replies(v));
                                lemma_bad_fd_ids(v);
                            }
                        },
                    }
                },
                Some(IoOp::Write) => {
                    match self.prepare_write(op, &mut replies) {
                        Some(bop) => {
                            batch.push(bop);
                            batch_origin.push(i);
                            proof {
                                assert(batch_origin@.drop_last() =~= o0);
                                assert(kinds_of(batch@) =~= kinds_of(b0).push(bop.kind));
                            }
                        },
                        None => {
                            proof {
                                lemma_reply_ids_concat(r0, bad_fd_replies(v));
                                lemma_bad_fd_ids(v);
                            }
                        },
                    }
                },
                Some(IoOp::Sync) => {
                    match self.prepare_fsync(op, &mut replies) {
                        Some(bop) => {
                            batch.push(bop);
                            batch_origin.push(i);
                            proof {
                                assert(batch_origin@.drop_last() =~= o0);
                                assert(kinds_of(batch@) =~= kinds_of(b0).push(bop.kind));
                            }
                        },
                        None => {
                            proof {
                                lemma_reply_ids_push(r0, replies@.last());
                                assert(replies@ == r0.push(replies@.last()));
                            }
                        },
                    }
                },
                None => {
                    let resp = err_response(op.req.id, -1);
                    replies.push(Reply { channel_idx: op.channel_idx, resp });
                    proof {
                        lemma_reply_ids_push(r0, Reply { channel_idx: op.channel_idx, resp });
                    }
                },
            }
            proof {
                assert(reply_ids(replies@).add(origin_ids(views, batch_origin@)) =~= round_answer_ids(
                    views.take(i + 1),
                ));
                lemma_first_pass_take(fds0, next0, views, rcs, rc, i as int);
                rcs = rcs.push(rc);
                assert(round_step(st0, v, rc, i) =~= (RoundState {
                    fds: self.fds(),
                    next: self.next_vfd(),
                    replies: replies@,
                    calls: self.served().skip(served0.len() as int),
                    origins: batch_origin@,
                    kinds: kinds_of(batch@),
                }));
            }
            i = i + 1;
        }
        proof {
            assert(views.take(i as int) =~= views);
        }
        let ghost st = first_pass(fds0, next0, views, rcs);
        if batch.len() == 0 {
            proof {
                assert(origin_ids(views, batch_origin@) =~= Multiset::empty());
                assert(reply_ids(replies@) =~= reply_ids(replies@).add(
                    origin_ids(views, batch_origin@),
                ));
                let results = Seq::<i64>::empty();
                assert(replies@ =~= st.replies + second_pass(views, st.origins, st.kinds, results));
                assert(self.served() =~= served0 + st.calls + batch_served(st.kinds, results));
                assert(round_outcome(
                    fds0,
                    next0,
                    served0,
                    views,
                    rcs,
                    results,
                    replies@,
                    self.fds(),
                    self.next_vfd(),
                    self.served(),
                ));
            }
            return replies;
        }
        let ghost kinds = batch@;
        let ghost fds1 = self.fds();
        let ghost next1 = self.next_vfd();
        let ghost served1 = self.served();
        proof {
            assert(served1 =~= served0 + st.calls);
        }
        self.backend_batch(&mut batch);
        let ghost total = round_answer_ids(views);
        let ghost results = results_of(batch@);
        proof {
            assert(batch_origin@.skip(0) =~= batch_origin@);
            assert(kinds_of(batch@) =~= kinds_of(kinds));
            assert(st.origins.take(0) =~= Seq::<usize>::empty());
            assert(replies@ =~= st.replies + second_pass(
                views,
                st.origins.take(0),
                st.kinds.take(0),
                results.take(0),
            ));
        }
        let mut k: usize = 0;
        while k < batch.len()
            invariant
                k <= batch@.len(),
                views == merged_views(ops@),
                batch@.len() == batch_origin@.len(),
                kinds.len() == batch@.len(),
                st.origins == batch_origin@,
                st.kinds == kinds_of(batch@),
                results == results_of(batch@),
                forall|j: int|
                    0 <= j < batch@.len() ==> (#[trigger] batch@[j]).kind == kinds[j].kind
                        && result_in_bounds(batch@[j]),
                forall|j: int|
                    0 <= j < batch_origin@.len() ==> (#[trigger] batch_origin@[j]) < ops@.len()
                        && kind_fits(views[batch_origin@[j] as int], kinds[j].kind),
                reply_ids(replies@).add(origin_ids(views, batch_origin@.skip(k as int)))
                    == total,
                replies@ == st.replies + second_pass(
                    views,
                    st.origins.take(k as int),
                    st.kinds.take(k as int),
                    results.take(k as int),
                ),
                self.pending_ids() == pending0,
                self.drains_all() == drains0,
                self.fds() == fds1,
                self.next_vfd() == next1,
                self.served() == served1 + served_ops(batch@),
            decreases batch@.len() - k,
        {
            let orig_idx = batch_origin[k];
            let op = &ops[orig_idx];
            let result = batch[k].result;
            let ghost r0 = replies@;
            let ghost v = op@;
            proof {
                lemma_origin_skip(views, batch_origin@, k as int);
                assert(views[orig_idx as int] == v);
                assert(kind_fits(v, batch@[k as int].kind));
                lemma_second_pass_take(views, st.origins, st.kinds, results, k as int);
            }
            match batch[k].kind {
                BatchKind::Pread { .. } => {
                    read_replies(op, result, &mut replies);
                    proof {
                        lemma_reply_ids_concat(r0, read_replies_spec(v, result));
                        lemma_read_ids(v, result);
                    }
                },
                BatchKind::Pwrite { .. } => {
                    write_replies(op, result, &mut replies);
                    proof {
                        lemma_reply_ids_concat(r0, write_replies_spec(v, result));
                        lemma_write_ids(v, result);
                    }
                },
                BatchKind::Fsync { .. } => {
                    let rep = fsync_reply(op, result);
                    replies.push(rep);
                    proof {
                        lemma_reply_ids_push(r0, rep);
                    }
                },
            }
            proof {
                assert(reply_ids(replies@).add(origin_ids(views, batch_origin@.skip(k + 1)))
                    =~= total);
                assert(replies@ =~= st.replies + second_pass(
                    views,
                    st.origins.take(k + 1),
                    st.kinds.take(k + 1),
                    results.take(k + 1),
                ));
            }
            k = k + 1;
        }
        proof {
            assert(batch_origin@.skip(k as int) =~= Seq::<usize>::empty());
            assert(reply_ids(replies@) =~= reply_ids(replies@).add(
                origin_ids(views, batch_origin@.skip(k as int)),
            ));
            assert(st.origins.take(k as int) =~= st.origins);
            assert(st.kinds.take(k as int) =~= st.kinds);
            assert(results.take(k as int) =~= results);
            assert forall|j: int| 0 <= j < results.len() implies result_in_bounds(
                BatchOp { kind: #[trigger] st.kinds[j], result: results[j] },
            ) by {
                assert(result_in_bounds(batch@[j]));
                assert(batch@[j] == BatchOp { kind: st.kinds[j], result: results[j] });
            }
            assert(served_ops(batch@) =~= batch_served(st.kinds, results));
            assert(round_outcome(
                fds0,
                next0,
                served0,
                views,
                rcs,
                results,
                replies@,
                self.fds(),
                self.next_vfd(),
                self.served(),
            ));
        }
        replies
    }
}

/// For well-sourced operations, replying per `op_answer_ids` answers
/// exactly the sources.
pub proof fn lemma_round_answers_sources(views: Seq<MergedView>)
    requires
        forall|k: int| 0 <= k < views.len() ==> well_sourced(#[trigger] views[k]),
    ensures
        round_answer_ids(views) == answered(views),
    decreases views.len(),
{
    broadcast use vstd::multiset::group_multiset_axioms;

    if views.len() > 0 {
        let m = views.last();
        assert(well_sourced(views[views.len() - 1]));
        lemma_round_answers_sources(views.drop_last());
        if !is_data_op(m) {
            assert(m.sources.drop_last() =~= Seq::<(u64, u32, u32)>::empty());
            assert(source_ids(m.sources.drop_last(), m.channel_idx) =~= Multiset::empty());
            assert(source_ids(m.sources, m.channel_idx) =~= op_answer_ids(m));
        }
    }
}

impl<E: IoExecutor, P: Pipeline> ServiceCore<E, P> {
    /// One pass of the service loop after polling: when the pipeline holds
    /// work, drain it and execute the round. Every request answered leaves the
    /// pending set: the replies and what stays pending make up what was
    /// pending, and the replies are those of a round over the drained
    /// operations, exactly as drained and in drain order (`next_round`). A
    /// pipeline that drains all is left with nothing pending, and virtual fds
    /// stay fresh while the counter does not reach its largest value.
    pub fn step(&mut self) -> (replies: Vec<Reply>)
        ensures
            reply_ids(replies@).add(final(self).pending_ids()) == old(self).pending_ids(),
            old(self).drains_all() ==> final(self).pending_ids().len() == 0,
            final(self).drains_all() == old(self).drains_all(),
            answered(old(self).next_round()).add(final(self).pending_ids()) == old(
                self,
            ).pending_ids(),
            exists|rcs: Seq<i64>, results: Seq<i64>|
                #[trigger] round_outcome(
                    old(self).fds(),
                    old(self).next_vfd(),
                    old(self).served(),
                    old(self).next_round(),
                    rcs,
                    results,
                    replies@,
                    final(self).fds(),
                    final(self).next_vfd(),
                    final(self).served(),
                ),
            vfds_fresh(old(self).fds(), old(self).next_vfd()) && old(self).next_vfd()
                + old(self).next_round().len() <= u64::MAX ==> vfds_fresh(
                final(self).fds(),
                final(self).next_vfd(),
            ) && old(self).next_vfd() <= final(self).next_vfd(),
    {
        broadcast use vstd::multiset::group_multiset_axioms;

        if !self.pipeline.is_empty() {
            let ghost s0 = self.served();
            let ghost f0 = self.fds();
            let ghost n0 = self.next_vfd();
            let ghost p0 = self.pending_ids();
            let ghost round = self.next_round();
            let ops = self.pipeline.drain();
            let ghost d = merged_views(ops@);
            assert(d == round);
            proof {
                lemma_round_answers_sources(d);
                assert(self.served() == s0 && self.fds() == f0 && self.next_vfd() == n0);
            }
            let r = self.execute_round(ops);
            proof {
                let (rcs, results) = choose|rcs: Seq<i64>, results: Seq<i64>|
                    round_outcome(
                        f0,
                        n0,
                        s0,
                        d,
                        rcs,
                        results,
                        r@,
                        self.fds(),
                        self.next_vfd(),
                        self.served(),
                    );
                assert(answered(d).add(self.pending_ids()) == p0);
                assert(round_outcome(
                    f0,
                    n0,
                    s0,
                    d,
                    rcs,
                    results,
                    r@,
                    self.fds(),
                    self.next_vfd(),
                    self.served(),
                ));
            }
            r
        } else {
            let r = Vec::new();
            assert(reply_ids(r@).add(self.pending_ids()) =~= self.pending_ids());
            proof {
                let d = Seq::<MergedView>::empty();
                assert(self.next_round() == d);
                let rcs = Seq::<i64>::empty();
                let results = Seq::<i64>::empty();
                assert(answered(d) =~= Multiset::empty());
                assert(answered(d).add(self.pending_ids()) =~= self.pending_ids());
                assert(r@ =~= first_pass(self.fds(), self.next_vfd(), d, rcs).replies + second_pass(
                    d,
                    seq![],
                    seq![],
                    results,
                ));
                let st = first_pass(self.fds(), self.next_vfd(), d, rcs);
                assert(self.served() =~= self.served() + st.calls + batch_served(st.kinds, results));
                assert(round_outcome(
                    self.fds(),
                    self.next_vfd(),
                    self.served(),
                    d,
                    rcs,
                    results,
                    r@,
                    self.fds(),
                    self.next_vfd(),
                    self.served(),
                ));
            }
            r
        }
    }
}

} // verus!
