//! The I/O backend interface the service runs operations through.
use vstd::prelude::*;

verus! {

/// Result of an I/O operation: bytes transferred (or an fd for `open`),
/// or a negative errno.
pub type IoResult = i64;

/// Where the buffer of a data-plane operation lies: an offset into the
/// shared data region of a channel.
#[derive(Debug, Clone, Copy, PartialEq, Eq, Structural)]
pub struct DataRef {
    pub channel_idx: usize,
    pub data_offset: u32,
}

/// A single batchable data-plane op. Structural ops (open, close) are
/// not included here; they always run through the single-op methods
/// because they change the fd table that later ops depend on.
#[derive(Debug, Clone, Copy, PartialEq, Eq, Structural)]
pub enum BatchKind {
    Pread { fd: i32, buf: DataRef, len: usize, offset: u64 },
    Pwrite { fd: i32, buf: DataRef, len: usize, offset: u64 },
    Fsync { fd: i32 },
}

/// An op paired with its result slot, filled in by `execute_batch`.
#[derive(Debug, Clone, Copy, PartialEq, Eq, Structural)]
pub struct BatchOp {
    pub kind: BatchKind,
    pub result: IoResult,
}

impl BatchOp {
    pub open spec fn new_spec(kind: BatchKind) -> BatchOp {
        BatchOp { kind, result: 0 }
    }

    pub fn new(kind: BatchKind) -> (r: Self)
        ensures
            r == Self::new_spec(kind),
    {
        BatchOp { kind, result: 0 }
    }
}

/// What every backend promises of a finished op: reads and writes never
/// report more bytes than were asked for.
pub open spec fn result_in_bounds(op: BatchOp) -> bool {
    match op.kind {
        BatchKind::Pread { len, .. } => op.result <= len,
        BatchKind::Pwrite { len, .. } => op.result <= len,
        BatchKind::Fsync { .. } => true,
    }
}

// ---------------------------------------------------------------------
// Submitting a batch in chunks and collecting its completions
// ---------------------------------------------------------------------
/// End of the chunk that starts at op `i` of `n` ops when a submission
/// holds at most `cap` entries.
pub open spec fn chunk_end(i: int, n: int, cap: int) -> int {
    if n - i <= cap {
        n
    } else {
        i + cap
    }
}

/// The next chunk `[start, end)` of a batch of `n` ops to submit, from op
/// `i` on, with at most `cap` entries per submission; `None` once every op
/// was submitted.
pub fn next_chunk(i: usize, n: usize, cap: usize) -> (r: Option<(usize, usize)>)
    ensures
        i >= n ==> r is None,
        i < n ==> r == Some((i, chunk_end(i as int, n as int, cap as int) as usize)),
{
    if i >= n {
        None
    } else if n - i <= cap {
        Some((i, n))
    } else {
        Some((i, i + cap))
    }
}

/// Chunks make progress and respect the capacity: a chunk starting inside
/// the batch is non-empty, ends inside it, and holds at most `cap` ops, so
/// walking the chunks from op 0 submits every op once, in order.
pub proof fn lemma_chunk_progress(i: int, n: int, cap: int)
    requires
        0 <= i < n,
        cap > 0,
    ensures
        i < chunk_end(i, n, cap) <= n,
        chunk_end(i, n, cap) - i <= cap,
{
}

/// The result slots of a chunk of ops that starts at op `base`, after the
/// completions `comps` (tag, result) were reaped in order: a completion
/// whose tag is the index of an op of the chunk sets that op's result, any
/// other completion is ignored.
pub open spec fn apply_completions(results: Seq<i64>, base: usize, comps: Seq<(u64, i32)>) -> Seq<i64>
    decreases comps.len(),
{
    if comps.len() == 0 {
        results
    } else {
        let r = apply_completions(results, base, comps.drop_last());
        let idx = comps.last().0 as usize;
        if base <= idx && idx < base + r.len() {
            r.update(idx - base, comps.last().1 as i64)
        } else {
            r
        }
    }
}

/// Records reaped completions into the result slots of a chunk starting at
/// op `base`.
pub fn record_completions(results: &mut Vec<i64>, base: usize, comps: &Vec<(u64, i32)>)
    requires
        base + old(results)@.len() <= usize::MAX,
    ensures
        final(results)@ == apply_completions(old(results)@, base, comps@),
{
    let ghost start = results@;
    let mut k: usize = 0;
    while k < comps.len()
        invariant
            k <= comps@.len(),
            results@.len() == start.len(),
            base + start.len() <= usize::MAX,
            results@ == apply_completions(start, base, comps@.take(k as int)),
        decreases comps@.len() - k,
    {
        let (tag, res) = comps[k];
        let idx = tag as usize;
        proof {
            assert(comps@.take(k + 1).drop_last() =~= comps@.take(k as int));
        }
        if base <= idx && idx < base + results.len() {
            results.set(idx - base, res as i64);
        }
        k = k + 1;
    }
    assert(comps@.take(k as int) =~= comps@);
}

/// A call made on a backend, with what it returned.
pub enum Served {
    Open { path: Seq<char>, flags: i32, mode: u32, result: i64 },
    Close { fd: i32, result: i64 },
    /// A read, write or fsync, with its fields.
    Op { kind: BatchKind, result: i64 },
}

/// The single-op calls that running `ops` amounts to, in order.
pub open spec fn served_ops(ops: Seq<BatchOp>) -> Seq<Served> {
    ops.map_values(|o: BatchOp| Served::Op { kind: o.kind, result: o.result })
}

/// The low-level I/O backend, for users to implement (a POSIX backend and an
/// io_uring backend exist). Results are bytes transferred, an fd, or a
/// negative errno; a read or write never reports more bytes than its length.
///
/// A backend verified against this trait may keep, for proofs only, a record
/// of the calls it served (`served`), and say so (`keeps_record`); each call
/// then appends itself, with its arguments and result, to that record. A
/// backend that keeps no record (the default, as for backends written
/// outside verification) is promised nothing about it.
pub trait IoExecutor {
    /// Whether this backend keeps the record of its calls.
    open spec fn keeps_record() -> bool {
        false
    }

    /// The calls served so far, oldest first, when a record is kept.
    open spec fn served(&self) -> Seq<Served> {
        Seq::empty()
    }

    fn open(&mut self, path: &str, flags: i32, mode: u32) -> (r: IoResult)
        ensures
            Self::keeps_record() ==> final(self).served() == old(self).served().push(
                Served::Open { path: path@, flags, mode, result: r },
            ),
    ;

    fn close(&mut self, fd: i32) -> (r: IoResult)
        ensures
            Self::keeps_record() ==> final(self).served() == old(self).served().push(
                Served::Close { fd, result: r },
            ),
    ;

    fn pread(&mut self, fd: i32, buf: DataRef, len: usize, offset: u64) -> (r: IoResult)
        ensures
            r <= len,
            Self::keeps_record() ==> final(self).served() == old(self).served().push(
                Served::Op { kind: BatchKind::Pread { fd, buf, len, offset }, result: r },
            ),
    ;

    fn pwrite(&mut self, fd: i32, buf: DataRef, len: usize, offset: u64) -> (r: IoResult)
        ensures
            r <= len,
            Self::keeps_record() ==> final(self).served() == old(self).served().push(
                Served::Op { kind: BatchKind::Pwrite { fd, buf, len, offset }, result: r },
            ),
    ;

    fn fsync(&mut self, fd: i32) -> (r: IoResult)
        ensures
            Self::keeps_record() ==> final(self).served() == old(self).served().push(
                Served::Op { kind: BatchKind::Fsync { fd }, result: r },
            ),
    ;

    /// Execute a batch of data-plane ops, filling in each result: the same
    /// as running each op through `pread`, `pwrite` or `fsync`, once, in
    /// increasing index order, each op's result being what its own call
    /// returned. The default does exactly that; backends that support
    /// batching override this to submit all ops at once.
    fn execute_batch(&mut self, ops: &mut Vec<BatchOp>)
        ensures
            final(ops)@.len() == old(ops)@.len(),
            forall|i: int|
                0 <= i < final(ops)@.len() ==> (#[trigger] final(ops)@[i]).kind == old(ops)@[i].kind
                    && result_in_bounds(final(ops)@[i]),
            Self::keeps_record() ==> final(self).served() == old(self).served() + served_ops(
                final(ops)@,
            ),
    {
        let ghost before = ops@;
        let ghost served0 = self.served();
        let mut i: usize = 0;
        while i < ops.len()
            invariant
                i <= ops@.len(),
                ops@.len() == before.len(),
                forall|k: int| 0 <= k < ops@.len() ==> (#[trigger] ops@[k]).kind == before[k].kind,
                forall|k: int| 0 <= k < i ==> result_in_bounds(#[trigger] ops@[k]),
                Self::keeps_record() ==> self.served() == served0 + served_ops(ops@.take(i as int)),
            decreases ops@.len() - i,
        {
            let kind = ops[i].kind;
            let ghost o0 = ops@;
            let result = match kind {
                BatchKind::Pread { fd, buf, len, offset } => self.pread(fd, buf, len, offset),
                BatchKind::Pwrite { fd, buf, len, offset } => self.pwrite(fd, buf, len, offset),
                BatchKind::Fsync { fd } => self.fsync(fd),
            };
            ops.set(i, BatchOp { kind, result });
            proof {
                assert(ops@.take(i + 1) =~= o0.take(i as int).push(BatchOp { kind, result }));
                assert(served_ops(ops@.take(i + 1)) =~= served_ops(o0.take(i as int)).push(
                    Served::Op { kind, result },
                ));
            }
            i = i + 1;
        }
        assert(ops@.take(i as int) =~= ops@);
    }
}

} // verus!
