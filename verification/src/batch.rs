//! Coalescing of adjacent reads and writes on the same file of the same
//! channel into one larger operation.
use crate::protocol::{op_of_code, IoOp, IoRequest};
use vstd::multiset::Multiset;
use vstd::prelude::*;

verus! {

broadcast use vstd::seq_lib::group_seq_properties;

/// A pending request tagged with its channel index.
#[derive(Debug, Clone, Copy)]
pub struct TaggedRequest {
    pub req: IoRequest,
    pub channel_idx: usize,
}

/// A batch of requests that may have been merged.
#[derive(Debug)]
pub struct MergedOp {
    /// The merged request (offset = min offset, len = total span).
    pub req: IoRequest,
    pub channel_idx: usize,
    /// The requests merged into this one:
    /// (request id, offset within the merged span, requested length).
    pub sources: Vec<(u64, u32, u32)>,
}

/// The value of a `MergedOp`, its sources as a sequence.
pub struct MergedView {
    pub req: IoRequest,
    pub channel_idx: usize,
    pub sources: Seq<(u64, u32, u32)>,
}

impl View for MergedOp {
    type V = MergedView;

    open spec fn view(&self) -> MergedView {
        MergedView { req: self.req, channel_idx: self.channel_idx, sources: self.sources@ }
    }
}

pub open spec fn merged_views(s: Seq<MergedOp>) -> Seq<MergedView> {
    s.map_values(|m: MergedOp| m@)
}

pub open spec fn is_read(t: TaggedRequest) -> bool {
    op_of_code(t.req.op) == Some(IoOp::Read)
}

pub open spec fn is_write(t: TaggedRequest) -> bool {
    op_of_code(t.req.op) == Some(IoOp::Write)
}

pub open spec fn is_other(t: TaggedRequest) -> bool {
    !is_read(t) && !is_write(t)
}

pub open spec fn reads_pred() -> spec_fn(TaggedRequest) -> bool {
    |t: TaggedRequest| is_read(t)
}

pub open spec fn writes_pred() -> spec_fn(TaggedRequest) -> bool {
    |t: TaggedRequest| is_write(t)
}

pub open spec fn others_pred() -> spec_fn(TaggedRequest) -> bool {
    |t: TaggedRequest| is_other(t)
}

/// A request passed through unmerged: its only source is itself.
pub open spec fn single_op(t: TaggedRequest) -> MergedView {
    MergedView {
        req: t.req,
        channel_idx: t.channel_idx,
        sources: seq![(t.req.id, 0u32, t.req.len)],
    }
}

// ---------------------------------------------------------------------
// Ordering by (channel_idx, fd, offset)
// ---------------------------------------------------------------------
/// `a` sorts strictly before `b` by (channel index, fd, offset).
pub open spec fn key_lt(a: TaggedRequest, b: TaggedRequest) -> bool {
    ||| a.channel_idx < b.channel_idx
    ||| a.channel_idx == b.channel_idx && a.req.fd < b.req.fd
    ||| a.channel_idx == b.channel_idx && a.req.fd == b.req.fd && a.req.offset < b.req.offset
}

pub open spec fn key_le(a: TaggedRequest, b: TaggedRequest) -> bool {
    !key_lt(b, a)
}

/// Inserts `x` after every element whose key is not greater than its own.
pub open spec fn insert_sorted(s: Seq<TaggedRequest>, x: TaggedRequest) -> Seq<TaggedRequest>
    decreases s.len(),
{
    if s.len() == 0 {
        seq![x]
    } else if key_le(s.last(), x) {
        s.push(x)
    } else {
        insert_sorted(s.drop_last(), x).push(s.last())
    }
}

/// Stable sort by (channel index, fd, offset): requests with equal keys
/// keep their order of arrival.
pub open spec fn sort_by_key(s: Seq<TaggedRequest>) -> Seq<TaggedRequest>
    decreases s.len(),
{
    if s.len() == 0 {
        s
    } else {
        insert_sorted(sort_by_key(s.drop_last()), s.last())
    }
}

fn key_less(a: &TaggedRequest, b: &TaggedRequest) -> (r: bool)
    ensures
        r == key_lt(*a, *b),
{
    if a.channel_idx != b.channel_idx {
        a.channel_idx < b.channel_idx
    } else if a.req.fd != b.req.fd {
        a.req.fd < b.req.fd
    } else {
        a.req.offset < b.req.offset
    }
}

/// Stable merge of two sequences, built from the back: on equal keys the
/// element of `b` (the later input) goes last.
pub open spec fn merge_by_key(a: Seq<TaggedRequest>, b: Seq<TaggedRequest>) -> Seq<TaggedRequest>
    decreases a.len() + b.len(),
{
    if a.len() == 0 {
        b
    } else if b.len() == 0 {
        a
    } else if key_le(a.last(), b.last()) {
        merge_by_key(a, b.drop_last()).push(b.last())
    } else {
        merge_by_key(a.drop_last(), b).push(a.last())
    }
}

/// Inserting into a merge is merging with the insertion.
proof fn lemma_insert_into_merge(a: Seq<TaggedRequest>, b: Seq<TaggedRequest>, x: TaggedRequest)
    ensures
        insert_sorted(merge_by_key(a, b), x) == merge_by_key(a, insert_sorted(b, x)),
    decreases a.len() + b.len(),
{
    if a.len() == 0 {
        assert(merge_by_key(a, b) == b);
        assert(merge_by_key(a, insert_sorted(b, x)) == insert_sorted(b, x));
    } else if b.len() == 0 {
        let bx = insert_sorted(b, x);
        assert(bx == seq![x]);
        assert(bx.drop_last() =~= b);
        assert(bx.last() == x);
        assert(merge_by_key(a, b) == a);
        if key_le(a.last(), x) {
            assert(merge_by_key(a, bx) == merge_by_key(a, b).push(x));
            assert(insert_sorted(a, x) == a.push(x));
        } else {
            lemma_insert_into_merge(a.drop_last(), b, x);
            assert(merge_by_key(a.drop_last(), b) == a.drop_last());
            assert(merge_by_key(a, bx) == merge_by_key(a.drop_last(), bx).push(a.last()));
            assert(insert_sorted(a, x) == insert_sorted(a.drop_last(), x).push(a.last()));
        }
    } else if key_le(b.last(), x) {
        let bx = b.push(x);
        assert(insert_sorted(b, x) == bx);
        assert(bx.drop_last() =~= b);
        assert(bx.last() == x);
        if key_le(a.last(), x) {
            assert(merge_by_key(a, bx) == merge_by_key(a, b).push(x));
            let m = merge_by_key(a, b);
            if key_le(a.last(), b.last()) {
                assert(m == merge_by_key(a, b.drop_last()).push(b.last()));
            } else {
                assert(m == merge_by_key(a.drop_last(), b).push(a.last()));
            }
            assert(key_le(m.last(), x));
            assert(insert_sorted(m, x) == m.push(x));
        } else {
            lemma_insert_into_merge(a.drop_last(), b, x);
            assert(!key_le(a.last(), b.last()));
            let m0 = merge_by_key(a.drop_last(), b);
            assert(merge_by_key(a, b) == m0.push(a.last()));
            assert(m0.push(a.last()).drop_last() =~= m0);
            assert(insert_sorted(m0.push(a.last()), x) == insert_sorted(m0, x).push(a.last()));
            assert(merge_by_key(a, bx) == merge_by_key(a.drop_last(), bx).push(a.last()));
        }
    } else {
        let ib = insert_sorted(b.drop_last(), x);
        let bx = ib.push(b.last());
        assert(insert_sorted(b, x) == bx);
        assert(bx.drop_last() =~= ib);
        assert(bx.last() == b.last());
        if key_le(a.last(), b.last()) {
            lemma_insert_into_merge(a, b.drop_last(), x);
            let m0 = merge_by_key(a, b.drop_last());
            assert(merge_by_key(a, b) == m0.push(b.last()));
            assert(m0.push(b.last()).drop_last() =~= m0);
            assert(insert_sorted(m0.push(b.last()), x) == insert_sorted(m0, x).push(b.last()));
            assert(merge_by_key(a, bx) == merge_by_key(a, ib).push(b.last()));
        } else {
            lemma_insert_into_merge(a.drop_last(), b, x);
            let m0 = merge_by_key(a.drop_last(), b);
            assert(merge_by_key(a, b) == m0.push(a.last()));
            assert(m0.push(a.last()).drop_last() =~= m0);
            assert(insert_sorted(m0.push(a.last()), x) == insert_sorted(m0, x).push(a.last()));
            assert(merge_by_key(a, bx) == merge_by_key(a.drop_last(), bx).push(a.last()));
        }
    }
}

/// Sorting a concatenation is merging the sorted parts.
pub proof fn lemma_sort_concat(a: Seq<TaggedRequest>, b: Seq<TaggedRequest>)
    ensures
        sort_by_key(a + b) == merge_by_key(sort_by_key(a), sort_by_key(b)),
    decreases b.len(),
{
    if b.len() == 0 {
        assert(a + b =~= a);
    } else {
        lemma_sort_concat(a, b.drop_last());
        assert((a + b).drop_last() =~= a + b.drop_last());
        assert((a + b).last() == b.last());
        lemma_insert_into_merge(sort_by_key(a), sort_by_key(b.drop_last()), b.last());
    }
}

/// Merges two sorted runs, stably.
#[verifier::spinoff_prover]
#[verifier::rlimit(40)]
fn merge_sorted(a: Vec<TaggedRequest>, b: Vec<TaggedRequest>) -> (r: Vec<TaggedRequest>)
    requires
        a@.len() + b@.len() <= usize::MAX,
    ensures
        r@ == merge_by_key(a@, b@),
{
    let n = a.len() + b.len();
    if n == 0 {
        return a;
    }
    let fill = if a.len() > 0 {
        a[0]
    } else {
        b[0]
    };
    let mut out: Vec<TaggedRequest> = Vec::with_capacity(n);
    let mut k: usize = 0;
    while k < n
        invariant
            k <= n,
            out@.len() == k,
        decreases n - k,
    {
        out.push(fill);
        k = k + 1;
    }
    let mut i: usize = a.len();
    let mut j: usize = b.len();
    proof {
        assert(a@.take(i as int) =~= a@);
        assert(b@.take(j as int) =~= b@);
        assert(out@.skip(n as int) =~= Seq::<TaggedRequest>::empty());
    }
    while i > 0 || j > 0
        invariant
            i <= a@.len(),
            j <= b@.len(),
            n == a@.len() + b@.len(),
            out@.len() == n,
            merge_by_key(a@, b@) == merge_by_key(a@.take(i as int), b@.take(j as int)) + out@.skip(
                (i + j) as int,
            ),
        decreases i + j,
    {
        let ghost ta = a@.take(i as int);
        let ghost tb = b@.take(j as int);
        let ghost rest = out@.skip((i + j) as int);
        let take_b = if i == 0 {
            true
        } else if j == 0 {
            false
        } else {
            !key_less(&b[j - 1], &a[i - 1])
        };
        if take_b {
            let x = b[j - 1];
            out.set(i + j - 1, x);
            proof {
                assert(tb.last() == x);
                assert(tb.drop_last() =~= b@.take(j - 1));
                if i > 0 {
                    assert(ta.len() > 0);
                    assert(ta.last() == a@[i - 1]);
                }
                assert(merge_by_key(ta, tb) == merge_by_key(ta, b@.take(j - 1)).push(x));
                assert(out@.skip((i + j - 1) as int) =~= seq![x] + rest);
            }
            j = j - 1;
        } else {
            let x = a[i - 1];
            out.set(i + j - 1, x);
            proof {
                assert(ta.last() == x);
                assert(ta.drop_last() =~= a@.take(i - 1));
                assert(merge_by_key(ta, tb) == merge_by_key(a@.take(i - 1), tb).push(x));
                assert(out@.skip((i + j - 1) as int) =~= seq![x] + rest);
            }
            i = i - 1;
        }
    }
    proof {
        assert(a@.take(0) =~= Seq::<TaggedRequest>::empty());
        assert(b@.take(0) =~= Seq::<TaggedRequest>::empty());
        assert(out@.skip(0) =~= out@);
    }
    out
}

/// Stable merge sort of `ops[lo..hi]`.
fn sort_range(ops: &Vec<TaggedRequest>, lo: usize, hi: usize) -> (r: Vec<TaggedRequest>)
    requires
        lo <= hi <= ops@.len(),
    ensures
        r@ == sort_by_key(ops@.subrange(lo as int, hi as int)),
    decreases hi - lo,
{
    if hi - lo <= 1 {
        let mut out: Vec<TaggedRequest> = Vec::new();
        if hi - lo == 1 {
            out.push(ops[lo]);
            proof {
                let s = ops@.subrange(lo as int, hi as int);
                assert(s.drop_last() =~= Seq::<TaggedRequest>::empty());
                assert(sort_by_key(s.drop_last()) =~= Seq::<TaggedRequest>::empty());
                assert(sort_by_key(s) == insert_sorted(sort_by_key(s.drop_last()), s.last()));
                assert(out@ =~= seq![s.last()]);
            }
        } else {
            assert(ops@.subrange(lo as int, hi as int) =~= Seq::<TaggedRequest>::empty());
        }
        out
    } else {
        let mid = lo + (hi - lo) / 2;
        let left = sort_range(ops, lo, mid);
        let right = sort_range(ops, mid, hi);
        proof {
            let s = ops@.subrange(lo as int, hi as int);
            assert(s =~= ops@.subrange(lo as int, mid as int) + ops@.subrange(mid as int, hi as int));
            lemma_sort_concat(ops@.subrange(lo as int, mid as int), ops@.subrange(mid as int, hi as int));
            lemma_sort_is_permutation(ops@.subrange(lo as int, mid as int));
            lemma_sort_is_permutation(ops@.subrange(mid as int, hi as int));
            ops@.subrange(lo as int, mid as int).to_multiset_ensures();
            ops@.subrange(mid as int, hi as int).to_multiset_ensures();
            sort_by_key(ops@.subrange(lo as int, mid as int)).to_multiset_ensures();
            sort_by_key(ops@.subrange(mid as int, hi as int)).to_multiset_ensures();
        }
        let r = merge_sorted(left, right);
        proof {
            let s = ops@.subrange(lo as int, hi as int);
            let l = ops@.subrange(lo as int, mid as int);
            let h = ops@.subrange(mid as int, hi as int);
            assert(r@ == merge_by_key(sort_by_key(l), sort_by_key(h)));
            assert(s == l + h);
        }
        r
    }
}

/// Stable sort by (channel index, fd, offset), in O(n log n) comparisons.
fn sort_requests(ops: &Vec<TaggedRequest>) -> (r: Vec<TaggedRequest>)
    ensures
        r@ == sort_by_key(ops@),
{
    let r = sort_range(ops, 0, ops.len());
    assert(ops@.subrange(0, ops@.len() as int) =~= ops@);
    r
}

// ---------------------------------------------------------------------
// Merging runs of adjacent requests
// ---------------------------------------------------------------------
/// A run of merged requests: the first request, the end of the span covered
/// so far, and the sources gathered.
pub struct Run {
    pub first: TaggedRequest,
    pub end: u64,
    pub sources: Seq<(u64, u32, u32)>,
}

/// End of a request's span, `offset + len` in 64-bit arithmetic (wrapping
/// on overflow, as an optimized build computes it).
pub open spec fn req_end(t: TaggedRequest) -> u64 {
    t.req.offset.wrapping_add(t.req.len as u64)
}

/// `t` continues the run: same channel, same fd, starting no later than
/// where the run ends (adjacent or overlapping).
pub open spec fn joins(run: Run, t: TaggedRequest) -> bool {
    &&& t.channel_idx == run.first.channel_idx
    &&& t.req.fd == run.first.req.fd
    &&& t.req.offset <= run.end
}

pub open spec fn start_run(t: TaggedRequest) -> Run {
    Run { first: t, end: req_end(t), sources: seq![(t.req.id, 0u32, t.req.len)] }
}

pub open spec fn extend_run(run: Run, t: TaggedRequest) -> Run {
    Run {
        first: run.first,
        end: if req_end(t) > run.end {
            req_end(t)
        } else {
            run.end
        },
        sources: run.sources.push((t.req.id, (t.req.offset - run.first.req.offset) as u32, t.req.len)),
    }
}

/// Greedy left-to-right grouping of `ops` into runs.
pub open spec fn runs(ops: Seq<TaggedRequest>) -> Seq<Run>
    decreases ops.len(),
{
    if ops.len() == 0 {
        Seq::empty()
    } else {
        let prev = runs(ops.drop_last());
        let t = ops.last();
        if prev.len() > 0 && joins(prev.last(), t) {
            prev.drop_last().push(extend_run(prev.last(), t))
        } else {
            prev.push(start_run(t))
        }
    }
}

/// The operation a run becomes: the first request with its length widened
/// to the whole span.
pub open spec fn run_op(r: Run) -> MergedView {
    MergedView {
        req: IoRequest { len: r.end.wrapping_sub(r.first.req.offset) as u32, ..r.first.req },
        channel_idx: r.first.channel_idx,
        sources: r.sources,
    }
}

pub open spec fn merge_runs(ops: Seq<TaggedRequest>) -> Seq<MergedView> {
    runs(ops).map_values(|r: Run| run_op(r))
}

/// What `merge_adjacent` appends for the requests `ops`.
pub open spec fn merged(ops: Seq<TaggedRequest>) -> Seq<MergedView> {
    merge_runs(sort_by_key(ops))
}

proof fn lemma_sorted_insert_preserves(s: Seq<TaggedRequest>, x: TaggedRequest)
    ensures
        insert_sorted(s, x).to_multiset() == s.to_multiset().insert(x),
    decreases s.len(),
{
    broadcast use vstd::seq_lib::group_to_multiset_ensures;

    if s.len() == 0 {
        assert(seq![x] =~= Seq::<TaggedRequest>::empty().push(x));
    } else if key_le(s.last(), x) {
    } else {
        lemma_sorted_insert_preserves(s.drop_last(), x);
        assert(s =~= s.drop_last().push(s.last()));
    }
}

/// Sorting keeps exactly the requests it was given.
pub proof fn lemma_sort_is_permutation(s: Seq<TaggedRequest>)
    ensures
        sort_by_key(s).to_multiset() == s.to_multiset(),
    decreases s.len(),
{
    broadcast use vstd::seq_lib::group_to_multiset_ensures;

    if s.len() > 0 {
        lemma_sort_is_permutation(s.drop_last());
        lemma_sorted_insert_preserves(sort_by_key(s.drop_last()), s.last());
        assert(s =~= s.drop_last().push(s.last()));
    }
}

/// Every element of the sorted sequence comes from the input.
pub proof fn lemma_sort_elements(s: Seq<TaggedRequest>, k: int)
    requires
        0 <= k < sort_by_key(s).len(),
    ensures
        s.contains(sort_by_key(s)[k]),
{
    broadcast use vstd::seq_lib::group_to_multiset_ensures;

    lemma_sort_is_permutation(s);
    let x = sort_by_key(s)[k];
    assert(sort_by_key(s).contains(x));
    vstd::seq_lib::to_multiset_contains(sort_by_key(s), x);
    vstd::seq_lib::to_multiset_contains(s, x);
}

proof fn lemma_insert_sorted_sorted(s: Seq<TaggedRequest>, x: TaggedRequest)
    requires
        forall|a: int, b: int| 0 <= a < b < s.len() ==> key_le(s[a], s[b]),
    ensures
        insert_sorted(s, x).len() == s.len() + 1,
        forall|a: int, b: int|
            0 <= a < b < insert_sorted(s, x).len() ==> key_le(
                insert_sorted(s, x)[a],
                insert_sorted(s, x)[b],
            ),
        forall|a: int|
            0 <= a < insert_sorted(s, x).len() ==> insert_sorted(s, x)[a] == x || s.contains(
                insert_sorted(s, x)[a],
            ),
    decreases s.len(),
{
    if s.len() == 0 {
    } else if key_le(s.last(), x) {
        let r = s.push(x);
        assert forall|a: int, b: int| 0 <= a < b < r.len() implies key_le(r[a], r[b]) by {
            if b == s.len() {
                if a < s.len() - 1 {
                    assert(key_le(s[a], s[s.len() - 1]));
                }
            }
        }
        assert forall|a: int| 0 <= a < r.len() implies r[a] == x || s.contains(r[a]) by {
            if a < s.len() {
                assert(s[a] == r[a]);
            }
        }
    } else {
        let t = s.drop_last();
        lemma_insert_sorted_sorted(t, x);
        let r = insert_sorted(t, x);
        assert forall|a: int| 0 <= a < r.len() implies key_le(r[a], s.last()) by {
            if r[a] != x {
                assert(t.contains(r[a]));
                let w = choose|w: int| 0 <= w < t.len() && t[w] == r[a];
                assert(key_le(s[w], s[s.len() - 1]));
            }
        }
        let rr = r.push(s.last());
        assert(insert_sorted(s, x) == rr);
        assert forall|a: int, b: int| 0 <= a < b < rr.len() implies key_le(rr[a], rr[b]) by {
            if b < r.len() {
                assert(rr[a] == r[a] && rr[b] == r[b]);
            } else {
                assert(rr[a] == r[a]);
            }
        }
        assert forall|a: int| 0 <= a < rr.len() implies rr[a] == x || s.contains(rr[a]) by {
            if a < r.len() {
                if r[a] != x {
                    assert(t.contains(r[a]));
                    let w = choose|w: int| 0 <= w < t.len() && t[w] == r[a];
                    assert(s[w] == r[a]);
                }
            } else {
                assert(s[s.len() - 1] == rr[a]);
            }
        }
    }
}

/// The sorted sequence is ordered by (channel index, fd, offset).
pub proof fn lemma_sort_sorted(s: Seq<TaggedRequest>)
    ensures
        sort_by_key(s).len() == s.len(),
        forall|a: int, b: int|
            0 <= a < b < sort_by_key(s).len() ==> key_le(sort_by_key(s)[a], sort_by_key(s)[b]),
    decreases s.len(),
{
    if s.len() > 0 {
        lemma_sort_sorted(s.drop_last());
        lemma_insert_sorted_sorted(sort_by_key(s.drop_last()), s.last());
    }
}

proof fn lemma_merge_runs_push(ops: Seq<TaggedRequest>, i: int, j: int, run: Run)
    requires
        0 <= i < j <= ops.len(),
        runs(ops.take(j)) == runs(ops.take(i)).push(run),
    ensures
        merge_runs(ops.take(j)) == merge_runs(ops.take(i)).push(run_op(run)),
{
    assert(merge_runs(ops.take(j)) =~= merge_runs(ops.take(i)).push(run_op(run)));
}

fn merge_adjacent(ops: &mut Vec<TaggedRequest>, result: &mut Vec<MergedOp>)
    ensures
        merged_views(final(result)@) == merged_views(old(result)@) + merged(old(ops)@),
        final(ops)@ == sort_by_key(old(ops)@),
{
    let ghost input = ops@;
    let sorted = sort_requests(ops);
    *ops = sorted;
    proof {
        lemma_sort_sorted(input);
        assert(ops@.take(0) =~= Seq::<TaggedRequest>::empty());
        assert(merged_views(result@) =~= merged_views(result@) + merge_runs(ops@.take(0)));
    }
    let ghost start = merged_views(result@);
    let mut i: usize = 0;
    while i < ops.len()
        invariant
            ops@ == sort_by_key(input),
            forall|a: int, b: int| 0 <= a < b < ops@.len() ==> key_le(ops@[a], ops@[b]),
            i <= ops.len(),
            merged_views(result@) == start + merge_runs(ops@.take(i as int)),
            0 < i < ops.len() ==> !joins(runs(ops@.take(i as int)).last(), ops@[i as int]),
        decreases ops.len() - i,
    {
        let first = ops[i];
        let mut merged_req = first.req;
        let ch_idx = first.channel_idx;
        let mut end: u64 = first.req.offset.wrapping_add(first.req.len as u64);
        let mut sources = vec![(first.req.id, 0u32, first.req.len)];
        let ghost mut run = start_run(first);
        proof {
            let t = ops@.take(i + 1);
            assert(t.drop_last() =~= ops@.take(i as int));
            assert(runs(t) == runs(ops@.take(i as int)).push(run));
            assert(sources@ =~= run.sources);
        }
        let mut j: usize = i + 1;
        let mut joining = true;
        while joining && j < ops.len()
            invariant
                ops@ == sort_by_key(input),
                forall|a: int, b: int| 0 <= a < b < ops@.len() ==> key_le(ops@[a], ops@[b]),
                i < j <= ops.len(),
                first == ops@[i as int],
                merged_req == first.req,
                ch_idx == first.channel_idx,
                run.first == first,
                run.end == end,
                run.sources == sources@,
                runs(ops@.take(j as int)) == runs(ops@.take(i as int)).push(run),
                !joining ==> j < ops.len() && !joins(run, ops@[j as int]),
            decreases ops.len() - j, (if joining { 1int } else { 0int }),
        {
            let next = ops[j];
            if next.channel_idx == ch_idx && next.req.fd == merged_req.fd && next.req.offset
                <= end {
                assert(key_le(ops@[i as int], ops@[j as int]));
                let offset_within = #[verifier::truncate] ((next.req.offset - merged_req.offset) as u32);
                sources.push((next.req.id, offset_within, next.req.len));
                let next_end = next.req.offset.wrapping_add(next.req.len as u64);
                if next_end > end {
                    end = next_end;
                }
                proof {
                    let t = ops@.take(j + 1);
                    assert(t.drop_last() =~= ops@.take(j as int));
                    run = extend_run(run, next);
                    assert(sources@ =~= run.sources);
                    assert(runs(t) =~= runs(ops@.take(i as int)).push(run));
                }
                j = j + 1;
            } else {
                joining = false;
            }
        }
        merged_req.len = #[verifier::truncate] (end.wrapping_sub(merged_req.offset) as u32);
        let op = MergedOp { req: merged_req, channel_idx: ch_idx, sources };
        proof {
            lemma_merge_runs_push(ops@, i as int, j as int, run);
        }
        let ghost before = result@;
        result.push(op);
        proof {
            assert(op@ == run_op(run));
            assert(merged_views(result@) =~= merged_views(before).push(run_op(run)));
        }
        i = j;
    }
    assert(ops@.take(i as int) =~= ops@);
}

/// What `drain_merged` returns for the pending requests `p`: the requests
/// that are neither reads nor writes pass through one by one in order of
/// arrival, then the merged reads, then the merged writes.
pub open spec fn drain_plan(p: Seq<TaggedRequest>) -> Seq<MergedView> {
    p.filter(others_pred()).map_values(|t: TaggedRequest| single_op(t)) + merged(
        p.filter(reads_pred()),
    ) + merged(p.filter(writes_pred()))
}

/// Collects pending requests and drains them merged.
pub struct BatchEngine {
    pending: Vec<TaggedRequest>,
}

impl View for BatchEngine {
    type V = Seq<TaggedRequest>;

    closed spec fn view(&self) -> Seq<TaggedRequest> {
        self.pending@
    }
}

impl BatchEngine {
    pub fn new() -> (r: Self)
        ensures
            r@ == Seq::<TaggedRequest>::empty(),
    {
        BatchEngine { pending: Vec::with_capacity(256) }
    }

    pub fn add(&mut self, req: IoRequest, channel_idx: usize)
        ensures
            final(self)@ == old(self)@.push(TaggedRequest { req, channel_idx }),
    {
        self.pending.push(TaggedRequest { req, channel_idx });
    }

    pub fn is_empty(&self) -> (r: bool)
        ensures
            r == (self@.len() == 0),
    {
        self.pending.len() == 0
    }

    /// Drain pending requests, merging adjacent reads/writes on the same fd.
    /// Non-mergeable ops (Open, Close, Sync) pass through as-is.
    pub fn drain_merged(&mut self) -> (r: Vec<MergedOp>)
        ensures
            final(self)@ == Seq::<TaggedRequest>::empty(),
            merged_views(r@) == drain_plan(old(self)@),
    {
        let mut pending = Vec::new();
        std::mem::swap(&mut pending, &mut self.pending);
        let ghost p = pending@;
        if pending.len() == 0 {
            let r = Vec::new();
            proof {
                assert(merged_views(r@) =~= drain_plan(p));
            }
            return r;
        }
        let mut result: Vec<MergedOp> = Vec::with_capacity(pending.len());

        // Separate mergeable (Read/Write) from non-mergeable
        let mut reads: Vec<TaggedRequest> = Vec::new();
        let mut writes: Vec<TaggedRequest> = Vec::new();
        let mut others: Vec<TaggedRequest> = Vec::new();
        let mut i: usize = 0;
        while i < pending.len()
            invariant
                pending@ == p,
                i <= p.len(),
                reads@ == p.take(i as int).filter(reads_pred()),
                writes@ == p.take(i as int).filter(writes_pred()),
                others@ == p.take(i as int).filter(others_pred()),
                result@.len() == 0,
            decreases p.len() - i,
        {
            let tr = pending[i];
            proof {
                let q = p.take(i + 1);
                assert(q =~= p.take(i as int).push(tr));
                p.take(i as int).lemma_filter_push(tr, reads_pred());
                p.take(i as int).lemma_filter_push(tr, writes_pred());
                p.take(i as int).lemma_filter_push(tr, others_pred());
            }
            match IoOp::from_u8(tr.req.op) {
                Some(IoOp::Read) => reads.push(tr),
                Some(IoOp::Write) => writes.push(tr),
                _ => others.push(tr),
            }
            i = i + 1;
        }
        proof {
            assert(p.take(i as int) =~= p);
        }

        // Pass-through non-mergeable ops
        let mut k: usize = 0;
        while k < others.len()
            invariant
                k <= others@.len(),
                merged_views(result@) == others@.take(k as int).map_values(
                    |t: TaggedRequest| single_op(t),
                ),
            decreases others.len() - k,
        {
            let tr = others[k];
            let ghost before = result@;
            result.push(MergedOp { req: tr.req, channel_idx: tr.channel_idx, sources: vec![(tr.req.id, 0u32, tr.req.len)] });
            proof {
                assert(result@.last()@.sources =~= single_op(tr).sources);
                assert(result@.last()@ == single_op(tr));
                assert(result@ == before.push(result@.last()));
                assert(merged_views(result@) =~= merged_views(before).push(single_op(tr)));
                assert(others@.take(k + 1) =~= others@.take(k as int).push(tr));
                assert(merged_views(result@) =~= others@.take(k + 1).map_values(
                    |t: TaggedRequest| single_op(t),
                ));
            }
            k = k + 1;
        }
        proof {
            assert(others@.take(k as int) =~= others@);
        }

        // Merge adjacent reads, then adjacent writes, by (channel_idx, fd)
        merge_adjacent(&mut reads, &mut result);
        merge_adjacent(&mut writes, &mut result);
        proof {
            assert(merged_views(result@) =~= drain_plan(p));
        }
        result
    }
}

// ---------------------------------------------------------------------
// Conservation: every drained request is answered through exactly one
// source entry
// ---------------------------------------------------------------------
/// (request id, channel index) of each request, counted with multiplicity.
pub open spec fn ids_of(s: Seq<TaggedRequest>) -> Multiset<(u64, usize)>
    decreases s.len(),
{
    if s.len() == 0 {
        Multiset::empty()
    } else {
        ids_of(s.drop_last()).insert((s.last().req.id, s.last().channel_idx))
    }
}

/// (source request id, channel index) of the sources of one operation.
pub open spec fn source_ids(sources: Seq<(u64, u32, u32)>, channel_idx: usize) -> Multiset<
    (u64, usize),
>
    decreases sources.len(),
{
    if sources.len() == 0 {
        Multiset::empty()
    } else {
        source_ids(sources.drop_last(), channel_idx).insert((sources.last().0, channel_idx))
    }
}

/// The requests that a sequence of operations answers, counted with
/// multiplicity.
pub open spec fn answered(ops: Seq<MergedView>) -> Multiset<(u64, usize)>
    decreases ops.len(),
{
    if ops.len() == 0 {
        Multiset::empty()
    } else {
        answered(ops.drop_last()).add(source_ids(ops.last().sources, ops.last().channel_idx))
    }
}

pub proof fn lemma_answered_concat(a: Seq<MergedView>, b: Seq<MergedView>)
    ensures
        answered(a + b) == answered(a).add(answered(b)),
    decreases b.len(),
{
    broadcast use vstd::multiset::group_multiset_axioms;

    if b.len() == 0 {
        assert(a + b =~= a);
        assert(answered(a).add(answered(b)) =~= answered(a));
    } else {
        lemma_answered_concat(a, b.drop_last());
        assert((a + b).drop_last() =~= a + b.drop_last());
        assert(answered(a + b) =~= answered(a).add(answered(b)));
    }
}

pub proof fn lemma_ids_of_concat(a: Seq<TaggedRequest>, b: Seq<TaggedRequest>)
    ensures
        ids_of(a + b) == ids_of(a).add(ids_of(b)),
    decreases b.len(),
{
    broadcast use vstd::multiset::group_multiset_axioms;

    if b.len() == 0 {
        assert(a + b =~= a);
        assert(ids_of(a).add(ids_of(b)) =~= ids_of(a));
    } else {
        lemma_ids_of_concat(a, b.drop_last());
        assert((a + b).drop_last() =~= a + b.drop_last());
        assert(ids_of(a + b) =~= ids_of(a).add(ids_of(b)));
    }
}

proof fn lemma_ids_of_insert_sorted(s: Seq<TaggedRequest>, x: TaggedRequest)
    ensures
        ids_of(insert_sorted(s, x)) == ids_of(s).insert((x.req.id, x.channel_idx)),
    decreases s.len(),
{
    broadcast use vstd::multiset::group_multiset_axioms;

    if s.len() == 0 {
        assert(seq![x].drop_last() =~= Seq::<TaggedRequest>::empty());
    } else if key_le(s.last(), x) {
        assert(s.push(x).drop_last() =~= s);
    } else {
        lemma_ids_of_insert_sorted(s.drop_last(), x);
        let r = insert_sorted(s.drop_last(), x);
        assert(r.push(s.last()).drop_last() =~= r);
        assert(ids_of(insert_sorted(s, x)) =~= ids_of(s).insert((x.req.id, x.channel_idx)));
    }
}

/// Sorting keeps the (id, channel) of every request.
pub proof fn lemma_ids_of_sort(s: Seq<TaggedRequest>)
    ensures
        ids_of(sort_by_key(s)) == ids_of(s),
    decreases s.len(),
{
    if s.len() > 0 {
        lemma_ids_of_sort(s.drop_last());
        lemma_ids_of_insert_sorted(sort_by_key(s.drop_last()), s.last());
    }
}

proof fn lemma_runs_channel(ops: Seq<TaggedRequest>)
    ensures
        answered(runs(ops).map_values(|r: Run| run_op(r))) == ids_of(ops),
        forall|k: int| 0 <= k < runs(ops).len() ==> #[trigger] runs(ops)[k].sources.len() > 0,
    decreases ops.len(),
{
    broadcast use vstd::multiset::group_multiset_axioms;

    if ops.len() > 0 {
        let prev = runs(ops.drop_last());
        let t = ops.last();
        lemma_runs_channel(ops.drop_last());
        let pm = prev.map_values(|r: Run| run_op(r));
        if prev.len() > 0 && joins(prev.last(), t) {
            let last = prev.last();
            let e = extend_run(last, t);
            let init = prev.drop_last();
            let im = init.map_values(|r: Run| run_op(r));
            assert(pm =~= im.push(run_op(last)));
            assert(pm.drop_last() =~= im);
            assert(runs(ops).map_values(|r: Run| run_op(r)) =~= im.push(run_op(e)));
            assert(im.push(run_op(e)).drop_last() =~= im);
            assert(e.sources.drop_last() =~= last.sources);
            assert(source_ids(e.sources, e.first.channel_idx) =~= source_ids(
                last.sources,
                last.first.channel_idx,
            ).insert((t.req.id, t.channel_idx)));
            assert(answered(runs(ops).map_values(|r: Run| run_op(r))) =~= ids_of(ops));
        } else {
            let st = start_run(t);
            assert(runs(ops).map_values(|r: Run| run_op(r)) =~= pm.push(run_op(st)));
            assert(pm.push(run_op(st)).drop_last() =~= pm);
            assert(st.sources.drop_last() =~= Seq::<(u64, u32, u32)>::empty());
            assert(st.sources.last() == (t.req.id, 0u32, t.req.len));
            assert(source_ids(st.sources.drop_last(), t.channel_idx) =~= Multiset::empty());
            assert(source_ids(st.sources, t.channel_idx) =~= Multiset::empty().insert(
                (t.req.id, t.channel_idx),
            ));
            assert(ops.drop_last() =~= ops.drop_last());
            assert(answered(pm.push(run_op(st))) == answered(pm).add(
                source_ids(st.sources, t.channel_idx),
            ));
            assert(answered(runs(ops).map_values(|r: Run| run_op(r))) =~= ids_of(ops));
        }
    }
}

/// Merging answers each merged request exactly once, on its own channel.
pub proof fn lemma_merged_answers_all(ops: Seq<TaggedRequest>)
    ensures
        answered(merged(ops)) == ids_of(ops),
{
    lemma_runs_channel(sort_by_key(ops));
    lemma_ids_of_sort(ops);
}

pub proof fn lemma_singles_answer(s: Seq<TaggedRequest>)
    ensures
        answered(s.map_values(|t: TaggedRequest| single_op(t))) == ids_of(s),
    decreases s.len(),
{
    broadcast use vstd::multiset::group_multiset_axioms;

    if s.len() > 0 {
        lemma_singles_answer(s.drop_last());
        let m = s.map_values(|t: TaggedRequest| single_op(t));
        assert(m.drop_last() =~= s.drop_last().map_values(|t: TaggedRequest| single_op(t)));
        let so = single_op(s.last());
        assert(so.sources.drop_last() =~= Seq::<(u64, u32, u32)>::empty());
        assert(so.sources.last() == (s.last().req.id, 0u32, s.last().req.len));
        assert(source_ids(so.sources.drop_last(), so.channel_idx) =~= Multiset::empty());
        assert(source_ids(so.sources, so.channel_idx) =~= Multiset::empty().insert(
            (s.last().req.id, s.last().channel_idx),
        ));
        assert(m.last() == so);
        assert(answered(m) =~= ids_of(s));
    }
}

proof fn lemma_ids_of_partition(s: Seq<TaggedRequest>)
    ensures
        ids_of(s) == ids_of(s.filter(others_pred())).add(ids_of(s.filter(reads_pred()))).add(
            ids_of(s.filter(writes_pred())),
        ),
    decreases s.len(),
{
    broadcast use vstd::multiset::group_multiset_axioms;

    if s.len() == 0 {
        assert(ids_of(s.filter(others_pred())).add(ids_of(s.filter(reads_pred()))).add(
            ids_of(s.filter(writes_pred())),
        ) =~= Multiset::empty());
    } else {
        let t = s.drop_last();
        let x = s.last();
        lemma_ids_of_partition(t);
        assert(s =~= t.push(x));
        t.lemma_filter_push(x, others_pred());
        t.lemma_filter_push(x, reads_pred());
        t.lemma_filter_push(x, writes_pred());
        assert(t.filter(others_pred()).push(x).drop_last() =~= t.filter(others_pred()));
        assert(t.filter(reads_pred()).push(x).drop_last() =~= t.filter(reads_pred()));
        assert(t.filter(writes_pred()).push(x).drop_last() =~= t.filter(writes_pred()));
        assert(ids_of(s) =~= ids_of(s.filter(others_pred())).add(ids_of(s.filter(reads_pred()))).add(
            ids_of(s.filter(writes_pred())),
        ));
    }
}

/// Draining answers every pending request exactly once: the source entries
/// of the drained operations, tagged with their channel, are exactly the
/// (id, channel) of the pending requests.
pub proof fn lemma_drain_answers_all(p: Seq<TaggedRequest>)
    ensures
        answered(drain_plan(p)) == ids_of(p),
{
    let o = p.filter(others_pred());
    let r = p.filter(reads_pred());
    let w = p.filter(writes_pred());
    let om = o.map_values(|t: TaggedRequest| single_op(t));
    lemma_answered_concat(om + merged(r), merged(w));
    lemma_answered_concat(om, merged(r));
    lemma_singles_answer(o);
    lemma_merged_answers_all(r);
    lemma_merged_answers_all(w);
    lemma_ids_of_partition(p);
}

/// Draining gives nothing exactly when nothing was pending; in particular a
/// second drain right after a first one gives nothing.
pub proof fn lemma_drain_empty_iff(p: Seq<TaggedRequest>)
    ensures
        drain_plan(p).len() == 0 <==> p.len() == 0,
{
    broadcast use vstd::multiset::group_multiset_axioms;

    lemma_drain_answers_all(p);
    lemma_ids_of_len(p);
    if drain_plan(p).len() == 0 {
        assert(drain_plan(p) =~= Seq::<MergedView>::empty());
        assert(answered(drain_plan(p)) =~= Multiset::empty());
    }
    if p.len() == 0 {
        assert(p.filter(others_pred()) =~= p);
        assert(p.filter(reads_pred()) =~= p);
        assert(p.filter(writes_pred()) =~= p);
        assert(drain_plan(p) =~= Seq::<MergedView>::empty());
    }
}

/// As many requests are counted as there are.
pub proof fn lemma_ids_of_len(s: Seq<TaggedRequest>)
    ensures
        ids_of(s).len() == s.len(),
    decreases s.len(),
{
    broadcast use vstd::multiset::group_multiset_axioms;

    if s.len() > 0 {
        lemma_ids_of_len(s.drop_last());
    }
}

/// A read or a write: the operations answered per source.
pub open spec fn is_data_op(m: MergedView) -> bool {
    op_of_code(m.req.op) == Some(IoOp::Read) || op_of_code(m.req.op) == Some(IoOp::Write)
}

/// Any other operation is answered once, for its own request, which must
/// then be its only source.
pub open spec fn well_sourced(m: MergedView) -> bool {
    !is_data_op(m) ==> m.sources == seq![(m.req.id, 0u32, m.req.len)]
}

proof fn lemma_runs_first(ops: Seq<TaggedRequest>)
    ensures
        forall|k: int| 0 <= k < runs(ops).len() ==> ops.contains(#[trigger] runs(ops)[k].first),
    decreases ops.len(),
{
    if ops.len() > 0 {
        let t = ops.drop_last();
        lemma_runs_first(t);
        let prev = runs(t);
        assert forall|k: int| 0 <= k < runs(ops).len() implies ops.contains(
            #[trigger] runs(ops)[k].first,
        ) by {
            if k < prev.len() {
                if !(k == prev.len() - 1 && joins(prev.last(), ops.last())) {
                    assert(runs(ops)[k] == prev[k]);
                }
                assert(t.contains(prev[k].first));
                let w = choose|w: int| 0 <= w < t.len() && t[w] == prev[k].first;
                assert(ops[w] == t[w]);
            } else {
                assert(ops[ops.len() - 1] == ops.last());
            }
        }
    }
}

proof fn lemma_merged_data_ops(ops: Seq<TaggedRequest>)
    requires
        forall|k: int| 0 <= k < ops.len() ==> (#[trigger] ops[k]).req.op == 1 || ops[k].req.op == 2,
    ensures
        forall|k: int| 0 <= k < merged(ops).len() ==> is_data_op(#[trigger] merged(ops)[k]),
{
    let s = sort_by_key(ops);
    lemma_runs_first(s);
    assert forall|k: int| 0 <= k < merged(ops).len() implies is_data_op(#[trigger] merged(ops)[k]) by {
        let f = runs(s)[k].first;
        assert(s.contains(f));
        let w = choose|w: int| 0 <= w < s.len() && s[w] == f;
        lemma_sort_elements(ops, w);
        let v = choose|v: int| 0 <= v < ops.len() && ops[v] == f;
        assert(ops[v].req.op == 1 || ops[v].req.op == 2);
    }
}

/// Every operation `drain_merged` returns is well sourced.
pub proof fn lemma_drain_well_sourced(p: Seq<TaggedRequest>)
    ensures
        forall|k: int| 0 <= k < drain_plan(p).len() ==> well_sourced(#[trigger] drain_plan(p)[k]),
{
    let o = p.filter(others_pred());
    let r = p.filter(reads_pred());
    let w = p.filter(writes_pred());
    broadcast use vstd::seq_lib::group_filter_ensures;

    assert forall|k: int| 0 <= k < r.len() implies (#[trigger] r[k]).req.op == 1 || r[k].req.op == 2 by {
        assert(reads_pred()(r[k]));
    }
    assert forall|k: int| 0 <= k < w.len() implies (#[trigger] w[k]).req.op == 1 || w[k].req.op == 2 by {
        assert(writes_pred()(w[k]));
    }
    lemma_merged_data_ops(r);
    lemma_merged_data_ops(w);
    let om = o.map_values(|t: TaggedRequest| single_op(t));
    let d = drain_plan(p);
    assert(d == om + merged(r) + merged(w));
    assert forall|k: int| 0 <= k < d.len() implies well_sourced(#[trigger] d[k]) by {
        if k < om.len() {
            assert(d[k] == om[k]);
        } else if k < om.len() + merged(r).len() {
            assert(d[k] == merged(r)[k - om.len()]);
        } else {
            assert(d[k] == merged(w)[k - om.len() - merged(r).len()]);
        }
    }
}

// ---------------------------------------------------------------------
// Faithfulness: a merged operation only stands for requests on its own
// channel and file, each at its recorded place in the merged span
// ---------------------------------------------------------------------
/// Source `src` of operation `m` stands for request `t`: same id and
/// length, same channel and fd, at the recorded offset within the span.
pub open spec fn stands_for(m: MergedView, src: (u64, u32, u32), t: TaggedRequest) -> bool {
    &&& t.req.id == src.0
    &&& t.req.len == src.2
    &&& t.channel_idx == m.channel_idx
    &&& t.req.fd == m.req.fd
    &&& m.req.offset <= t.req.offset
    &&& src.1 == (t.req.offset - m.req.offset) as u32
}

pub open spec fn sorted_by_key(s: Seq<TaggedRequest>) -> bool {
    forall|a: int, b: int| 0 <= a < b < s.len() ==> key_le(s[a], s[b])
}

/// No request's end passes the largest 64-bit offset.
pub open spec fn ends_fit(s: Seq<TaggedRequest>) -> bool {
    forall|w: int| 0 <= w < s.len() ==> #[trigger] s[w].req.offset + s[w].req.len <= u64::MAX
}

/// The span a run covers, from its first offset to its end.
pub open spec fn run_span(r: Run) -> int {
    r.end - r.first.req.offset
}

/// Each merged span of `ops` fits in the 32-bit length of a request.
pub open spec fn spans_fit(ops: Seq<TaggedRequest>) -> bool {
    let rs = runs(sort_by_key(ops));
    forall|k: int| 0 <= k < rs.len() ==> run_span(#[trigger] rs[k]) <= u32::MAX
}

pub open spec fn run_faithful(r: Run, s: Seq<TaggedRequest>) -> bool {
    forall|j: int|
        0 <= j < r.sources.len() ==> exists|w: int|
            0 <= w < s.len() && stands_for(run_op(r), #[trigger] r.sources[j], s[w])
}

/// Every source of the run lies inside its span.
pub open spec fn run_covers(r: Run) -> bool {
    forall|j: int|
        0 <= j < r.sources.len() ==> (#[trigger] r.sources[j]).1 + r.sources[j].2 <= run_span(r)
}

proof fn lemma_runs_props(s: Seq<TaggedRequest>)
    requires
        sorted_by_key(s),
    ensures
        forall|k: int| 0 <= k < runs(s).len() ==> run_faithful(#[trigger] runs(s)[k], s),
    decreases s.len(),
{
    if s.len() > 0 {
        let t = s.drop_last();
        let x = s.last();
        assert(sorted_by_key(t));
        lemma_runs_props(t);
        lemma_runs_first(t);
        let prev = runs(t);
        assert(forall|w: int| 0 <= w < t.len() ==> t[w] == s[w]);
        // runs of the prefix stay faithful to the longer sequence
        assert forall|k: int| 0 <= k < prev.len() implies run_faithful(prev[k], s) by {
            assert forall|j: int| 0 <= j < prev[k].sources.len() implies exists|w: int|
                0 <= w < s.len() && stands_for(run_op(prev[k]), #[trigger] prev[k].sources[j], s[w]) by {
                assert(run_faithful(prev[k], t));
                let w = choose|w: int|
                    0 <= w < t.len() && stands_for(run_op(prev[k]), prev[k].sources[j], t[w]);
                assert(s[w] == t[w]);
            }
        }
        assert(x == s[s.len() - 1]);
        if prev.len() > 0 && joins(prev.last(), x) {
            let last = prev.last();
            let e = extend_run(last, x);
            assert(t.contains(last.first));
            let wf = choose|wf: int| 0 <= wf < t.len() && t[wf] == last.first;
            assert(key_le(s[wf], s[s.len() - 1]));
            assert(last.first.req.offset <= x.req.offset);
            assert(runs(s) == prev.drop_last().push(e));
            assert(run_faithful(e, s)) by {
                assert forall|j: int| 0 <= j < e.sources.len() implies exists|w: int|
                    0 <= w < s.len() && stands_for(run_op(e), #[trigger] e.sources[j], s[w]) by {
                    if j < last.sources.len() {
                        assert(e.sources[j] == last.sources[j]);
                        assert(run_faithful(last, s));
                        let w = choose|w: int|
                            0 <= w < s.len() && stands_for(run_op(last), last.sources[j], s[w]);
                        assert(stands_for(run_op(e), e.sources[j], s[w]));
                    } else {
                        assert(stands_for(run_op(e), e.sources[j], s[s.len() - 1]));
                    }
                }
            }
            assert forall|k: int| 0 <= k < runs(s).len() implies run_faithful(#[trigger] runs(s)[k], s) by {
                if k < prev.len() - 1 {
                    assert(runs(s)[k] == prev[k]);
                }
            }
        } else {
            let st = start_run(x);
            assert(runs(s) == prev.push(st));
            assert(run_faithful(st, s)) by {
                assert forall|j: int| 0 <= j < st.sources.len() implies exists|w: int|
                    0 <= w < s.len() && stands_for(run_op(st), #[trigger] st.sources[j], s[w]) by {
                    assert(st.sources[j] == (x.req.id, 0u32, x.req.len));
                    assert(stands_for(run_op(st), st.sources[j], s[s.len() - 1]));
                }
            }
            assert forall|k: int| 0 <= k < runs(s).len() implies run_faithful(#[trigger] runs(s)[k], s) by {
                if k < prev.len() {
                    assert(runs(s)[k] == prev[k]);
                }
            }
        }
    }
}

/// With no request end past 2^64, a run starts no later than it ends, and a
/// run whose span fits in 32 bits holds each of its sources inside it.
proof fn lemma_runs_cover(s: Seq<TaggedRequest>)
    requires
        sorted_by_key(s),
        ends_fit(s),
    ensures
        forall|k: int| 0 <= k < runs(s).len() ==> (#[trigger] runs(s)[k]).first.req.offset
            <= runs(s)[k].end,
        forall|k: int|
            0 <= k < runs(s).len() && run_span(#[trigger] runs(s)[k]) <= u32::MAX ==> run_covers(
                runs(s)[k],
            ),
    decreases s.len(),
{
    if s.len() > 0 {
        let t = s.drop_last();
        let x = s.last();
        assert(sorted_by_key(t));
        assert(ends_fit(t)) by {
            assert forall|w: int| 0 <= w < t.len() implies #[trigger] t[w].req.offset + t[w].req.len
                <= u64::MAX by {
                assert(s[w] == t[w]);
            }
        }
        lemma_runs_cover(t);
        lemma_runs_first(t);
        let prev = runs(t);
        assert(x == s[s.len() - 1]);
        assert(x.req.offset + x.req.len <= u64::MAX);
        assert(req_end(x) == x.req.offset + x.req.len);
        if prev.len() > 0 && joins(prev.last(), x) {
            let last = prev.last();
            let e = extend_run(last, x);
            assert(t.contains(last.first));
            let wf = choose|wf: int| 0 <= wf < t.len() && t[wf] == last.first;
            assert(s[wf] == t[wf]);
            assert(key_le(s[wf], s[s.len() - 1]));
            assert(last.first.req.offset <= x.req.offset);
            assert(runs(s) == prev.drop_last().push(e));
            assert(prev[prev.len() - 1] == last);
            assert(last.first.req.offset <= last.end);
            assert(e.end >= last.end);
            if run_span(e) <= u32::MAX {
                assert(run_covers(last));
                assert(run_covers(e)) by {
                    assert forall|j: int| 0 <= j < e.sources.len() implies (#[trigger] e.sources[j]).1
                        + e.sources[j].2 <= run_span(e) by {
                        if j < last.sources.len() {
                            assert(e.sources[j] == last.sources[j]);
                        } else {
                            let d = x.req.offset - last.first.req.offset;
                            assert(0 <= d <= u32::MAX);
                            assert((d as u32) as int == d);
                        }
                    }
                }
            }
            assert forall|k: int| 0 <= k < runs(s).len() implies (#[trigger] runs(s)[k]).first.req.offset
                <= runs(s)[k].end by {
                if k < prev.len() - 1 {
                    assert(runs(s)[k] == prev[k]);
                }
            }
            assert forall|k: int|
                0 <= k < runs(s).len() && run_span(#[trigger] runs(s)[k]) <= u32::MAX implies run_covers(
                runs(s)[k],
            ) by {
                if k < prev.len() - 1 {
                    assert(runs(s)[k] == prev[k]);
                }
            }
        } else {
            let st = start_run(x);
            assert(runs(s) == prev.push(st));
            assert(run_covers(st)) by {
                assert forall|j: int| 0 <= j < st.sources.len() implies (#[trigger] st.sources[j]).1
                    + st.sources[j].2 <= run_span(st) by {
                    assert(st.sources[j] == (x.req.id, 0u32, x.req.len));
                }
            }
            assert forall|k: int| 0 <= k < runs(s).len() implies (#[trigger] runs(s)[k]).first.req.offset
                <= runs(s)[k].end by {
                if k < prev.len() {
                    assert(runs(s)[k] == prev[k]);
                }
            }
            assert forall|k: int|
                0 <= k < runs(s).len() && run_span(#[trigger] runs(s)[k]) <= u32::MAX implies run_covers(
                runs(s)[k],
            ) by {
                if k < prev.len() {
                    assert(runs(s)[k] == prev[k]);
                }
            }
        }
    }
}

/// Merging never mixes channels or files: every source of a merged
/// operation stands for one of the merged requests, with the operation's
/// channel and fd, at the recorded offset from the operation's start.
pub proof fn lemma_merged_sources_faithful(ops: Seq<TaggedRequest>)
    ensures
        forall|k: int, j: int|
            0 <= k < merged(ops).len() && 0 <= j < merged(ops)[k].sources.len() ==> exists|w: int|
                0 <= w < ops.len() && stands_for(
                    merged(ops)[k],
                    #[trigger] merged(ops)[k].sources[j],
                    ops[w],
                ),
{
    let s = sort_by_key(ops);
    lemma_sort_sorted(ops);
    lemma_runs_props(s);
    assert forall|k: int, j: int|
        0 <= k < merged(ops).len() && 0 <= j < merged(ops)[k].sources.len() implies exists|w: int|
            0 <= w < ops.len() && stands_for(merged(ops)[k], #[trigger] merged(ops)[k].sources[j], ops[w]) by {
        let r = runs(s)[k];
        assert(merged(ops)[k] == run_op(r));
        assert(run_faithful(r, s));
        let w = choose|w: int| 0 <= w < s.len() && stands_for(run_op(r), r.sources[j], s[w]);
        lemma_sort_elements(ops, w);
        let v = choose|v: int| 0 <= v < ops.len() && ops[v] == s[w];
        assert(stands_for(merged(ops)[k], merged(ops)[k].sources[j], ops[v]));
    }
}

/// Each source of a merged operation lies inside the operation: its offset
/// plus its length is at most the merged length, whenever no request's end
/// passes 2^64 and each merged span fits in the 32-bit length.
pub proof fn lemma_merged_covers_sources(ops: Seq<TaggedRequest>)
    requires
        ends_fit(ops),
        spans_fit(ops),
    ensures
        forall|k: int, j: int|
            0 <= k < merged(ops).len() && 0 <= j < merged(ops)[k].sources.len() ==> (#[trigger] merged(
                ops,
            )[k].sources[j]).1 + merged(ops)[k].sources[j].2 <= merged(ops)[k].req.len,
{
    let s = sort_by_key(ops);
    lemma_sort_sorted(ops);
    assert(ends_fit(s)) by {
        assert forall|w: int| 0 <= w < s.len() implies #[trigger] s[w].req.offset + s[w].req.len
            <= u64::MAX by {
            lemma_sort_elements(ops, w);
            let v = choose|v: int| 0 <= v < ops.len() && ops[v] == s[w];
        }
    }
    lemma_runs_cover(s);
    assert forall|k: int, j: int|
        0 <= k < merged(ops).len() && 0 <= j < merged(ops)[k].sources.len() implies (#[trigger] merged(
            ops,
        )[k].sources[j]).1 + merged(ops)[k].sources[j].2 <= merged(ops)[k].req.len by {
        let r = runs(s)[k];
        assert(merged(ops)[k] == run_op(r));
        assert(run_span(r) <= u32::MAX);
        assert(run_covers(r));
        lemma_span_fits(r.end, r.first.req.offset);
    }
}

proof fn lemma_span_fits(end: u64, start: u64)
    requires
        start <= end,
        end - start <= 0xffff_ffff,
    ensures
        (end.wrapping_sub(start) as u32) as int == end - start,
{
    let d: u64 = (end - start) as u64;
    assert(end.wrapping_sub(start) == d);
    assert((d as u32) as int == d) by (bit_vector)
        requires
            d <= 0xffff_ffff,
    ;
}

/// Source `src` of an operation on channel `ch` is request `t`'s: same id,
/// same channel, and the request's length.
pub open spec fn source_of(src: (u64, u32, u32), ch: usize, t: TaggedRequest) -> bool {
    &&& src.0 == t.req.id
    &&& src.2 == t.req.len
    &&& ch == t.channel_idx
}

/// Draining the pending requests `p` answers each of them exactly once
/// (as a multiset of (id, channel)), gives nothing exactly when nothing was
/// pending, and every source of every drained operation is one of the
/// pending requests, with its channel and its length. (`drain_merged`
/// leaves the engine empty, so a second drain right after gives nothing.)
pub proof fn lemma_drain_answers_each_once(p: Seq<TaggedRequest>)
    ensures
        answered(drain_plan(p)) == ids_of(p),
        drain_plan(p).len() == 0 <==> p.len() == 0,
        drain_plan(Seq::<TaggedRequest>::empty()).len() == 0,
        forall|k: int, j: int|
            0 <= k < drain_plan(p).len() && 0 <= j < drain_plan(p)[k].sources.len() ==> exists|
                w: int,
            |
                0 <= w < p.len() && source_of(
                    #[trigger] drain_plan(p)[k].sources[j],
                    drain_plan(p)[k].channel_idx,
                    p[w],
                ),
{
    broadcast use vstd::seq_lib::group_filter_ensures;

    lemma_drain_answers_all(p);
    lemma_drain_empty_iff(p);
    lemma_drain_empty_iff(Seq::<TaggedRequest>::empty());
    let d = drain_plan(p);
    let fo = p.filter(others_pred());
    let fr = p.filter(reads_pred());
    let fw = p.filter(writes_pred());
    let o = fo.map_values(|t: TaggedRequest| single_op(t));
    let mr = merged(fr);
    let mw = merged(fw);
    assert(d == o + mr + mw);
    lemma_merged_sources_faithful(fr);
    lemma_merged_sources_faithful(fw);
    assert forall|k: int, j: int|
        0 <= k < d.len() && 0 <= j < d[k].sources.len() implies exists|w: int|
            0 <= w < p.len() && source_of(#[trigger] d[k].sources[j], d[k].channel_idx, p[w]) by {
        if k < o.len() {
            let t = fo[k];
            assert(d[k] == single_op(t));
            assert(d[k].sources[j] == (t.req.id, 0u32, t.req.len));
            assert(fo.contains(t));
            p.lemma_filter_contains_rev(others_pred(), t);
            let w = choose|w: int| 0 <= w < p.len() && p[w] == t;
            assert(source_of(d[k].sources[j], d[k].channel_idx, p[w]));
        } else if k < o.len() + mr.len() {
            let k2 = k - o.len();
            assert(d[k] == mr[k2]);
            let w2 = choose|w: int| 0 <= w < fr.len() && stands_for(mr[k2], mr[k2].sources[j], fr[w]);
            let t = fr[w2];
            assert(fr.contains(t));
            p.lemma_filter_contains_rev(reads_pred(), t);
            let w = choose|w: int| 0 <= w < p.len() && p[w] == t;
            assert(source_of(d[k].sources[j], d[k].channel_idx, p[w]));
        } else {
            let k3 = k - o.len() - mr.len();
            assert(d[k] == mw[k3]);
            let w3 = choose|w: int| 0 <= w < fw.len() && stands_for(mw[k3], mw[k3].sources[j], fw[w]);
            let t = fw[w3];
            assert(fw.contains(t));
            p.lemma_filter_contains_rev(writes_pred(), t);
            let w = choose|w: int| 0 <= w < p.len() && p[w] == t;
            assert(source_of(d[k].sources[j], d[k].channel_idx, p[w]));
        }
    }
}

/// Adding a request makes the next drain answer it exactly once more than
/// before, besides all that was pending already, and that drain gives at
/// least one operation.
pub proof fn lemma_add_then_drain(p: Seq<TaggedRequest>, t: TaggedRequest)
    ensures
        answered(drain_plan(p.push(t))) == answered(drain_plan(p)).insert((t.req.id, t.channel_idx)),
        answered(drain_plan(p.push(t))).count((t.req.id, t.channel_idx)) == answered(
            drain_plan(p),
        ).count((t.req.id, t.channel_idx)) + 1,
        drain_plan(p.push(t)).len() > 0,
{
    broadcast use vstd::multiset::group_multiset_axioms;

    lemma_drain_answers_all(p);
    lemma_drain_answers_all(p.push(t));
    lemma_drain_empty_iff(p.push(t));
    assert(p.push(t).drop_last() =~= p);
}

proof fn lemma_runs_first_order(s: Seq<TaggedRequest>)
    requires
        sorted_by_key(s),
    ensures
        forall|k1: int, k2: int|
            0 <= k1 < k2 < runs(s).len() ==> key_le(
                #[trigger] runs(s)[k1].first,
                #[trigger] runs(s)[k2].first,
            ),
        ends_fit(s) ==> forall|k1: int, k2: int|
            0 <= k1 < k2 < runs(s).len() ==> key_lt(
                #[trigger] runs(s)[k1].first,
                #[trigger] runs(s)[k2].first,
            ),
    decreases s.len(),
{
    if s.len() > 0 {
        let t = s.drop_last();
        let x = s.last();
        assert(sorted_by_key(t));
        lemma_runs_first_order(t);
        lemma_runs_first(t);
        let prev = runs(t);
        assert(x == s[s.len() - 1]);
        if ends_fit(s) {
            assert(ends_fit(t)) by {
                assert forall|w: int| 0 <= w < t.len() implies #[trigger] t[w].req.offset
                    + t[w].req.len <= u64::MAX by {
                    assert(s[w] == t[w]);
                }
            }
            lemma_runs_cover(t);
        }
        if prev.len() > 0 && joins(prev.last(), x) {
            let e = extend_run(prev.last(), x);
            assert(runs(s) == prev.drop_last().push(e));
            assert forall|k: int| 0 <= k < runs(s).len() implies (#[trigger] runs(s)[k]).first
                == prev[k].first by {
                if k < prev.len() - 1 {
                    assert(runs(s)[k] == prev[k]);
                }
            }
        } else {
            let st = start_run(x);
            assert(runs(s) == prev.push(st));
            assert forall|k: int| 0 <= k < prev.len() implies key_le(
                #[trigger] prev[k].first,
                x,
            ) by {
                assert(t.contains(prev[k].first));
                let w = choose|w: int| 0 <= w < t.len() && t[w] == prev[k].first;
                assert(s[w] == t[w]);
                assert(key_le(s[w], s[s.len() - 1]));
            }
            if ends_fit(s) && prev.len() > 0 {
                let l = prev.len() - 1;
                assert(prev.last() == prev[l]);
                assert(prev[l].first.req.offset <= prev[l].end);
                assert(key_lt(prev[l].first, x));
                assert forall|k: int| 0 <= k < prev.len() implies key_lt(
                    #[trigger] prev[k].first,
                    x,
                ) by {
                    if k < l {
                        assert(key_lt(prev[k].first, prev[l].first));
                    }
                }
            }
            assert forall|k: int| 0 <= k < prev.len() implies (#[trigger] runs(s)[k]) == prev[k] by {
            }
        }
    }
}

/// Merged operations come in increasing channel order, and within one
/// channel in increasing (fd, offset) order: two operations on the same
/// channel and fd never start at decreasing offsets, and never at the same
/// offset when no request's end passes 2^64.
pub proof fn lemma_merged_in_order(ops: Seq<TaggedRequest>)
    ensures
        forall|i: int, j: int|
            0 <= i < j < merged(ops).len() ==> {
                let a = #[trigger] merged(ops)[i];
                let b = #[trigger] merged(ops)[j];
                ||| a.channel_idx < b.channel_idx
                ||| a.channel_idx == b.channel_idx && a.req.fd < b.req.fd
                ||| a.channel_idx == b.channel_idx && a.req.fd == b.req.fd && a.req.offset
                    <= b.req.offset
            },
        ends_fit(ops) ==> forall|i: int, j: int|
            0 <= i < j < merged(ops).len() ==> {
                let a = #[trigger] merged(ops)[i];
                let b = #[trigger] merged(ops)[j];
                ||| a.channel_idx < b.channel_idx
                ||| a.channel_idx == b.channel_idx && a.req.fd < b.req.fd
                ||| a.channel_idx == b.channel_idx && a.req.fd == b.req.fd && a.req.offset
                    < b.req.offset
            },
{
    let s = sort_by_key(ops);
    lemma_sort_sorted(ops);
    if ends_fit(ops) {
        assert(ends_fit(s)) by {
            assert forall|w: int| 0 <= w < s.len() implies #[trigger] s[w].req.offset + s[w].req.len
                <= u64::MAX by {
                lemma_sort_elements(ops, w);
                let v = choose|v: int| 0 <= v < ops.len() && ops[v] == s[w];
            }
        }
    }
    lemma_runs_first_order(s);
    assert forall|i: int| 0 <= i < merged(ops).len() implies (#[trigger] merged(ops)[i]) == run_op(
        runs(s)[i],
    ) by {}
}

/// Run `k` of `b` extends run `k` of `a`: same first request, and `a`'s
/// sources are the first of `b`'s.
pub open spec fn run_extends(a: Run, b: Run) -> bool {
    &&& b.first == a.first
    &&& a.sources.len() <= b.sources.len()
    &&& forall|j: int| 0 <= j < a.sources.len() ==> #[trigger] b.sources[j] == a.sources[j]
}

/// The runs of a longer prefix extend those of a shorter one.
pub open spec fn runs_extend(a: Seq<Run>, b: Seq<Run>) -> bool {
    &&& a.len() <= b.len()
    &&& forall|k: int| 0 <= k < a.len() ==> run_extends(#[trigger] a[k], b[k])
}

proof fn lemma_runs_grow_one(s: Seq<TaggedRequest>, m: int)
    requires
        0 <= m < s.len(),
    ensures
        runs_extend(runs(s.take(m)), runs(s.take(m + 1))),
{
    let t = s.take(m + 1);
    assert(t.drop_last() =~= s.take(m));
    let a = runs(s.take(m));
    let b = runs(t);
    if a.len() > 0 && joins(a.last(), t.last()) {
        let e = extend_run(a.last(), t.last());
        assert(b == a.drop_last().push(e));
        assert forall|k: int| 0 <= k < a.len() implies run_extends(#[trigger] a[k], b[k]) by {
            if k < a.len() - 1 {
                assert(b[k] == a[k]);
            } else {
                assert(a[k] == a.last());
            }
        }
    } else {
        assert(b == a.push(start_run(t.last())));
        assert forall|k: int| 0 <= k < a.len() implies run_extends(#[trigger] a[k], b[k]) by {
            assert(b[k] == a[k]);
        }
    }
}

proof fn lemma_runs_grow(s: Seq<TaggedRequest>, m: int, m2: int)
    requires
        0 <= m <= m2 <= s.len(),
    ensures
        runs_extend(runs(s.take(m)), runs(s.take(m2))),
    decreases m2 - m,
{
    if m < m2 {
        lemma_runs_grow(s, m, m2 - 1);
        lemma_runs_grow_one(s, m2 - 1);
        let a = runs(s.take(m));
        let b = runs(s.take(m2 - 1));
        let c = runs(s.take(m2));
        assert forall|k: int| 0 <= k < a.len() implies run_extends(#[trigger] a[k], c[k]) by {
            assert(run_extends(a[k], b[k]));
            assert(run_extends(b[k], c[k]));
            assert forall|j: int| 0 <= j < a[k].sources.len() implies #[trigger] c[k].sources[j]
                == a[k].sources[j] by {
                assert(c[k].sources[j] == b[k].sources[j]);
            }
        }
    } else {
        let a = runs(s.take(m));
        assert forall|k: int| 0 <= k < a.len() implies run_extends(#[trigger] a[k], a[k]) by {}
    }
}

/// After request `w`, the last run holds it as its last source, on its
/// channel and fd, and (with no end past 2^64) reaches at least its end.
proof fn lemma_run_entry(s: Seq<TaggedRequest>, w: int)
    requires
        0 <= w < s.len(),
    ensures
        ({
            let b = runs(s.take(w + 1));
            let l = b.last();
            &&& b.len() > 0
            &&& l.sources.len() > 0
            &&& l.sources.last() == (s[w].req.id, (s[w].req.offset - l.first.req.offset) as u32, s[w].req.len)
            &&& l.first.channel_idx == s[w].channel_idx
            &&& l.first.req.fd == s[w].req.fd
            &&& s[w].req.offset + s[w].req.len <= u64::MAX ==> l.end >= s[w].req.offset
                + s[w].req.len
        }),
{
    let t = s.take(w + 1);
    assert(t.drop_last() =~= s.take(w));
    assert(t.last() == s[w]);
    let a = runs(s.take(w));
    if a.len() > 0 && joins(a.last(), s[w]) {
        let e = extend_run(a.last(), s[w]);
        assert(runs(t) == a.drop_last().push(e));
    } else {
        assert(runs(t) == a.push(start_run(s[w])));
    }
}

/// From request `p` to request `q` of a sorted sequence, on one channel and
/// fd with `q` starting no later than `p` ends, every request joins the run
/// that holds `p`.
proof fn lemma_run_chain(s: Seq<TaggedRequest>, p: int, q: int, m: int)
    requires
        sorted_by_key(s),
        ends_fit(s),
        0 <= p < q < s.len(),
        s[p].channel_idx == s[q].channel_idx,
        s[p].req.fd == s[q].req.fd,
        s[q].req.offset <= s[p].req.offset + s[p].req.len,
        p + 1 <= m <= q + 1,
    ensures
        ({
            let b0 = runs(s.take(p + 1));
            let b = runs(s.take(m));
            &&& b.len() == b0.len()
            &&& b.last().first == b0.last().first
            &&& b.last().end >= s[p].req.offset + s[p].req.len
        }),
    decreases m - (p + 1),
{
    if m == p + 1 {
        lemma_run_entry(s, p);
        assert(s[p].req.offset + s[p].req.len <= u64::MAX);
    } else {
        lemma_run_chain(s, p, q, m - 1);
        lemma_run_entry(s, p);
        let x = s[m - 1];
        assert(key_le(s[p], x));
        if m - 1 < q {
            assert(key_le(x, s[q]));
        }
        assert(x.channel_idx == s[p].channel_idx);
        assert(x.req.fd == s[p].req.fd);
        assert(x.req.offset <= s[q].req.offset);
        let t = s.take(m);
        assert(t.drop_last() =~= s.take(m - 1));
        assert(t.last() == x);
        let a = runs(s.take(m - 1));
        assert(a.len() > 0);
        assert(joins(a.last(), x));
        assert(runs(t) == a.drop_last().push(extend_run(a.last(), x)));
    }
}

/// The source entry of request `t` in an operation starting at `start`.
pub open spec fn entry_of(t: TaggedRequest, start: u64) -> (u64, u32, u32) {
    (t.req.id, (t.req.offset - start) as u32, t.req.len)
}

proof fn lemma_touching_sorted(s: Seq<TaggedRequest>, p: int, q: int) -> (kj: (int, int, int))
    requires
        sorted_by_key(s),
        ends_fit(s),
        0 <= p < q < s.len(),
        s[p].channel_idx == s[q].channel_idx,
        s[p].req.fd == s[q].req.fd,
        s[q].req.offset <= s[p].req.offset + s[p].req.len,
    ensures
        ({
            let (k, jp, jq) = kj;
            let r = runs(s)[k];
            &&& 0 <= k < runs(s).len()
            &&& 0 <= jp < jq < r.sources.len()
            &&& r.first.channel_idx == s[p].channel_idx
            &&& r.first.req.fd == s[p].req.fd
            &&& r.sources[jp] == entry_of(s[p], r.first.req.offset)
            &&& r.sources[jq] == entry_of(s[q], r.first.req.offset)
        }),
{
    lemma_run_chain(s, p, q, q + 1);
    lemma_run_entry(s, p);
    lemma_run_entry(s, q);
    let n = s.len() as int;
    let bp = runs(s.take(p + 1));
    let bq = runs(s.take(q + 1));
    let k = bp.len() - 1;
    assert(bq.len() == bp.len());
    lemma_runs_grow(s, q + 1, n);
    assert(s.take(n) =~= s);
    let jp = bp[k].sources.len() - 1;
    let jq = bq[k].sources.len() - 1;
    assert(bp.last() == bp[k]);
    assert(bq.last() == bq[k]);
    let c = runs(s.take(q));
    lemma_runs_grow(s, p + 1, q);
    lemma_run_chain(s, p, q, q);
    let t = s.take(q + 1);
    assert(t.drop_last() =~= s.take(q));
    assert(t.last() == s[q]);
    assert(c.len() == bp.len());
    assert(c.last().end >= s[p].req.offset + s[p].req.len);
    assert(key_le(s[p], s[q]));
    assert(joins(c.last(), s[q]));
    assert(bq == c.drop_last().push(extend_run(c.last(), s[q])));
    assert(c[k] == c.last());
    assert(run_extends(bp[k], c[k]));
    assert(bq[k].sources == c[k].sources.push(bq[k].sources.last()));
    assert(bq[k].sources[jp] == bp[k].sources[jp]);
    let r = runs(s)[k];
    assert(run_extends(bq[k], r));
    assert(r.sources[jp] == bq[k].sources[jp]);
    assert(r.sources[jq] == bq[k].sources[jq]);
    (k, jp, jq)
}

/// Requests on one channel and fd whose byte ranges touch or overlap are
/// merged: given two requests with different ids, on the same channel and
/// fd, the second starting no earlier than the first and no later than
/// where the first ends, some merged operation on that channel and fd has
/// both among its sources, each at its offset from the operation's start
/// and with its own length, whatever else is pending (no request's end
/// passing 2^64).
pub proof fn lemma_touching_requests_merge(ops: Seq<TaggedRequest>, i1: int, i2: int)
    requires
        ends_fit(ops),
        0 <= i1 < ops.len(),
        0 <= i2 < ops.len(),
        ops[i1].req.id != ops[i2].req.id,
        ops[i1].channel_idx == ops[i2].channel_idx,
        ops[i1].req.fd == ops[i2].req.fd,
        ops[i1].req.offset <= ops[i2].req.offset <= ops[i1].req.offset + ops[i1].req.len,
    ensures
        exists|k: int, j1: int, j2: int|
            #![trigger merged(ops)[k].sources[j1], merged(ops)[k].sources[j2]]
            {
                &&& 0 <= k < merged(ops).len()
                &&& merged(ops)[k].channel_idx == ops[i1].channel_idx
                &&& merged(ops)[k].req.fd == ops[i1].req.fd
                &&& 0 <= j1 < merged(ops)[k].sources.len()
                &&& 0 <= j2 < merged(ops)[k].sources.len()
                &&& j1 != j2
                &&& merged(ops)[k].sources[j1] == (
                    ops[i1].req.id,
                    (ops[i1].req.offset - merged(ops)[k].req.offset) as u32,
                    ops[i1].req.len,
                )
                &&& merged(ops)[k].sources[j2] == (
                    ops[i2].req.id,
                    (ops[i2].req.offset - merged(ops)[k].req.offset) as u32,
                    ops[i2].req.len,
                )
            },
{
    let s = sort_by_key(ops);
    let a = ops[i1];
    let b = ops[i2];
    lemma_sort_sorted(ops);
    let (wa, wb) = lemma_positions_in_sort(ops, i1, i2);
    assert(ends_fit(s)) by {
        assert forall|w: int| 0 <= w < s.len() implies #[trigger] s[w].req.offset + s[w].req.len
            <= u64::MAX by {
            lemma_sort_elements(ops, w);
            let v = choose|v: int| 0 <= v < ops.len() && ops[v] == s[w];
        }
    }
    let (k, j1, j2) = if wa < wb {
        let (k, jp, jq) = lemma_touching_sorted(s, wa, wb);
        (k, jp, jq)
    } else {
        assert(key_le(s[wb], s[wa]));
        let (k, jp, jq) = lemma_touching_sorted(s, wb, wa);
        (k, jq, jp)
    };
    let r = runs(s)[k];
    assert(merged(ops)[k] == run_op(r));
    assert(merged(ops)[k].sources[j1] == (
        ops[i1].req.id,
        (ops[i1].req.offset - merged(ops)[k].req.offset) as u32,
        ops[i1].req.len,
    ));
    assert(merged(ops)[k].sources[j2] == (
        ops[i2].req.id,
        (ops[i2].req.offset - merged(ops)[k].req.offset) as u32,
        ops[i2].req.len,
    ));
}

/// Two requests with different ids sit at different places of the sorted
/// sequence.
proof fn lemma_positions_in_sort(ops: Seq<TaggedRequest>, i1: int, i2: int) -> (w: (int, int))
    requires
        0 <= i1 < ops.len(),
        0 <= i2 < ops.len(),
        ops[i1].req.id != ops[i2].req.id,
    ensures
        0 <= w.0 < sort_by_key(ops).len(),
        0 <= w.1 < sort_by_key(ops).len(),
        w.0 != w.1,
        sort_by_key(ops)[w.0] == ops[i1],
        sort_by_key(ops)[w.1] == ops[i2],
{
    broadcast use vstd::seq_lib::group_to_multiset_ensures;

    let s = sort_by_key(ops);
    lemma_sort_is_permutation(ops);
    let a = ops[i1];
    let b = ops[i2];
    assert(ops.contains(a));
    assert(ops.contains(b));
    vstd::seq_lib::to_multiset_contains(ops, a);
    vstd::seq_lib::to_multiset_contains(ops, b);
    assert(s.to_multiset().count(a) > 0);
    assert(s.to_multiset().count(b) > 0);
    assert(s.contains(a));
    assert(s.contains(b));
    let wa = choose|w: int| 0 <= w < s.len() && s[w] == a;
    let wb = choose|w: int| 0 <= w < s.len() && s[w] == b;
    (wa, wb)
}

} // verus!
