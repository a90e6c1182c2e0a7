//! Pluggable request pipeline between polling and execution.
//!
//! The service hands each incoming `IoRequest` to a `Pipeline`, then drains
//! `MergedOp`s back out for execution. Implementations may reorder, merge or
//! delay requests, but every request they drain is answered through exactly
//! one source entry of one drained operation.
//!
//! - [`PassThrough`] (the default): FIFO, no merging, no prioritisation.
//! - [`Batched`]: coalesces adjacent reads/writes via [`BatchEngine`] and
//!   drains in priority order via [`Scheduler`].
use crate::batch::{
    answered, drain_plan, ids_of, lemma_answered_concat, lemma_ids_of_len, lemma_drain_answers_all,
    lemma_drain_well_sourced, merged_views, single_op, well_sourced, BatchEngine, MergedOp,
    MergedView, TaggedRequest,
};
use crate::protocol::{IoPriority, IoRequest};
use crate::scheduler::{class_of, in_class, Scheduler};
use std::collections::VecDeque;
use vstd::multiset::Multiset;
use vstd::prelude::*;

verus! {

broadcast use vstd::std_specs::vecdeque::group_vec_dequeue_axioms;

pub trait Pipeline {
    /// (id, channel) of the requests added and not yet drained, with
    /// multiplicity.
    spec fn pending_ids(&self) -> Multiset<(u64, usize)>;

    fn add(&mut self, req: IoRequest, channel_idx: usize)
        ensures
            final(self).pending_ids() == old(self).pending_ids().insert((req.id, channel_idx)),
            final(self).drains_all() == old(self).drains_all(),
    ;

    fn is_empty(&self) -> (r: bool)
        ensures
            r == (self.pending_ids().len() == 0),
    ;

    /// The pipeline hands out everything pending at each drain (it delays
    /// nothing).
    spec fn drains_all(&self) -> bool;

    /// The operations the next drain hands out, in order.
    spec fn drained(&self) -> Seq<MergedView>;

    /// Remove all ready ops for execution: what is drained and what stays
    /// pending together make up what was pending, and an op that is neither
    /// a read nor a write has its own request as its only source. A
    /// pipeline that drains all leaves nothing pending.
    fn drain(&mut self) -> (r: Vec<MergedOp>)
        ensures
            merged_views(r@) == old(self).drained(),
            answered(merged_views(r@)).add(final(self).pending_ids()) == old(self).pending_ids(),
            old(self).drains_all() ==> final(self).pending_ids().len() == 0,
            final(self).drains_all() == old(self).drains_all(),
            forall|k: int|
                0 <= k < r@.len() ==> well_sourced(#[trigger] merged_views(r@)[k]),
    ;
}

/// FIFO passthrough with no batching or prioritisation. Each request
/// becomes a single-source `MergedOp`.
pub struct PassThrough {
    pending: VecDeque<TaggedRequest>,
}

impl View for PassThrough {
    type V = Seq<TaggedRequest>;

    closed spec fn view(&self) -> Seq<TaggedRequest> {
        self.pending@
    }
}

impl PassThrough {
    pub fn new() -> (r: Self)
        ensures
            r@ == Seq::<TaggedRequest>::empty(),
            r.pending_ids() == Multiset::<(u64, usize)>::empty(),
    {
        PassThrough { pending: VecDeque::with_capacity(256) }
    }
}

impl Default for PassThrough {
    fn default() -> (r: Self)
        ensures
            r@ == Seq::<TaggedRequest>::empty(),
    {
        Self::new()
    }
}

impl Pipeline for PassThrough {
    open spec fn pending_ids(&self) -> Multiset<(u64, usize)> {
        ids_of(self@)
    }

    open spec fn drains_all(&self) -> bool {
        true
    }

    open spec fn drained(&self) -> Seq<MergedView> {
        self@.map_values(|t: TaggedRequest| single_op(t))
    }

    fn add(&mut self, req: IoRequest, channel_idx: usize)
        ensures
            final(self)@ == old(self)@.push(TaggedRequest { req, channel_idx }),
    {
        let ghost before = self.pending@;
        self.pending.push_back(TaggedRequest { req, channel_idx });
        assert(self.pending@.drop_last() =~= before);
    }

    fn is_empty(&self) -> (r: bool) {
        proof {
            lemma_ids_of_len(self.pending@);
        }
        self.pending.len() == 0
    }

    /// Every pending request, in order of arrival, as its own operation.
    fn drain(&mut self) -> (r: Vec<MergedOp>)
        ensures
            merged_views(r@) == old(self)@.map_values(|t: TaggedRequest| single_op(t)),
            final(self)@ == Seq::<TaggedRequest>::empty(),
            final(self).pending_ids() == Multiset::<(u64, usize)>::empty(),
    {
        let ghost p = self.pending@;
        let mut out: Vec<MergedOp> = Vec::with_capacity(self.pending.len());
        let mut done = false;
        while !done
            invariant
                out@.len() <= p.len(),
                self.pending@ == p.skip(out@.len() as int),
                merged_views(out@) == p.take(out@.len() as int).map_values(
                    |t: TaggedRequest| single_op(t),
                ),
                done ==> out@.len() == p.len(),
            decreases p.len() - out@.len(), (if done { 0int } else { 1int }),
        {
            match self.pending.pop_front() {
                Some(tr) => {
                    let ghost n = out@.len() as int;
                    let ghost before = out@;
                    out.push(
                        MergedOp {
                            req: tr.req,
                            channel_idx: tr.channel_idx,
                            sources: vec![(tr.req.id, 0u32, tr.req.len)],
                        },
                    );
                    proof {
                        assert(tr == p[n]);
                        assert(out@.last()@.sources =~= single_op(tr).sources);
                        assert(out@.last()@ == single_op(tr));
                        assert(merged_views(out@) =~= merged_views(before).push(single_op(tr)));
                        assert(p.take(n + 1) =~= p.take(n).push(tr));
                        assert(merged_views(out@) =~= p.take(n + 1).map_values(
                            |t: TaggedRequest| single_op(t),
                        ));
                        assert(self.pending@ =~= p.skip(n + 1));
                    }
                },
                None => {
                    done = true;
                },
            }
        }
        proof {
            assert(p.take(p.len() as int) =~= p);
            lemma_singles_answer_all(p);
            assert forall|k: int| 0 <= k < out@.len() implies well_sourced(
                #[trigger] merged_views(out@)[k],
            ) by {
                assert(merged_views(out@)[k] == single_op(p[k]));
            }
            assert(self.pending@ =~= Seq::<TaggedRequest>::empty());
            assert(ids_of(self.pending@) =~= Multiset::empty());
            assert(answered(merged_views(out@)).add(ids_of(self.pending@)) =~= answered(
                merged_views(out@),
            ));
        }
        out
    }
}

proof fn lemma_singles_answer_all(s: Seq<TaggedRequest>)
    ensures
        answered(s.map_values(|t: TaggedRequest| single_op(t))) == ids_of(s),
{
    crate::batch::lemma_singles_answer(s);
}

/// The class of an operation, read from its value.
pub open spec fn view_class(m: MergedView) -> IoPriority {
    match crate::protocol::priority_of_code(m.req.priority) {
        Some(IoPriority::Critical) => IoPriority::Critical,
        Some(IoPriority::High) => IoPriority::High,
        _ => IoPriority::Low,
    }
}

pub open spec fn view_in_class(p: IoPriority) -> spec_fn(MergedView) -> bool {
    |m: MergedView| view_class(m) == p
}

/// Operations in drain order of the scheduler: Critical, then High, then
/// Low, each class in its original order.
pub open spec fn by_priority(d: Seq<MergedView>) -> Seq<MergedView> {
    d.filter(view_in_class(IoPriority::Critical)) + d.filter(view_in_class(IoPriority::High))
        + d.filter(view_in_class(IoPriority::Low))
}

proof fn lemma_filter_all(s: Seq<MergedView>, p: spec_fn(MergedView) -> bool)
    requires
        forall|i: int| 0 <= i < s.len() ==> p(#[trigger] s[i]),
    ensures
        s.filter(p) == s,
    decreases s.len(),
{
    if s.len() > 0 {
        lemma_filter_all(s.drop_last(), p);
        assert(s =~= s.drop_last().push(s.last()));
        s.drop_last().lemma_filter_push(s.last(), p);
    } else {
        assert(s.filter(p) =~= s);
    }
}

proof fn lemma_filter_none(s: Seq<MergedView>, p: spec_fn(MergedView) -> bool)
    requires
        forall|i: int| 0 <= i < s.len() ==> !p(#[trigger] s[i]),
    ensures
        s.filter(p) == Seq::<MergedView>::empty(),
    decreases s.len(),
{
    if s.len() > 0 {
        lemma_filter_none(s.drop_last(), p);
        assert(s =~= s.drop_last().push(s.last()));
        s.drop_last().lemma_filter_push(s.last(), p);
    } else {
        assert(s.filter(p) =~= Seq::<MergedView>::empty());
    }
}

/// Priority order of what the batched pipeline drains, read from the
/// priority codes: an operation with code 2 never follows one with another
/// code, and one with code 1 never follows one with a code other than 1
/// and 2; within each code class the operations keep their order.
pub proof fn lemma_by_priority_order(d: Seq<MergedView>)
    ensures
        forall|i: int, j: int|
            0 <= i < j < by_priority(d).len() ==> {
                let a = (#[trigger] by_priority(d)[i]).req.priority;
                let b = (#[trigger] by_priority(d)[j]).req.priority;
                a == 2 || (b != 2 && (a == 1 || b != 1))
            },
        by_priority(d).filter(|m: MergedView| m.req.priority == 2) == d.filter(
            |m: MergedView| m.req.priority == 2,
        ),
        by_priority(d).filter(|m: MergedView| m.req.priority == 1) == d.filter(
            |m: MergedView| m.req.priority == 1,
        ),
        by_priority(d).filter(|m: MergedView| m.req.priority != 1 && m.req.priority != 2)
            == d.filter(|m: MergedView| m.req.priority != 1 && m.req.priority != 2),
        by_priority(d).len() == d.len(),
{
    broadcast use vstd::seq_lib::group_filter_ensures;

    let pc = view_in_class(IoPriority::Critical);
    let ph = view_in_class(IoPriority::High);
    let pl = view_in_class(IoPriority::Low);
    let p2 = |m: MergedView| m.req.priority == 2;
    let p1 = |m: MergedView| m.req.priority == 1;
    let p0 = |m: MergedView| m.req.priority != 1 && m.req.priority != 2;
    assert(p2 =~= pc);
    assert(p1 =~= ph);
    assert(p0 =~= pl);
    let c = d.filter(pc);
    let h = d.filter(ph);
    let l = d.filter(pl);
    let b = by_priority(d);
    assert(b == c + h + l);
    assert forall|i: int| 0 <= i < c.len() implies (#[trigger] c[i]).req.priority == 2 by {
        assert(pc(c[i]));
    }
    assert forall|i: int| 0 <= i < h.len() implies (#[trigger] h[i]).req.priority == 1 by {
        assert(ph(h[i]));
    }
    assert forall|i: int| 0 <= i < l.len() implies (#[trigger] l[i]).req.priority != 1
        && l[i].req.priority != 2 by {
        assert(pl(l[i]));
    }
    assert forall|i: int, j: int| 0 <= i < j < b.len() implies {
        let x = (#[trigger] b[i]).req.priority;
        let y = (#[trigger] b[j]).req.priority;
        x == 2 || (y != 2 && (x == 1 || y != 1))
    } by {
        if i < c.len() {
            assert(b[i] == c[i]);
        } else if i < c.len() + h.len() {
            assert(b[i] == h[i - c.len()]);
            assert(b[j] == if j < c.len() + h.len() {
                h[j - c.len()]
            } else {
                l[j - c.len() - h.len()]
            });
        } else {
            assert(b[i] == l[i - c.len() - h.len()]);
            assert(b[j] == l[j - c.len() - h.len()]);
        }
    }
    lemma_filter_all(c, p2);
    lemma_filter_none(h, p2);
    lemma_filter_none(l, p2);
    lemma_filter_none(c, p1);
    lemma_filter_all(h, p1);
    lemma_filter_none(l, p1);
    lemma_filter_none(c, p0);
    lemma_filter_none(h, p0);
    lemma_filter_all(l, p0);
    assert(b.filter(p2) =~= c.filter(p2) + h.filter(p2) + l.filter(p2));
    assert(b.filter(p1) =~= c.filter(p1) + h.filter(p1) + l.filter(p1));
    assert(b.filter(p0) =~= c.filter(p0) + h.filter(p0) + l.filter(p0));
    lemma_class_partition_views(d);
}

proof fn lemma_class_partition_views(d: Seq<MergedView>)
    ensures
        d.filter(view_in_class(IoPriority::Critical)).len() + d.filter(
            view_in_class(IoPriority::High),
        ).len() + d.filter(view_in_class(IoPriority::Low)).len() == d.len(),
    decreases d.len(),
{
    if d.len() > 0 {
        let t = d.drop_last();
        let x = d.last();
        lemma_class_partition_views(t);
        assert(d =~= t.push(x));
        t.lemma_filter_push(x, view_in_class(IoPriority::Critical));
        t.lemma_filter_push(x, view_in_class(IoPriority::High));
        t.lemma_filter_push(x, view_in_class(IoPriority::Low));
    } else {
        assert(d.filter(view_in_class(IoPriority::Critical)) =~= d);
        assert(d.filter(view_in_class(IoPriority::High)) =~= d);
        assert(d.filter(view_in_class(IoPriority::Low)) =~= d);
    }
}

/// Coalesce adjacent I/Os (via `BatchEngine`) and drain in priority
/// order (via `Scheduler`).
pub struct Batched {
    batch: BatchEngine,
    scheduler: Scheduler,
}

impl View for Batched {
    type V = Seq<TaggedRequest>;

    closed spec fn view(&self) -> Seq<TaggedRequest> {
        self.batch@
    }
}

impl Batched {
    #[verifier::type_invariant]
    spec fn inv(self) -> bool {
        self.scheduler@.total() == 0
    }

    pub fn new() -> (r: Self)
        ensures
            r@ == Seq::<TaggedRequest>::empty(),
            r.pending_ids() == Multiset::<(u64, usize)>::empty(),
    {
        Batched { batch: BatchEngine::new(), scheduler: Scheduler::new() }
    }
}

impl Default for Batched {
    fn default() -> (r: Self)
        ensures
            r@ == Seq::<TaggedRequest>::empty(),
    {
        Self::new()
    }
}

proof fn lemma_filter_views(ops: Seq<MergedOp>, c: IoPriority)
    ensures
        merged_views(ops.filter(in_class(c))) == merged_views(ops).filter(view_in_class(c)),
    decreases ops.len(),
{
    if ops.len() > 0 {
        let t = ops.drop_last();
        let x = ops.last();
        lemma_filter_views(t, c);
        assert(ops =~= t.push(x));
        t.lemma_filter_push(x, in_class(c));
        assert(merged_views(ops) =~= merged_views(t).push(x@));
        merged_views(t).lemma_filter_push(x@, view_in_class(c));
        assert(view_class(x@) == class_of(x));
        assert(merged_views(t.filter(in_class(c)).push(x)) =~= merged_views(t.filter(in_class(c))).push(x@));
    } else {
        assert(ops.filter(in_class(c)) =~= ops);
        assert(merged_views(ops) =~= Seq::<MergedView>::empty());
        assert(merged_views(ops).filter(view_in_class(c)) =~= Seq::<MergedView>::empty());
    }
}

proof fn lemma_class_partition_len(ops: Seq<MergedOp>)
    ensures
        ops.filter(in_class(IoPriority::Critical)).len() + ops.filter(in_class(IoPriority::High)).len()
            + ops.filter(in_class(IoPriority::Low)).len() == ops.len(),
    decreases ops.len(),
{
    if ops.len() > 0 {
        let t = ops.drop_last();
        let x = ops.last();
        lemma_class_partition_len(t);
        assert(ops =~= t.push(x));
        t.lemma_filter_push(x, in_class(IoPriority::Critical));
        t.lemma_filter_push(x, in_class(IoPriority::High));
        t.lemma_filter_push(x, in_class(IoPriority::Low));
    } else {
        assert(ops.filter(in_class(IoPriority::Critical)) =~= ops);
        assert(ops.filter(in_class(IoPriority::High)) =~= ops);
        assert(ops.filter(in_class(IoPriority::Low)) =~= ops);
    }
}

proof fn lemma_answered_partition(d: Seq<MergedView>)
    ensures
        answered(d) == answered(d.filter(view_in_class(IoPriority::Critical))).add(
            answered(d.filter(view_in_class(IoPriority::High))),
        ).add(answered(d.filter(view_in_class(IoPriority::Low)))),
    decreases d.len(),
{
    broadcast use vstd::multiset::group_multiset_axioms;

    let pc = view_in_class(IoPriority::Critical);
    let ph = view_in_class(IoPriority::High);
    let pl = view_in_class(IoPriority::Low);
    if d.len() == 0 {
        assert(d.filter(pc) =~= d);
        assert(d.filter(ph) =~= d);
        assert(d.filter(pl) =~= d);
        assert(answered(d) =~= answered(d).add(answered(d)).add(answered(d)));
    } else {
        let t = d.drop_last();
        let x = d.last();
        lemma_answered_partition(t);
        assert(d =~= t.push(x));
        t.lemma_filter_push(x, pc);
        t.lemma_filter_push(x, ph);
        t.lemma_filter_push(x, pl);
        assert(t.filter(pc).push(x).drop_last() =~= t.filter(pc));
        assert(t.filter(ph).push(x).drop_last() =~= t.filter(ph));
        assert(t.filter(pl).push(x).drop_last() =~= t.filter(pl));
        assert(answered(d) =~= answered(d.filter(pc)).add(answered(d.filter(ph))).add(
            answered(d.filter(pl)),
        ));
    }
}

/// Putting operations in priority order answers the same requests.
pub proof fn lemma_by_priority_answers(d: Seq<MergedView>)
    ensures
        answered(by_priority(d)) == answered(d),
{
    let pc = view_in_class(IoPriority::Critical);
    let ph = view_in_class(IoPriority::High);
    let pl = view_in_class(IoPriority::Low);
    lemma_answered_concat(d.filter(pc) + d.filter(ph), d.filter(pl));
    lemma_answered_concat(d.filter(pc), d.filter(ph));
    lemma_answered_partition(d);
}

impl Pipeline for Batched {
    open spec fn pending_ids(&self) -> Multiset<(u64, usize)> {
        ids_of(self@)
    }

    open spec fn drains_all(&self) -> bool {
        true
    }

    open spec fn drained(&self) -> Seq<MergedView> {
        by_priority(drain_plan(self@))
    }

    fn add(&mut self, req: IoRequest, channel_idx: usize)
        ensures
            final(self)@ == old(self)@.push(TaggedRequest { req, channel_idx }),
    {
        proof {
            use_type_invariant(&*self);
        }
        let ghost before = self.batch@;
        let mut batch = BatchEngine::new();
        std::mem::swap(&mut batch, &mut self.batch);
        batch.add(req, channel_idx);
        self.batch = batch;
        assert(self.batch@.drop_last() =~= before);
    }

    fn is_empty(&self) -> (r: bool) {
        proof {
            use_type_invariant(self);
            lemma_ids_of_len(self.batch@);
        }
        self.batch.is_empty() && self.scheduler.is_empty()
    }

    /// Everything pending, merged, in priority order.
    fn drain(&mut self) -> (r: Vec<MergedOp>)
        ensures
            merged_views(r@) == by_priority(drain_plan(old(self)@)),
            forall|i: int, j: int|
                0 <= i < j < r@.len() ==> {
                    let a = (#[trigger] r@[i]).req.priority;
                    let b = (#[trigger] r@[j]).req.priority;
                    a == 2 || (b != 2 && (a == 1 || b != 1))
                },
            merged_views(r@).filter(|m: MergedView| m.req.priority == 2) == drain_plan(
                old(self)@,
            ).filter(|m: MergedView| m.req.priority == 2),
            merged_views(r@).filter(|m: MergedView| m.req.priority == 1) == drain_plan(
                old(self)@,
            ).filter(|m: MergedView| m.req.priority == 1),
            merged_views(r@).filter(|m: MergedView| m.req.priority != 1 && m.req.priority != 2)
                == drain_plan(old(self)@).filter(
                |m: MergedView| m.req.priority != 1 && m.req.priority != 2,
            ),
            final(self)@ == Seq::<TaggedRequest>::empty(),
            final(self).pending_ids() == Multiset::<(u64, usize)>::empty(),
    {
        proof {
            use_type_invariant(&*self);
        }
        let ghost p = self.batch@;
        let mut sched = Scheduler::new();
        std::mem::swap(&mut sched, &mut self.scheduler);
        let mut batch = BatchEngine::new();
        std::mem::swap(&mut batch, &mut self.batch);
        let ghost mut ops: Seq<MergedOp> = Seq::empty();
        if !batch.is_empty() {
            let merged = batch.drain_merged();
            // the number of merged ops fits in a usize, and so does the queue total
            let count = merged.len();
            proof {
                ops = merged@;
                assert(ops.len() == count);
            }
            sched.enqueue_all(merged);
        } else {
            proof {
                assert(drain_plan(p) =~= Seq::<MergedView>::empty());
            }
        }
        assert(sched@.critical =~= ops.filter(in_class(IoPriority::Critical)));
        assert(sched@.high =~= ops.filter(in_class(IoPriority::High)));
        assert(sched@.low =~= ops.filter(in_class(IoPriority::Low)));
        proof {
            lemma_class_partition_len(ops);
        }
        let n = sched.len();
        let ghost queued = sched@;
        let r = sched.drain(n);
        proof {
            let all = queued.critical + queued.high + queued.low;
            assert(all.take(all.len() as int) =~= all);
            assert(r@ =~= all);
            lemma_filter_views(ops, IoPriority::Critical);
            lemma_filter_views(ops, IoPriority::High);
            lemma_filter_views(ops, IoPriority::Low);
            assert(merged_views(ops) == drain_plan(p));
            assert(merged_views(r@) =~= by_priority(drain_plan(p)));
            lemma_by_priority_answers(drain_plan(p));
            lemma_drain_answers_all(p);
            lemma_drain_well_sourced(p);
            let d = drain_plan(p);
            assert forall|k: int| 0 <= k < r@.len() implies well_sourced(
                #[trigger] merged_views(r@)[k],
            ) by {
                let x = merged_views(r@)[k];
                let c = d.filter(view_in_class(IoPriority::Critical));
                let h = d.filter(view_in_class(IoPriority::High));
                let l = d.filter(view_in_class(IoPriority::Low));
                broadcast use vstd::seq_lib::group_filter_ensures;

                let q = if k < c.len() {
                    c[k]
                } else if k < c.len() + h.len() {
                    h[k - c.len()]
                } else {
                    l[k - c.len() - h.len()]
                };
                assert(x == q);
                if k < c.len() {
                    assert(c.contains(q));
                    d.lemma_filter_contains_rev(view_in_class(IoPriority::Critical), q);
                } else if k < c.len() + h.len() {
                    assert(h.contains(q));
                    d.lemma_filter_contains_rev(view_in_class(IoPriority::High), q);
                } else {
                    assert(l.contains(q));
                    d.lemma_filter_contains_rev(view_in_class(IoPriority::Low), q);
                }
                assert(d.contains(q));
            }
            assert(ids_of(self.batch@) =~= Multiset::empty());
            assert(answered(merged_views(r@)).add(ids_of(self.batch@)) =~= answered(
                merged_views(r@),
            ));
            lemma_by_priority_order(d);
            assert forall|i: int, j: int| 0 <= i < j < r@.len() implies {
                let a = (#[trigger] r@[i]).req.priority;
                let b = (#[trigger] r@[j]).req.priority;
                a == 2 || (b != 2 && (a == 1 || b != 1))
            } by {
                assert(merged_views(r@)[i].req == r@[i].req);
                assert(merged_views(r@)[j].req == r@[j].req);
            }
        }
        r
    }
}

} // verus!
