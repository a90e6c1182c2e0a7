//! Priority queues: operations drain strictly Critical > High > Low, in
//! order of arrival within each class.
use crate::batch::MergedOp;
use crate::protocol::{priority_code, priority_of_code, IoPriority};
use std::collections::VecDeque;
use vstd::prelude::*;

verus! {

broadcast use vstd::std_specs::vecdeque::group_vec_dequeue_axioms;

/// The queue an operation belongs to: Critical, High, or Low for every
/// other priority code.
pub open spec fn class_of(op: MergedOp) -> IoPriority {
    match priority_of_code(op.req.priority) {
        Some(IoPriority::Critical) => IoPriority::Critical,
        Some(IoPriority::High) => IoPriority::High,
        _ => IoPriority::Low,
    }
}

pub open spec fn in_class(p: IoPriority) -> spec_fn(MergedOp) -> bool {
    |op: MergedOp| class_of(op) == p
}

/// The contents of the three queues, each in order of arrival.
#[verifier::ext_equal]
pub struct Queues {
    pub critical: Seq<MergedOp>,
    pub high: Seq<MergedOp>,
    pub low: Seq<MergedOp>,
}

impl Queues {
    pub open spec fn total(self) -> nat {
        self.critical.len() + self.high.len() + self.low.len()
    }

    /// All queued operations in drain order.
    pub open spec fn in_order(self) -> Seq<MergedOp> {
        self.critical + self.high + self.low
    }

    pub open spec fn enqueue(self, op: MergedOp) -> Queues {
        match class_of(op) {
            IoPriority::Critical => Queues { critical: self.critical.push(op), ..self },
            IoPriority::High => Queues { high: self.high.push(op), ..self },
            IoPriority::Low => Queues { low: self.low.push(op), ..self },
        }
    }

    /// The queues after the first `n` operations in drain order left.
    pub open spec fn after_drain(self, n: int) -> Queues {
        let k1 = if n < self.critical.len() {
            n
        } else {
            self.critical.len() as int
        };
        let k2 = if n - k1 < self.high.len() {
            n - k1
        } else {
            self.high.len() as int
        };
        let k3 = if n - k1 - k2 < self.low.len() {
            n - k1 - k2
        } else {
            self.low.len() as int
        };
        Queues {
            critical: self.critical.skip(k1),
            high: self.high.skip(k2),
            low: self.low.skip(k3),
        }
    }
}

/// The queue an operation joins depends on its priority code alone: 2 is
/// Critical, 1 is High, any other code Low, whatever the operation is.
pub proof fn lemma_class_by_code(op: MergedOp)
    ensures
        op.req.priority == 2 ==> class_of(op) == IoPriority::Critical,
        op.req.priority == 1 ==> class_of(op) == IoPriority::High,
        op.req.priority != 1 && op.req.priority != 2 ==> class_of(op) == IoPriority::Low,
{
}

/// Each queue holds only operations of its own class.
pub open spec fn queues_wf(q: Queues) -> bool {
    &&& forall|i: int| 0 <= i < q.critical.len() ==> class_of(#[trigger] q.critical[i]) == IoPriority::Critical
    &&& forall|i: int| 0 <= i < q.high.len() ==> class_of(#[trigger] q.high[i]) == IoPriority::High
    &&& forall|i: int| 0 <= i < q.low.len() ==> class_of(#[trigger] q.low[i]) == IoPriority::Low
}

/// Queueing an operation keeps each queue to its own class.
pub proof fn lemma_enqueue_keeps_classes(q: Queues, op: MergedOp)
    requires
        queues_wf(q),
    ensures
        queues_wf(q.enqueue(op)),
{
}

/// Queueing a whole batch keeps each queue to its own class.
pub proof fn lemma_enqueue_all_keeps_classes(q: Queues, ops: Seq<MergedOp>)
    requires
        queues_wf(q),
    ensures
        queues_wf(
            Queues {
                critical: q.critical + ops.filter(in_class(IoPriority::Critical)),
                high: q.high + ops.filter(in_class(IoPriority::High)),
                low: q.low + ops.filter(in_class(IoPriority::Low)),
            },
        ),
{
    broadcast use vstd::seq_lib::group_filter_ensures;

    let fc = ops.filter(in_class(IoPriority::Critical));
    let fh = ops.filter(in_class(IoPriority::High));
    let fl = ops.filter(in_class(IoPriority::Low));
    assert forall|i: int| 0 <= i < fc.len() implies class_of(#[trigger] fc[i]) == IoPriority::Critical by {
        assert(in_class(IoPriority::Critical)(fc[i]));
    }
    assert forall|i: int| 0 <= i < fh.len() implies class_of(#[trigger] fh[i]) == IoPriority::High by {
        assert(in_class(IoPriority::High)(fh[i]));
    }
    assert forall|i: int| 0 <= i < fl.len() implies class_of(#[trigger] fl[i]) == IoPriority::Low by {
        assert(in_class(IoPriority::Low)(fl[i]));
    }
    let c = q.critical + fc;
    let h = q.high + fh;
    let l = q.low + fl;
    assert forall|i: int| 0 <= i < c.len() implies class_of(#[trigger] c[i]) == IoPriority::Critical by {
        if i >= q.critical.len() {
            assert(c[i] == fc[i - q.critical.len()]);
        }
    }
    assert forall|i: int| 0 <= i < h.len() implies class_of(#[trigger] h[i]) == IoPriority::High by {
        if i >= q.high.len() {
            assert(h[i] == fh[i - q.high.len()]);
        }
    }
    assert forall|i: int| 0 <= i < l.len() implies class_of(#[trigger] l[i]) == IoPriority::Low by {
        if i >= q.low.len() {
            assert(l[i] == fl[i - q.low.len()]);
        }
    }
}

/// Draining never lets an operation of a lower class out before one of a
/// higher class: the drained operations come in non-increasing priority,
/// and what stays queued keeps each queue to its class.
pub proof fn lemma_drain_in_priority_order(q: Queues, n: int)
    requires
        queues_wf(q),
        0 <= n,
    ensures
        ({
            let out = q.in_order().take(if n < q.total() { n } else { q.total() as int });
            forall|i: int, j: int|
                0 <= i < j < out.len() ==> priority_code(class_of(#[trigger] out[i])) >= priority_code(
                    class_of(#[trigger] out[j]),
                )
        }),
        queues_wf(q.after_drain(n)),
{
    let all = q.in_order();
    let c = q.critical.len() as int;
    let h = q.high.len() as int;
    assert forall|i: int| 0 <= i < all.len() implies priority_code(class_of(#[trigger] all[i]))
        == if i < c { 2int } else if i < c + h { 1int } else { 0int } by {
        if i < c {
            assert(all[i] == q.critical[i]);
        } else if i < c + h {
            assert(all[i] == q.high[i - c]);
        } else {
            assert(all[i] == q.low[i - c - h]);
        }
    }
    let a = q.after_drain(n);
    assert forall|i: int| 0 <= i < a.critical.len() implies class_of(#[trigger] a.critical[i])
        == IoPriority::Critical by {
        assert(a.critical[i] == q.critical[i + (q.critical.len() - a.critical.len())]);
    }
    assert forall|i: int| 0 <= i < a.high.len() implies class_of(#[trigger] a.high[i])
        == IoPriority::High by {
        assert(a.high[i] == q.high[i + (q.high.len() - a.high.len())]);
    }
    assert forall|i: int| 0 <= i < a.low.len() implies class_of(#[trigger] a.low[i])
        == IoPriority::Low by {
        assert(a.low[i] == q.low[i + (q.low.len() - a.low.len())]);
    }
}

/// The first `n` operations in drain order (all of them if fewer).
pub open spec fn drained(q: Queues, n: int) -> Seq<MergedOp> {
    q.in_order().take(if n < q.total() { n } else { q.total() as int })
}

/// The queues after enqueueing `ops` one by one, in order.
pub open spec fn enqueue_each(q: Queues, ops: Seq<MergedOp>) -> Queues
    decreases ops.len(),
{
    if ops.len() == 0 {
        q
    } else {
        enqueue_each(q, ops.drop_last()).enqueue(ops.last())
    }
}

/// What stays queued after a drain is the rest of the drain order.
proof fn lemma_after_drain_in_order(q: Queues, n: int)
    requires
        0 <= n,
    ensures
        q.after_drain(n).in_order() == q.in_order().skip(if n < q.total() { n } else { q.total() as int }),
        q.after_drain(n).total() == q.total() - (if n < q.total() { n } else { q.total() as int }),
{
    let a = q.after_drain(n);
    let m = if n < q.total() { n } else { q.total() as int };
    assert(a.in_order() =~= q.in_order().skip(m)) by {
        let c = q.critical.len() as int;
        let h = q.high.len() as int;
        assert forall|i: int| 0 <= i < a.in_order().len() implies a.in_order()[i] == q.in_order().skip(m)[i] by {
            let k1 = c - a.critical.len();
            let k2 = h - a.high.len();
            let k3 = q.low.len() - a.low.len();
            if i < a.critical.len() {
                assert(a.in_order()[i] == q.critical[i + k1]);
                assert(q.in_order()[i + m] == q.critical[i + k1]);
            } else if i < a.critical.len() + a.high.len() {
                assert(a.in_order()[i] == q.high[i - a.critical.len() + k2]);
                assert(q.in_order()[i + m] == q.high[i - a.critical.len() + k2]);
            } else {
                assert(a.in_order()[i] == q.low[i - a.critical.len() - a.high.len() + k3]);
                assert(q.in_order()[i + m] == q.low[i - a.critical.len() - a.high.len() + k3]);
            }
        }
    }
}

/// Draining nothing returns nothing and leaves the queues as they were.
pub proof fn lemma_drain_zero(q: Queues)
    ensures
        drained(q, 0) == Seq::<MergedOp>::empty(),
        q.after_drain(0) == q,
{
    assert(drained(q, 0) =~= Seq::<MergedOp>::empty());
    assert(q.after_drain(0) =~= q);
}

/// Draining `a` then `b` operations gives, in that order, the same
/// operations as draining `a + b` at once, and leaves the same queues.
pub proof fn lemma_drain_twice(q: Queues, a: int, b: int)
    requires
        0 <= a,
        0 <= b,
    ensures
        drained(q, a) + drained(q.after_drain(a), b) == drained(q, a + b),
        q.after_drain(a).after_drain(b) == q.after_drain(a + b),
{
    lemma_after_drain_in_order(q, a);
    let s = q.in_order();
    let ma = if a < q.total() { a } else { q.total() as int };
    let mb = if a + b < q.total() { a + b } else { q.total() as int };
    assert(drained(q.after_drain(a), b) =~= s.skip(ma).take(mb - ma));
    assert(drained(q, a) + drained(q.after_drain(a), b) =~= drained(q, a + b));
    assert(q.after_drain(a).after_drain(b) =~= q.after_drain(a + b));
}

/// Queueing a batch at once is queueing its operations one by one, and adds
/// as many operations as the batch holds.
pub proof fn lemma_enqueue_all_is_each(q: Queues, ops: Seq<MergedOp>)
    ensures
        enqueue_each(q, ops) == (Queues {
            critical: q.critical + ops.filter(in_class(IoPriority::Critical)),
            high: q.high + ops.filter(in_class(IoPriority::High)),
            low: q.low + ops.filter(in_class(IoPriority::Low)),
        }),
        enqueue_each(q, ops).total() == q.total() + ops.len(),
    decreases ops.len(),
{
    if ops.len() == 0 {
        assert(ops.filter(in_class(IoPriority::Critical)) =~= ops);
        assert(ops.filter(in_class(IoPriority::High)) =~= ops);
        assert(ops.filter(in_class(IoPriority::Low)) =~= ops);
        assert(enqueue_each(q, ops) =~= (Queues {
            critical: q.critical + ops.filter(in_class(IoPriority::Critical)),
            high: q.high + ops.filter(in_class(IoPriority::High)),
            low: q.low + ops.filter(in_class(IoPriority::Low)),
        }));
    } else {
        let t = ops.drop_last();
        let x = ops.last();
        lemma_enqueue_all_is_each(q, t);
        assert(ops =~= t.push(x));
        t.lemma_filter_push(x, in_class(IoPriority::Critical));
        t.lemma_filter_push(x, in_class(IoPriority::High));
        t.lemma_filter_push(x, in_class(IoPriority::Low));
        assert(enqueue_each(q, ops) =~= (Queues {
            critical: q.critical + ops.filter(in_class(IoPriority::Critical)),
            high: q.high + ops.filter(in_class(IoPriority::High)),
            low: q.low + ops.filter(in_class(IoPriority::Low)),
        }));
    }
}

pub struct Scheduler {
    critical: VecDeque<MergedOp>,
    high: VecDeque<MergedOp>,
    low: VecDeque<MergedOp>,
}

impl View for Scheduler {
    type V = Queues;

    closed spec fn view(&self) -> Queues {
        Queues { critical: self.critical@, high: self.high@, low: self.low@ }
    }
}

/// Moves operations from the front of `q` to `out` until `out` holds `max`.
fn drain_queue(q: &mut VecDeque<MergedOp>, out: &mut Vec<MergedOp>, max: usize)
    ensures
        ({
            let k = if max - old(out)@.len() < old(q)@.len() {
                if max < old(out)@.len() {
                    0
                } else {
                    max - old(out)@.len()
                }
            } else {
                old(q)@.len() as int
            };
            &&& final(out)@ == old(out)@ + old(q)@.take(k)
            &&& final(q)@ == old(q)@.skip(k)
        }),
{
    let ghost q0 = q@;
    let ghost out0 = out@;
    let mut done = false;
    while !done && out.len() < max
        invariant
            out@.len() >= out0.len(),
            out@ == out0 + q0.take(out@.len() - out0.len()),
            q@ == q0.skip(out@.len() - out0.len()),
            out@.len() - out0.len() <= q0.len(),
            done ==> out@.len() - out0.len() == q0.len(),
            out0.len() <= max ==> out@.len() <= max,
            out0.len() > max ==> out@.len() == out0.len(),
        decreases q0.len() - (out@.len() - out0.len()), (if done { 0int } else { 1int }),
    {
        match q.pop_front() {
            Some(op) => {
                let ghost n = out@.len() - out0.len();
                out.push(op);
                proof {
                    assert(q0.skip(n)[0] == q0[n]);
                    assert(out@ =~= out0 + q0.take(n + 1));
                    assert(q@ =~= q0.skip(n + 1));
                }
            },
            None => {
                done = true;
            },
        }
    }
}

impl Scheduler {
    pub fn new() -> (r: Self)
        ensures
            r@.critical.len() == 0,
            r@.high.len() == 0,
            r@.low.len() == 0,
    {
        Scheduler { critical: VecDeque::new(), high: VecDeque::new(), low: VecDeque::new() }
    }

    pub fn enqueue(&mut self, op: MergedOp)
        ensures
            final(self)@ == old(self)@.enqueue(op),
            op.req.priority == 2 ==> final(self)@.critical == old(self)@.critical.push(op)
                && final(self)@.high == old(self)@.high && final(self)@.low == old(self)@.low,
            op.req.priority == 1 ==> final(self)@.high == old(self)@.high.push(op)
                && final(self)@.critical == old(self)@.critical && final(self)@.low == old(
                self,
            )@.low,
            op.req.priority != 1 && op.req.priority != 2 ==> final(self)@.low == old(
                self,
            )@.low.push(op) && final(self)@.critical == old(self)@.critical && final(self)@.high
                == old(self)@.high,
    {
        match IoPriority::from_u8(op.req.priority) {
            Some(IoPriority::Critical) => self.critical.push_back(op),
            Some(IoPriority::High) => self.high.push_back(op),
            _ => self.low.push_back(op),
        }
    }

    pub fn enqueue_all(&mut self, ops: Vec<MergedOp>)
        ensures
            final(self)@.critical == old(self)@.critical + ops@.filter(
                in_class(IoPriority::Critical),
            ),
            final(self)@.high == old(self)@.high + ops@.filter(in_class(IoPriority::High)),
            final(self)@.low == old(self)@.low + ops@.filter(in_class(IoPriority::Low)),
    {
        let ghost s0 = self@;
        let ghost all = ops@;
        for op in it: ops
            invariant
                it.seq() == all,
                self@.critical == s0.critical + all.take(it.index() as int).filter(
                    in_class(IoPriority::Critical),
                ),
                self@.high == s0.high + all.take(it.index() as int).filter(
                    in_class(IoPriority::High),
                ),
                self@.low == s0.low + all.take(it.index() as int).filter(in_class(IoPriority::Low)),
        {
            proof {
                let i = it.index() as int;
                assert(op == all[i]);
                assert(all.take(i + 1) =~= all.take(i).push(op));
                all.take(i).lemma_filter_push(op, in_class(IoPriority::Critical));
                all.take(i).lemma_filter_push(op, in_class(IoPriority::High));
                all.take(i).lemma_filter_push(op, in_class(IoPriority::Low));
            }
            self.enqueue(op);
        }
        assert(all.take(all.len() as int) =~= all);
    }

    /// Drain up to `max` ops in priority order: Critical > High > Low.
    pub fn drain(&mut self, max: usize) -> (r: Vec<MergedOp>)
        ensures
            r@ == old(self)@.in_order().take(
                if max < old(self)@.total() {
                    max as int
                } else {
                    old(self)@.total() as int
                },
            ),
            final(self)@ == old(self)@.after_drain(max as int),
    {
        let mut out = Vec::with_capacity(max);
        let ghost s0 = self@;
        drain_queue(&mut self.critical, &mut out, max);
        drain_queue(&mut self.high, &mut out, max);
        drain_queue(&mut self.low, &mut out, max);
        assert(self@ == s0.after_drain(max as int));
        assert(out@ =~= s0.in_order().take(
            if max < s0.total() {
                max as int
            } else {
                s0.total() as int
            },
        ));
        out
    }

    pub fn is_empty(&self) -> (r: bool)
        ensures
            r == (self@.total() == 0),
    {
        self.critical.len() == 0 && self.high.len() == 0 && self.low.len() == 0
    }

    pub fn len(&self) -> (r: usize)
        requires
            self@.total() <= usize::MAX,
        ensures
            r == self@.total(),
    {
        self.critical.len() + self.high.len() + self.low.len()
    }
}

} // verus!
