//! Single-producer single-consumer ring buffer.
//!
//! - Capacity `N` is a power of two; a slot is found with `counter & (N - 1)`.
//! - `head` and `tail` are free-running `usize` counters that wrap on
//!   overflow; `tail - head` (wrapping) is the number of queued items.
//! - The producer caches the last head it saw and the consumer the last
//!   tail, refreshing only when the cached value says full (or empty).
//!
//! `SpscRing` here holds the control words and slots as plain values; the
//! producer and consumer cursors carry the decisions (when to refresh,
//! which slot, what to publish), which a shared-memory placement of the
//! ring drives with atomic loads and stores in between.
use vstd::arithmetic::div_mod::{lemma_mod_equivalence, lemma_mod_multiples_basic, lemma_small_mod};
use vstd::arithmetic::power2::{lemma2_to64, lemma_pow2_adds, lemma_pow2_pos, pow2};
use vstd::bits::{low_bits_mask, lemma_usize_low_bits_mask_is_mod};
use std::marker::PhantomData;
use vstd::prelude::*;

verus! {

pub const MAGIC: u64 = 0xA71A5595C0001u64;

/// A power of two that a `usize` can hold.
pub open spec fn is_pow2(n: int) -> bool {
    exists|k: nat| k < usize::BITS && pow2(k) == n
}

/// Number of distinct `usize` values: counters wrap modulo this.
pub open spec fn counter_modulus() -> int {
    usize::MAX + 1
}

/// `a - b` in wrapping `usize` arithmetic.
pub open spec fn dist(a: usize, b: usize) -> int {
    a.wrapping_sub(b) as int
}

proof fn lemma_modulus_is_pow2()
    ensures
        counter_modulus() == pow2(usize::BITS as nat),
{
    lemma2_to64();
}

/// A power-of-two capacity divides the counter modulus, so counters that
/// agree modulo the latter agree modulo the former.
proof fn lemma_capacity_divides(n: int)
    requires
        is_pow2(n),
    ensures
        n > 0,
        counter_modulus() % n == 0,
{
    let k = choose|k: nat| k < usize::BITS && pow2(k) == n;
    lemma_modulus_is_pow2();
    lemma_pow2_pos(k);
    lemma_pow2_adds(k, (usize::BITS - k) as nat);
    assert(pow2(usize::BITS as nat) == pow2(k) * pow2((usize::BITS - k) as nat));
    lemma_mod_multiples_basic(pow2((usize::BITS - k) as nat) as int, n);
    assert(counter_modulus() == pow2((usize::BITS - k) as nat) * n) by (nonlinear_arith)
        requires
            counter_modulus() == pow2(k) * pow2((usize::BITS - k) as nat),
            pow2(k) == n,
    ;
}

/// `x & (n - 1)` is `x % n` for a power of two `n`.
proof fn lemma_mask_is_mod(x: usize, n: usize)
    requires
        is_pow2(n as int),
    ensures
        n > 0,
        x & ((n - 1) as usize) == x % n,
{
    let k = choose|k: nat| k < usize::BITS && pow2(k) == n;
    lemma_pow2_pos(k);
    lemma_usize_low_bits_mask_is_mod(x, k);
    assert(low_bits_mask(k) == pow2(k) - 1);
}

/// Shifting by the counter modulus does not change the residue modulo a
/// power-of-two capacity.
proof fn lemma_mod_shift(x: int, n: int)
    requires
        is_pow2(n),
    ensures
        (x + counter_modulus()) % n == x % n,
        (x - counter_modulus()) % n == x % n,
{
    lemma_capacity_divides(n);
    let q = counter_modulus() / n;
    assert(counter_modulus() == q * n) by (nonlinear_arith)
        requires
            counter_modulus() % n == 0,
            n > 0,
            q == counter_modulus() / n,
    ;
    lemma_mod_equivalence(x + counter_modulus(), x, n);
    lemma_mod_equivalence(x - counter_modulus(), x, n);
    lemma_mod_multiples_basic(q, n);
    lemma_mod_multiples_basic(-q, n);
    assert((x + counter_modulus()) - x == q * n);
    assert((x - counter_modulus()) - x == (-q) * n) by (nonlinear_arith)
        requires
            counter_modulus() == q * n,
    ;
}

/// Positions less than `n` apart have different residues modulo `n`.
proof fn lemma_mod_distinct(a: int, b: int, n: int)
    requires
        n > 0,
        a < b < a + n,
    ensures
        a % n != b % n,
{
    lemma_mod_equivalence(b, a, n);
    lemma_small_mod((b - a) as nat, n as nat);
}

/// The head counter plus the wrapping distance to the tail is the tail,
/// modulo a power-of-two capacity.
proof fn lemma_dist_mod(tail: usize, head: usize, n: int)
    requires
        is_pow2(n),
    ensures
        (head + dist(tail, head)) % n == tail as int % n,
{
    if tail < head {
        lemma_mod_shift(tail as int, n);
    }
}

#[derive(Debug, Clone, Copy, PartialEq, Eq, Structural)]
pub struct RingFull;

/// The control words and slots of a ring.
pub struct SpscRing<T, const N: usize> {
    magic: u64,
    capacity: usize,
    tail: usize,
    head: usize,
    slots: Vec<T>,
}

/// The queued items, oldest first: slot `(head + k) % N` holds item `k`.
pub open spec fn ring_items<T>(slots: Seq<T>, head: usize, used: int, n: int) -> Seq<T> {
    Seq::new(used as nat, |k: int| slots[(head + k) % n])
}

/// What a peer finds when it looks at a segment's header.
#[derive(Debug, Clone, Copy, PartialEq, Eq)]
pub enum AttachStatus {
    /// Published with the expected capacity.
    Ready,
    /// Not published yet (magic still zero).
    Pending,
    /// Unusable: the reason.
    Failed(&'static str),
}

/// Classifies a header (magic, capacity) for a peer expecting capacity `n`.
pub fn attach_status(magic: u64, capacity: usize, n: usize) -> (r: AttachStatus)
    ensures
        magic == MAGIC && capacity == n ==> r == AttachStatus::Ready,
        magic == MAGIC && capacity != n ==> r == AttachStatus::Failed("capacity mismatch"),
        magic != MAGIC && magic != 0 ==> r == AttachStatus::Failed("corrupt magic"),
        magic == 0 ==> r == AttachStatus::Pending,
{
    if magic == MAGIC {
        if capacity != n {
            AttachStatus::Failed("capacity mismatch")
        } else {
            AttachStatus::Ready
        }
    } else if magic != 0 {
        AttachStatus::Failed("corrupt magic")
    } else {
        AttachStatus::Pending
    }
}

/// What initializing a segment in place must do, given its header.
#[derive(Debug, Clone, Copy, PartialEq, Eq, Structural)]
pub enum InitStatus {
    /// Zero magic: write capacity and counters, then publish the magic.
    Fresh,
    /// Already initialized with the expected capacity: nothing to do.
    Ready,
    /// The magic is neither zero nor ours.
    CorruptMagic,
    /// Initialized for another capacity.
    CapacityMismatch,
}

pub fn init_status(magic: u64, capacity: usize, n: usize) -> (r: InitStatus)
    ensures
        magic == 0 ==> r == InitStatus::Fresh,
        magic != 0 && magic != MAGIC ==> r == InitStatus::CorruptMagic,
        magic == MAGIC && capacity == n ==> r == InitStatus::Ready,
        magic == MAGIC && capacity != n ==> r == InitStatus::CapacityMismatch,
{
    if magic == 0 {
        InitStatus::Fresh
    } else if magic != MAGIC {
        InitStatus::CorruptMagic
    } else if capacity != n {
        InitStatus::CapacityMismatch
    } else {
        InitStatus::Ready
    }
}

/// Bytes a ring of `n` slots of `t` bytes occupies on a 64-bit target: three
/// 128-byte header lines (magic and capacity, tail, head) then the slots,
/// rounded up to the 128-byte alignment.
pub open spec fn ring_bytes(t: int, n: int) -> int {
    (384 + n * t + 127) / 128 * 128
}

impl<T: Copy, const N: usize> SpscRing<T, N> {
    pub closed spec fn head(&self) -> usize {
        self.head
    }

    pub closed spec fn tail(&self) -> usize {
        self.tail
    }

    pub closed spec fn magic(&self) -> u64 {
        self.magic
    }

    pub closed spec fn capacity(&self) -> usize {
        self.capacity
    }

    /// A ring in use: published, with `N` slots, at most `N` items queued.
    pub closed spec fn wf(&self) -> bool {
        &&& is_pow2(N as int)
        &&& self.magic == MAGIC
        &&& self.capacity == N
        &&& self.slots@.len() == N
        &&& dist(self.tail, self.head) <= N
    }

    /// The queued items, oldest first.
    pub closed spec fn items(&self) -> Seq<T> {
        ring_items(self.slots@, self.head, dist(self.tail, self.head), N as int)
    }

    /// A zero-filled segment: no magic yet, counters at zero, each slot
    /// holding `zero`.
    pub fn zeroed(zero: T) -> (r: Self)
        ensures
            r.magic() == 0,
            r.capacity() == 0,
            r.head() == 0,
            r.tail() == 0,
            r.segment_ok(),
    {
        let mut slots: Vec<T> = Vec::with_capacity(N);
        let mut i: usize = 0;
        while i < N
            invariant
                i <= N,
                slots@.len() == i,
            decreases N - i,
        {
            slots.push(zero);
            i = i + 1;
        }
        SpscRing { magic: 0, capacity: 0, tail: 0, head: 0, slots }
    }

    /// Bytes required to host this ring in memory, laid out as on 64-bit
    /// targets: each counter fills its own 128-byte line there.
    pub fn size_bytes() -> (r: usize)
        requires
            usize::BITS == 64,
            384 + N * vstd::layout::size_of::<T>() + 127 <= usize::MAX,
        ensures
            r == ring_bytes(vstd::layout::size_of::<T>() as int, N as int),
    {
        let t = core::mem::size_of::<T>();
        assert(N * t <= usize::MAX - 511) by (nonlinear_arith)
            requires
                384 + N * t + 127 <= usize::MAX,
        ;
        (384 + N * t + 127) / 128 * 128
    }

    /// A header whose magic says published also has the ring's capacity and
    /// at most `N` items; zero magic means untouched counters.
    pub closed spec fn segment_ok(&self) -> bool {
        &&& self.slots@.len() == N
        &&& self.magic == MAGIC ==> self.capacity == N && dist(self.tail, self.head) <= N
        &&& self.magic == 0 ==> self.capacity == 0 && self.head == 0 && self.tail == 0
    }

    /// A ring in use never holds more than `N` items.
    pub proof fn lemma_items_bounded(&self)
        requires
            self.wf(),
        ensures
            self.items().len() <= N,
    {
    }

    /// A ring in use is a valid segment, so initializing it again is allowed
    /// and keeps its items.
    pub proof fn lemma_wf_segment_ok(&self)
        requires
            self.wf(),
        ensures
            self.segment_ok(),
    {
    }

    /// Initialize the ring, or validate an already-initialized one.
    pub fn init_in_place(&mut self)
        requires
            is_pow2(N as int),
            old(self).segment_ok(),
            old(self).magic() == 0 || old(self).magic() == MAGIC,
        ensures
            final(self).wf(),
            final(self).magic() == MAGIC,
            final(self).capacity() == N,
            old(self).magic() == 0 ==> final(self).head() == 0 && final(self).tail() == 0
                && final(self).items() == Seq::<T>::empty(),
            old(self).magic() == MAGIC ==> final(self).head() == old(self).head()
                && final(self).tail() == old(self).tail()
                && final(self).items() == old(self).items(),
    {
        match init_status(self.magic, self.capacity, N) {
            InitStatus::Fresh => {
                self.capacity = N;
                self.tail = 0;
                self.head = 0;
                self.magic = MAGIC;
                assert(self.items() =~= Seq::<T>::empty());
            },
            _ => {},
        }
    }

    /// Checks that a peer initialized this ring for `N` slots.
    pub fn attach(&self) -> (r: Result<(), &'static str>)
        ensures
            self.magic() == MAGIC && self.capacity() == N ==> r == Ok::<(), &'static str>(()),
            self.magic() == MAGIC && self.capacity() != N ==> r == Err::<(), &'static str>(
                "capacity mismatch",
            ),
            self.magic() != MAGIC && self.magic() != 0 ==> r == Err::<(), &'static str>(
                "corrupt magic",
            ),
            self.magic() == 0 ==> r == Err::<(), &'static str>("uninitialized"),
    {
        match attach_status(self.magic, self.capacity, N) {
            AttachStatus::Ready => Ok(()),
            AttachStatus::Failed(e) => Err(e),
            AttachStatus::Pending => Err("uninitialized"),
        }
    }
}

/// The producer's cursor: the tail it publishes and the last head it saw.
pub struct Producer<T, const N: usize> {
    cached_head: usize,
    local_tail: usize,
    marker: PhantomData<T>,
}

/// The consumer's cursor: the head it publishes and the last tail it saw.
pub struct Consumer<T, const N: usize> {
    local_head: usize,
    cached_tail: usize,
    marker: PhantomData<T>,
}

impl<T: Copy, const N: usize> Producer<T, N> {
    pub closed spec fn local_tail(&self) -> usize {
        self.local_tail
    }

    pub closed spec fn cached_head(&self) -> usize {
        self.cached_head
    }

    /// The cursor is the ring's producer: it owns the tail, and its cached
    /// head is a head the consumer has passed.
    pub open spec fn serves(&self, ring: &SpscRing<T, N>) -> bool {
        &&& self.local_tail() == ring.tail()
        &&& dist(ring.tail(), self.cached_head()) <= N
        &&& dist(ring.tail(), ring.head()) <= dist(ring.tail(), self.cached_head())
    }

    /// A cursor at the given tail, having last seen `cached_head`.
    pub fn with_counters(local_tail: usize, cached_head: usize) -> (r: Self)
        ensures
            r.local_tail() == local_tail,
            r.cached_head() == cached_head,
    {
        Producer { cached_head, local_tail, marker: PhantomData }
    }

    pub fn new(ring: &SpscRing<T, N>) -> (r: Self)
        requires
            ring.wf(),
        ensures
            r.serves(ring),
    {
        Self::with_counters(ring.tail, ring.head)
    }

    /// The cached head leaves no room: the real head must be read.
    pub fn must_refresh(&self) -> (r: bool)
        ensures
            r == (dist(self.local_tail(), self.cached_head()) >= N),
    {
        self.local_tail.wrapping_sub(self.cached_head) >= N
    }

    pub fn refresh(&mut self, head: usize)
        ensures
            final(self).cached_head() == head,
            final(self).local_tail() == old(self).local_tail(),
    {
        self.cached_head = head;
    }

    /// The slot the next item goes to.
    pub fn slot(&self) -> (r: usize)
        requires
            is_pow2(N as int),
        ensures
            r == self.local_tail() % N,
    {
        proof {
            lemma_mask_is_mod(self.local_tail, N);
        }
        self.local_tail & (N - 1)
    }

    /// Moves past the slot just written; returns the tail to publish.
    pub fn advance(&mut self) -> (r: usize)
        ensures
            r == old(self).local_tail().wrapping_add(1),
            final(self).local_tail() == r,
            final(self).cached_head() == old(self).cached_head(),
    {
        self.local_tail = self.local_tail.wrapping_add(1);
        self.local_tail
    }

    /// Appends `value` unless the ring is full.
    pub fn push(&mut self, ring: &mut SpscRing<T, N>, value: &T) -> (r: Result<(), RingFull>)
        requires
            old(ring).wf(),
            old(self).serves(old(ring)),
        ensures
            final(ring).wf(),
            final(self).serves(final(ring)),
            final(ring).head() == old(ring).head(),
            r is Ok <==> old(ring).items().len() < N,
            r is Ok ==> final(ring).items() == old(ring).items().push(*value),
            r is Err ==> final(ring).items() == old(ring).items(),
            forall|c: Consumer<T, N>| c.serves(old(ring)) ==> c.serves(final(ring)),
    {
        let ghost used = dist(ring.tail, ring.head);
        proof {
            lemma_capacity_divides(N as int);
        }
        if self.must_refresh() {
            self.refresh(ring.head);
            if self.must_refresh() {
                return Err(RingFull);
            }
        }
        let idx = self.slot();
        let ghost old_slots = ring.slots@;
        let ghost h = ring.head;
        let ghost t = ring.tail;
        ring.slots.set(idx, *value);
        let new_tail = self.advance();
        ring.tail = new_tail;
        proof {
            lemma_dist_mod(t, h, N as int);
            assert(counter_modulus() >= 2 * N) by {
                let k = choose|k: nat| k < usize::BITS && pow2(k) == N;
                lemma_modulus_is_pow2();
                lemma_pow2_adds(k, (usize::BITS - k) as nat);
                lemma_pow2_pos((usize::BITS - k - 1) as nat);
                lemma_pow2_adds(1, (usize::BITS - k - 1) as nat);
                lemma2_to64();
                assert(pow2((usize::BITS - k) as nat) >= 2);
                assert(pow2(usize::BITS as nat) >= 2 * pow2(k)) by (nonlinear_arith)
                    requires
                        pow2(usize::BITS as nat) == pow2(k) * pow2((usize::BITS - k) as nat),
                        pow2((usize::BITS - k) as nat) >= 2,
                        pow2(k) > 0,
                ;
            }
            assert(dist(ring.tail, h) == used + 1);
            let items1 = ring.items();
            let items0 = ring_items(old_slots, h, used, N as int);
            assert forall|k: int| 0 <= k < used implies items1[k] == items0[k] by {
                lemma_mod_distinct(h + k, h + used, N as int);
            }
            assert(items1[used] == *value);
            assert(items1 =~= items0.push(*value));
        }
        Ok(())
    }
}

impl<T: Copy, const N: usize> Consumer<T, N> {
    pub closed spec fn local_head(&self) -> usize {
        self.local_head
    }

    pub closed spec fn cached_tail(&self) -> usize {
        self.cached_tail
    }

    /// The cursor is the ring's consumer: it owns the head, and its cached
    /// tail is one the producer has passed.
    pub open spec fn serves(&self, ring: &SpscRing<T, N>) -> bool {
        &&& self.local_head() == ring.head()
        &&& dist(self.cached_tail(), ring.head()) <= dist(ring.tail(), ring.head())
    }

    /// A cursor at the given head, having last seen `cached_tail`.
    pub fn with_counters(local_head: usize, cached_tail: usize) -> (r: Self)
        ensures
            r.local_head() == local_head,
            r.cached_tail() == cached_tail,
    {
        Consumer { local_head, cached_tail, marker: PhantomData }
    }

    pub fn new(ring: &SpscRing<T, N>) -> (r: Self)
        requires
            ring.wf(),
        ensures
            r.serves(ring),
    {
        Self::with_counters(ring.head, ring.tail)
    }

    /// The cached tail shows nothing to read: the real tail must be read.
    pub fn must_refresh(&self) -> (r: bool)
        ensures
            r == (self.local_head() == self.cached_tail()),
    {
        self.local_head == self.cached_tail
    }

    pub fn refresh(&mut self, tail: usize)
        ensures
            final(self).cached_tail() == tail,
            final(self).local_head() == old(self).local_head(),
    {
        self.cached_tail = tail;
    }

    /// The slot the next item is read from.
    pub fn slot(&self) -> (r: usize)
        requires
            is_pow2(N as int),
        ensures
            r == self.local_head() % N,
    {
        proof {
            lemma_mask_is_mod(self.local_head, N);
        }
        self.local_head & (N - 1)
    }

    /// Moves past the slot just read; returns the head to publish.
    pub fn advance(&mut self) -> (r: usize)
        ensures
            r == old(self).local_head().wrapping_add(1),
            final(self).local_head() == r,
            final(self).cached_tail() == old(self).cached_tail(),
    {
        self.local_head = self.local_head.wrapping_add(1);
        self.local_head
    }

    /// Removes and returns the oldest item, if any.
    pub fn pop(&mut self, ring: &mut SpscRing<T, N>) -> (r: Option<T>)
        requires
            old(ring).wf(),
            old(self).serves(old(ring)),
        ensures
            final(ring).wf(),
            final(self).serves(final(ring)),
            final(ring).tail() == old(ring).tail(),
            r is None <==> old(ring).items().len() == 0,
            r matches Some(v) ==> v == old(ring).items()[0] && final(ring).items()
                == old(ring).items().drop_first(),
            r is None ==> final(ring).items() == old(ring).items(),
            forall|p: Producer<T, N>| p.serves(old(ring)) ==> p.serves(final(ring)),
    {
        let ghost used = dist(ring.tail, ring.head);
        if self.must_refresh() {
            self.refresh(ring.tail);
            if self.must_refresh() {
                return None;
            }
        }
        let idx = self.slot();
        let v = ring.slots[idx];
        let ghost h = ring.head;
        let new_head = self.advance();
        ring.head = new_head;
        proof {
            assert(used >= 1);
            let items0 = ring_items(ring.slots@, h, used, N as int);
            let items1 = ring.items();
            assert(dist(ring.tail, ring.head) == used - 1);
            assert(v == items0[0]);
            assert forall|k: int| 0 <= k < used - 1 implies items1[k] == items0[k + 1] by {
                if h == usize::MAX {
                    lemma_mod_shift(h + 1 + k, N as int);
                    assert(ring.head + k == h + 1 + k - counter_modulus());
                }
            }
            assert(items1 =~= items0.drop_first());
        }
        Some(v)
    }
}

} // verus!
