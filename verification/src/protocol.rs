//! Wire format shared by clients and the service: the fixed-size request
//! and response records, the operation and priority codes, and the names
//! of the shared-memory segments of an instance.
use vstd::prelude::*;
use vstd::slice::slice_subrange;
use vstd::string::StringExecFns;
use vstd::string::StringSliceAdditionalSpecFns;
use vstd::utf8::*;

verus! {

broadcast use vstd::utf8::encode_utf8_valid_utf8, vstd::utf8::encode_utf8_decode_utf8;

pub const RING_CAPACITY: usize = 4096;

/// 64 MiB per instance.
pub const DATA_REGION_SIZE: usize = 67108864;

pub const MAX_PATH_LEN: usize = 256;

pub const SHM_PREFIX: &'static str = "atlas";

/// Operation codes carried in `IoRequest::op`.
#[derive(Debug, Clone, Copy, PartialEq, Eq, Structural)]
pub enum IoOp {
    Open,
    Read,
    Write,
    Sync,
    Close,
}

/// The code of each operation on the wire.
pub open spec fn op_code(op: IoOp) -> u8 {
    match op {
        IoOp::Open => 0,
        IoOp::Read => 1,
        IoOp::Write => 2,
        IoOp::Sync => 3,
        IoOp::Close => 4,
    }
}

/// The operation a wire code denotes, if any.
pub open spec fn op_of_code(v: u8) -> Option<IoOp> {
    if v == 0 {
        Some(IoOp::Open)
    } else if v == 1 {
        Some(IoOp::Read)
    } else if v == 2 {
        Some(IoOp::Write)
    } else if v == 3 {
        Some(IoOp::Sync)
    } else if v == 4 {
        Some(IoOp::Close)
    } else {
        None
    }
}

impl IoOp {
    pub fn from_u8(v: u8) -> (r: Option<Self>)
        ensures
            r == op_of_code(v),
    {
        match v {
            0 => Some(IoOp::Open),
            1 => Some(IoOp::Read),
            2 => Some(IoOp::Write),
            3 => Some(IoOp::Sync),
            4 => Some(IoOp::Close),
            _ => None,
        }
    }

    /// The wire code of this operation.
    pub fn to_u8(self) -> (r: u8)
        ensures
            r == op_code(self),
    {
        match self {
            IoOp::Open => 0,
            IoOp::Read => 1,
            IoOp::Write => 2,
            IoOp::Sync => 3,
            IoOp::Close => 4,
        }
    }
}

/// Scheduling class of a request: `Low` (compaction) < `High` (foreground)
/// < `Critical` (WAL sync).
#[derive(Debug, Clone, Copy, PartialEq, Eq, Structural, Ord)]
pub enum IoPriority {
    Low,
    High,
    Critical,
}

pub open spec fn priority_code(p: IoPriority) -> u8 {
    match p {
        IoPriority::Low => 0,
        IoPriority::High => 1,
        IoPriority::Critical => 2,
    }
}

pub open spec fn priority_of_code(v: u8) -> Option<IoPriority> {
    if v == 0 {
        Some(IoPriority::Low)
    } else if v == 1 {
        Some(IoPriority::High)
    } else if v == 2 {
        Some(IoPriority::Critical)
    } else {
        None
    }
}

impl IoPriority {
    pub fn from_u8(v: u8) -> (r: Option<Self>)
        ensures
            r == priority_of_code(v),
    {
        match v {
            0 => Some(IoPriority::Low),
            1 => Some(IoPriority::High),
            2 => Some(IoPriority::Critical),
            _ => None,
        }
    }

    /// The wire code of this priority.
    pub fn to_u8(self) -> (r: u8)
        ensures
            r == priority_code(self),
    {
        match self {
            IoPriority::Low => 0,
            IoPriority::High => 1,
            IoPriority::Critical => 2,
        }
    }
}

/// Decoding a code that an operation encodes gives that operation back,
/// and a code decodes to an operation only if that operation encodes to it.
pub proof fn lemma_op_code_roundtrip(op: IoOp, v: u8)
    ensures
        op_of_code(op_code(op)) == Some(op),
        op_of_code(v) == Some(op) ==> op_code(op) == v,
        op_of_code(v) is Some <==> v <= 4,
{
}

/// The same two directions for priorities.
pub proof fn lemma_priority_code_roundtrip(p: IoPriority, v: u8)
    ensures
        priority_of_code(priority_code(p)) == Some(p),
        priority_of_code(v) == Some(p) ==> priority_code(p) == v,
        priority_of_code(v) is Some <==> v <= 2,
{
}

/// Wire format for I/O requests. All fields are plain integers.
#[derive(Debug, Clone, Copy)]
pub struct IoRequest {
    pub id: u64,
    /// `IoOp` code
    pub op: u8,
    /// `IoPriority` code
    pub priority: u8,
    pub _pad: [u8; 6],
    pub fd: u64,
    pub offset: u64,
    pub len: u32,
    pub data_offset: u32,
    pub path: [u8; MAX_PATH_LEN],
}

#[derive(Debug, Clone, Copy)]
pub struct IoResponse {
    pub id: u64,
    pub status: i32,
    pub _pad: [u8; 4],
    pub fd: u64,
    pub data_offset: u32,
    pub data_len: u32,
}

/// Length of the NUL-terminated prefix of `s`: the index of its first zero
/// byte, or its length when it holds none.
pub open spec fn c_str_len(s: Seq<u8>) -> nat
    decreases s.len(),
{
    if s.len() == 0 {
        0
    } else if s[0] == 0 {
        0
    } else {
        1 + c_str_len(s.drop_first())
    }
}

/// The text a path buffer holds: its NUL-terminated prefix decoded as
/// UTF-8, or the empty text when that prefix is not valid UTF-8.
pub open spec fn path_text(path: Seq<u8>) -> Seq<char> {
    let b = path.take(c_str_len(path) as int);
    if valid_utf8(b) {
        decode_utf8(b)
    } else {
        Seq::empty()
    }
}

/// The path buffer after `set_path` stored `bytes` into `old`: at most
/// `MAX_PATH_LEN - 1` bytes of them, then a terminating zero, the rest
/// untouched.
pub open spec fn path_after_set(old: Seq<u8>, bytes: Seq<u8>) -> Seq<u8> {
    let n = if bytes.len() < MAX_PATH_LEN - 1 {
        bytes.len() as int
    } else {
        MAX_PATH_LEN - 1
    };
    bytes.take(n) + seq![0u8] + old.skip(n + 1)
}

pub proof fn lemma_c_str_len_bounds(s: Seq<u8>)
    ensures
        c_str_len(s) <= s.len(),
        forall|k: int| 0 <= k < c_str_len(s) ==> s[k] != 0,
        c_str_len(s) < s.len() ==> s[c_str_len(s) as int] == 0,
    decreases s.len(),
{
    if s.len() > 0 && s[0] != 0 {
        lemma_c_str_len_bounds(s.drop_first());
        assert forall|k: int| 0 <= k < c_str_len(s) implies s[k] != 0 by {
            if k > 0 {
                assert(s[k] == s.drop_first()[k - 1]);
            }
        }
    }
}

/// A prefix free of zero bytes, followed by a zero byte, has that length.
pub proof fn lemma_c_str_len_of(s: Seq<u8>, n: int)
    requires
        0 <= n < s.len(),
        forall|k: int| 0 <= k < n ==> s[k] != 0,
        s[n] == 0,
    ensures
        c_str_len(s) == n,
    decreases n,
{
    if n > 0 {
        lemma_c_str_len_of(s.drop_first(), n - 1);
    }
}

/// Decodes `bytes` as UTF-8 (`core::str::from_utf8`): some text exactly when
/// the bytes are valid UTF-8, and then the characters they encode.
#[verifier::external_body]
fn utf8_text(bytes: &[u8]) -> (r: Option<&str>)
    ensures
        r is Some <==> valid_utf8(bytes@),
        r matches Some(s) ==> s@ == decode_utf8(bytes@),
{
    core::str::from_utf8(bytes).ok()
}

impl IoRequest {
    pub fn new(id: u64, op: IoOp, priority: IoPriority) -> (r: Self)
        ensures
            r.id == id,
            r.op == op_code(op),
            r.priority == priority_code(priority),
            r._pad@ == Seq::new(6, |i: int| 0u8),
            r.fd == 0,
            r.offset == 0,
            r.len == 0,
            r.data_offset == 0,
            r.path@ == Seq::new(MAX_PATH_LEN as nat, |i: int| 0u8),
    {
        let r = IoRequest {
            id,
            op: op.to_u8(),
            priority: priority.to_u8(),
            _pad: [0u8; 6],
            fd: 0,
            offset: 0,
            len: 0,
            data_offset: 0,
            path: [0u8; MAX_PATH_LEN],
        };
        assert(r._pad@ =~= Seq::new(6, |i: int| 0u8));
        assert(r.path@ =~= Seq::new(MAX_PATH_LEN as nat, |i: int| 0u8));
        r
    }

    pub fn io_op(&self) -> (r: Option<IoOp>)
        ensures
            r == op_of_code(self.op),
    {
        IoOp::from_u8(self.op)
    }

    pub fn io_priority(&self) -> (r: Option<IoPriority>)
        ensures
            r == priority_of_code(self.priority),
    {
        IoPriority::from_u8(self.priority)
    }

    /// Stores the bytes of `p`, cut to `MAX_PATH_LEN - 1` bytes, followed by a
    /// terminating zero.
    pub fn set_path(&mut self, p: &str)
        ensures
            final(self).path@ == path_after_set(old(self).path@, p.spec_bytes()),
            final(self).id == old(self).id,
            final(self).op == old(self).op,
            final(self).priority == old(self).priority,
            final(self)._pad == old(self)._pad,
            final(self).fd == old(self).fd,
            final(self).offset == old(self).offset,
            final(self).len == old(self).len,
            final(self).data_offset == old(self).data_offset,
    {
        let bytes = p.as_bytes();
        let n = if bytes.len() < MAX_PATH_LEN - 1 {
            bytes.len()
        } else {
            MAX_PATH_LEN - 1
        };
        let ghost old_path = self.path@;
        let mut i: usize = 0;
        while i < n
            invariant
                n <= bytes@.len(),
                n < MAX_PATH_LEN,
                i <= n,
                self.path@.len() == MAX_PATH_LEN,
                forall|k: int| 0 <= k < i ==> self.path@[k] == bytes@[k],
                forall|k: int| i <= k < MAX_PATH_LEN ==> self.path@[k] == old_path[k],
                self.id == old(self).id,
                self.op == old(self).op,
                self.priority == old(self).priority,
                self._pad == old(self)._pad,
                self.fd == old(self).fd,
                self.offset == old(self).offset,
                self.len == old(self).len,
                self.data_offset == old(self).data_offset,
            decreases n - i,
        {
            self.path[i] = bytes[i];
            i = i + 1;
        }
        self.path[n] = 0;
        assert(self.path@ =~= path_after_set(old_path, p.spec_bytes()));
    }

    /// The NUL-terminated path, or the empty string when it is not UTF-8.
    pub fn path_str(&self) -> (r: &str)
        ensures
            r@ == path_text(self.path@),
    {
        let mut end: usize = 0;
        while end < MAX_PATH_LEN && self.path[end] != 0
            invariant
                end <= MAX_PATH_LEN,
                self.path@.len() == MAX_PATH_LEN,
                forall|k: int| 0 <= k < end ==> self.path@[k] != 0,
            decreases MAX_PATH_LEN - end,
        {
            end = end + 1;
        }
        proof {
            if end < MAX_PATH_LEN {
                lemma_c_str_len_of(self.path@, end as int);
            } else {
                lemma_c_str_len_bounds(self.path@);
            }
        }
        let prefix = slice_subrange(self.path.as_slice(), 0, end);
        match utf8_text(prefix) {
            Some(s) => s,
            None => {
                let e = "";
                proof {
                    reveal_strlit("");
                }
                e
            },
        }
    }
}

/// Storing a path of at most `MAX_PATH_LEN - 1` bytes with no zero byte in
/// it, then reading the path back, gives the same text.
pub proof fn lemma_path_roundtrip(old_path: Seq<u8>, p: &str)
    requires
        old_path.len() == MAX_PATH_LEN,
        p.spec_bytes().len() <= MAX_PATH_LEN - 1,
        forall|k: int| 0 <= k < p.spec_bytes().len() ==> p.spec_bytes()[k] != 0,
    ensures
        path_text(path_after_set(old_path, p.spec_bytes())) == p@,
{
    let b = p.spec_bytes();
    let s = path_after_set(old_path, b);
    assert(s[b.len() as int] == 0);
    assert forall|k: int| 0 <= k < b.len() implies s[k] != 0 by {
        assert(s[k] == b[k]);
    }
    lemma_c_str_len_of(s, b.len() as int);
    assert(s.take(b.len() as int) =~= b);
    assert(b == encode_utf8(p@));
}

impl IoResponse {
    pub fn ok(id: u64) -> (r: Self)
        ensures
            r.id == id,
            r.status == 0,
            r.fd == 0,
            r.data_offset == 0,
            r.data_len == 0,
            r._pad@ == Seq::new(4, |i: int| 0u8),
    {
        let r = IoResponse { id, status: 0, _pad: [0u8; 4], fd: 0, data_offset: 0, data_len: 0 };
        assert(r._pad@ =~= Seq::new(4, |i: int| 0u8));
        r
    }

    pub fn err(id: u64, status: i32) -> (r: Self)
        ensures
            r.id == id,
            r.status == status,
            r.fd == 0,
            r.data_offset == 0,
            r.data_len == 0,
            r._pad@ == Seq::new(4, |i: int| 0u8),
    {
        let r = IoResponse { id, status, _pad: [0u8; 4], fd: 0, data_offset: 0, data_len: 0 };
        assert(r._pad@ =~= Seq::new(4, |i: int| 0u8));
        r
    }
}

/// The decimal digit character of `d` (for `d < 10`).
pub open spec fn digit_char(d: nat) -> char {
    if d == 0 {
        '0'
    } else if d == 1 {
        '1'
    } else if d == 2 {
        '2'
    } else if d == 3 {
        '3'
    } else if d == 4 {
        '4'
    } else if d == 5 {
        '5'
    } else if d == 6 {
        '6'
    } else if d == 7 {
        '7'
    } else if d == 8 {
        '8'
    } else {
        '9'
    }
}

/// The decimal notation of `n`, without leading zeros.
pub open spec fn decimal(n: nat) -> Seq<char>
    decreases n,
{
    if n < 10 {
        seq![digit_char(n)]
    } else {
        decimal(n / 10).push(digit_char(n % 10))
    }
}

/// Which of the three segments of an instance a name denotes.
pub enum ShmKind {
    Requests,
    Responses,
    Data,
}

pub open spec fn shm_kind_tag(kind: ShmKind) -> Seq<char> {
    match kind {
        ShmKind::Requests => seq!['r', 'e', 'q'],
        ShmKind::Responses => seq!['r', 'e', 's', 'p'],
        ShmKind::Data => seq!['d', 'a', 't', 'a'],
    }
}

/// `/atlas_<tag>_<instance id in decimal>`.
pub open spec fn shm_name(kind: ShmKind, instance_id: u32) -> Seq<char> {
    seq!['/', 'a', 't', 'l', 'a', 's', '_'] + shm_kind_tag(kind) + seq!['_'] + decimal(
        instance_id as nat,
    )
}

fn digit_str(d: u32) -> (r: &'static str)
    requires
        d < 10,
    ensures
        r@ == seq![digit_char(d as nat)],
{
    proof {
        reveal_strlit("0");
        reveal_strlit("1");
        reveal_strlit("2");
        reveal_strlit("3");
        reveal_strlit("4");
        reveal_strlit("5");
        reveal_strlit("6");
        reveal_strlit("7");
        reveal_strlit("8");
        reveal_strlit("9");
    }
    match d {
        0 => "0",
        1 => "1",
        2 => "2",
        3 => "3",
        4 => "4",
        5 => "5",
        6 => "6",
        7 => "7",
        8 => "8",
        _ => "9",
    }
}

fn push_decimal(s: &mut String, n: u32)
    ensures
        final(s)@ == old(s)@ + decimal(n as nat),
    decreases n,
{
    if n >= 10 {
        push_decimal(s, n / 10);
    }
    s.append(digit_str(n % 10));
    assert(s@ =~= old(s)@ + decimal(n as nat));
}

fn shm_name_string(kind: ShmKind, instance_id: u32) -> (r: String)
    ensures
        r@ == shm_name(kind, instance_id),
{
    let mut s = String::from_str("/");
    s.append(SHM_PREFIX);
    s.append("_");
    match kind {
        ShmKind::Requests => s.append("req"),
        ShmKind::Responses => s.append("resp"),
        ShmKind::Data => s.append("data"),
    }
    s.append("_");
    push_decimal(&mut s, instance_id);
    proof {
        reveal_strlit("/");
        reveal_strlit("atlas");
        reveal_strlit("_");
        reveal_strlit("req");
        reveal_strlit("resp");
        reveal_strlit("data");
    }
    assert(s@ =~= shm_name(kind, instance_id));
    s
}

pub fn shm_req_name(instance_id: u32) -> (r: String)
    ensures
        r@ == shm_name(ShmKind::Requests, instance_id),
{
    shm_name_string(ShmKind::Requests, instance_id)
}

pub fn shm_resp_name(instance_id: u32) -> (r: String)
    ensures
        r@ == shm_name(ShmKind::Responses, instance_id),
{
    shm_name_string(ShmKind::Responses, instance_id)
}

pub fn shm_data_name(instance_id: u32) -> (r: String)
    ensures
        r@ == shm_name(ShmKind::Data, instance_id),
{
    shm_name_string(ShmKind::Data, instance_id)
}

proof fn lemma_decimal_len(n: nat)
    ensures
        decimal(n).len() >= 1,
        decimal(n).len() == 1 <==> n < 10,
    decreases n,
{
    if n >= 10 {
        lemma_decimal_len(n / 10);
    }
}

proof fn lemma_digit_char_injective(a: nat, b: nat)
    requires
        a < 10,
        b < 10,
        digit_char(a) == digit_char(b),
    ensures
        a == b,
{
}

proof fn lemma_decimal_injective(n: nat, m: nat)
    requires
        decimal(n) == decimal(m),
    ensures
        n == m,
    decreases n,
{
    lemma_decimal_len(n);
    lemma_decimal_len(m);
    if n >= 10 {
        let dn = decimal(n);
        let dm = decimal(m);
        assert(dn.last() == digit_char(n % 10));
        assert(dm.last() == digit_char(m % 10));
        assert(dn.drop_last() =~= decimal(n / 10));
        assert(dm.drop_last() =~= decimal(m / 10));
        lemma_decimal_injective(n / 10, m / 10);
        lemma_digit_char_injective(n % 10, m % 10);
    } else {
        assert(decimal(m).len() == 1);
        assert(m < 10);
        assert(decimal(n)[0] == digit_char(n));
        assert(decimal(m)[0] == digit_char(m));
        lemma_digit_char_injective(n, m);
    }
}

/// Segment names never collide: two names are equal only for the same
/// segment of the same instance.
pub proof fn lemma_shm_names_distinct(k1: ShmKind, id1: u32, k2: ShmKind, id2: u32)
    requires
        shm_name(k1, id1) == shm_name(k2, id2),
    ensures
        k1 == k2,
        id1 == id2,
{
    let a = shm_name(k1, id1);
    let b = shm_name(k2, id2);
    let t1 = shm_kind_tag(k1);
    let t2 = shm_kind_tag(k2);
    lemma_decimal_len(id1 as nat);
    lemma_decimal_len(id2 as nat);
    // the character after the tag is '_', and no tag character is '_'
    assert(a[7] == t1[0] && b[7] == t2[0]);
    assert(a[8] == t1[1] && b[8] == t2[1]);
    assert(a[9] == t1[2] && b[9] == t2[2]);
    assert(a[10] == (if t1.len() == 3 { '_' } else { t1[3] }));
    assert(b[10] == (if t2.len() == 3 { '_' } else { t2[3] }));
    assert(k1 == k2);
    let pre = 8 + t1.len();
    assert(a.skip(pre as int) =~= decimal(id1 as nat));
    assert(b.skip(pre as int) =~= decimal(id2 as nat));
    lemma_decimal_injective(id1 as nat, id2 as nat);
}

} // verus!
