//! What a client puts on the wire for each file operation, how it reads
//! the service's answer, and how it carves space out of its data region.
use crate::protocol::{
    op_code, path_after_set, priority_code, IoOp, IoPriority, IoRequest, IoResponse,
};
use vstd::prelude::*;
use vstd::string::StringSliceAdditionalSpecFns;

verus! {

/// A request with every field as `IoRequest::new` leaves it except those
/// named here.
pub open spec fn request_fields(
    r: IoRequest,
    id: u64,
    op: IoOp,
    priority: IoPriority,
    fd: u64,
    offset: u64,
    len: u32,
    data_offset: u32,
) -> bool {
    &&& r.id == id
    &&& r.op == op_code(op)
    &&& r.priority == priority_code(priority)
    &&& r._pad@ == Seq::new(6, |i: int| 0u8)
    &&& r.fd == fd
    &&& r.offset == offset
    &&& r.len == len
    &&& r.data_offset == data_offset
}

pub open spec fn empty_path() -> Seq<u8> {
    Seq::new(crate::protocol::MAX_PATH_LEN as nat, |i: int| 0u8)
}

/// Open `path` with `flags` (carried in `len`), at high priority.
pub fn open_request(id: u64, path: &str, flags: u32) -> (r: IoRequest)
    ensures
        request_fields(r, id, IoOp::Open, IoPriority::High, 0, 0, flags, 0),
        r.path@ == path_after_set(empty_path(), path.spec_bytes()),
{
    let mut req = IoRequest::new(id, IoOp::Open, IoPriority::High);
    req.set_path(path);
    req.len = flags;
    req
}

/// Read `len` bytes at `offset` of `fd` into the data region at
/// `data_offset`, at high priority. The length travels as 32 bits.
pub fn read_request(id: u64, fd: u64, len: usize, offset: u64, data_offset: u32) -> (r: IoRequest)
    ensures
        request_fields(r, id, IoOp::Read, IoPriority::High, fd, offset, len as u32, data_offset),
        r.path@ == empty_path(),
{
    let mut req = IoRequest::new(id, IoOp::Read, IoPriority::High);
    req.fd = fd;
    req.offset = offset;
    req.len = #[verifier::truncate] (len as u32);
    req.data_offset = data_offset;
    req
}

/// Write `len` bytes staged at `data_offset` to `offset` of `fd`, at high
/// priority.
pub fn write_request(id: u64, fd: u64, len: usize, offset: u64, data_offset: u32) -> (r: IoRequest)
    ensures
        request_fields(r, id, IoOp::Write, IoPriority::High, fd, offset, len as u32, data_offset),
        r.path@ == empty_path(),
{
    let mut req = IoRequest::new(id, IoOp::Write, IoPriority::High);
    req.fd = fd;
    req.offset = offset;
    req.len = #[verifier::truncate] (len as u32);
    req.data_offset = data_offset;
    req
}

/// Sync `fd` (a WAL sync): critical priority.
pub fn sync_request(id: u64, fd: u64) -> (r: IoRequest)
    ensures
        request_fields(r, id, IoOp::Sync, IoPriority::Critical, fd, 0, 0, 0),
        r.path@ == empty_path(),
{
    let mut req = IoRequest::new(id, IoOp::Sync, IoPriority::Critical);
    req.fd = fd;
    req
}

/// Close `fd`: low priority.
pub fn close_request(id: u64, fd: u64) -> (r: IoRequest)
    ensures
        request_fields(r, id, IoOp::Close, IoPriority::Low, fd, 0, 0, 0),
        r.path@ == empty_path(),
{
    let mut req = IoRequest::new(id, IoOp::Close, IoPriority::Low);
    req.fd = fd;
    req
}

/// The virtual fd of a successful open, or the error status.
pub fn open_result(resp: &IoResponse) -> (r: Result<u64, i32>)
    ensures
        resp.status != 0 ==> r == Err::<u64, i32>(resp.status),
        resp.status == 0 ==> r == Ok::<u64, i32>(resp.fd),
{
    if resp.status != 0 {
        Err(resp.status)
    } else {
        Ok(resp.fd)
    }
}

/// The number of bytes a read or write transferred, or the error status.
pub fn transfer_result(resp: &IoResponse) -> (r: Result<usize, i32>)
    ensures
        resp.status != 0 ==> r == Err::<usize, i32>(resp.status),
        resp.status == 0 ==> r == Ok::<usize, i32>(resp.data_len as usize),
{
    if resp.status != 0 {
        Err(resp.status)
    } else {
        Ok(resp.data_len as usize)
    }
}

/// Success of a sync or close, or the error status.
pub fn status_result(resp: &IoResponse) -> (r: Result<(), i32>)
    ensures
        resp.status != 0 ==> r == Err::<(), i32>(resp.status),
        resp.status == 0 ==> r == Ok::<(), i32>(()),
{
    if resp.status != 0 {
        Err(resp.status)
    } else {
        Ok(())
    }
}

/// How many times a client tries to join the response ring.
pub const JOIN_ATTEMPTS: u32 = 200;

/// The pause after a failed try to join the response ring, in milliseconds.
pub const JOIN_PAUSE_MILLIS: u64 = 5;

/// Whether to make try number `attempt` (counted from 0) to join the
/// response ring, and if so how long to pause after it should it fail:
/// `JOIN_ATTEMPTS` tries, each followed on failure by a pause of
/// `JOIN_PAUSE_MILLIS`, then the client gives up.
pub fn connect_retry(attempt: u32) -> (r: Option<u64>)
    ensures
        attempt < JOIN_ATTEMPTS ==> r == Some(JOIN_PAUSE_MILLIS),
        attempt >= JOIN_ATTEMPTS ==> r is None,
{
    if attempt < JOIN_ATTEMPTS {
        Some(JOIN_PAUSE_MILLIS)
    } else {
        None
    }
}

/// One step of the data region's bump allocator: with the cursor at `cur`,
/// `n` bytes (counted in 32 bits) go at `cur` when they fit below `len`,
/// else at 0 (wrap-around). Returns (start, new cursor). The sum is
/// computed in 32-bit wrapping arithmetic.
pub fn alloc_range(cur: u32, n: usize, len: usize) -> (r: (u32, u32))
    ensures
        ({
            let n32 = n as u32;
            let end = cur.wrapping_add(n32);
            &&& end > len as u32 ==> r == (0u32, n32)
            &&& end <= len as u32 ==> r == (cur, end)
        }),
{
    let n = #[verifier::truncate] (n as u32);
    let end = cur.wrapping_add(n);
    if end > #[verifier::truncate] (len as u32) {
        (0, n)
    } else {
        (cur, end)
    }
}

/// A region never hands out space past its end: from a cursor inside a
/// region of less than 2 GiB, `n` bytes that fit in the region are placed
/// entirely inside it, and the cursor stays inside.
pub proof fn lemma_alloc_in_bounds(cur: u32, n: usize, len: usize, r: (u32, u32))
    requires
        2 * len <= u32::MAX,
        cur <= len,
        n <= len,
        r == (if cur.wrapping_add(n as u32) > len as u32 {
            (0u32, n as u32)
        } else {
            (cur, cur.wrapping_add(n as u32))
        }),
    ensures
        r.0 + n <= len,
        r.1 == r.0 + n,
        r.1 <= len,
{
    assert((n as u32) as int == n) by (bit_vector)
        requires
            n <= 0xffff_ffffusize,
    ;
    assert((len as u32) as int == len) by (bit_vector)
        requires
            len <= 0xffff_ffffusize,
    ;
}

} // verus!
