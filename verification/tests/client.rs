use atlas::client::{
    alloc_range, close_request, connect_retry, open_request, open_result, read_request, status_result,
    sync_request, transfer_result, write_request,
};
use atlas::protocol::{IoResponse, DATA_REGION_SIZE};

#[test]
fn alloc_advances_offset() {
    let (a, cur) = alloc_range(0, 100, DATA_REGION_SIZE);
    let (b, cur) = alloc_range(cur, 200, DATA_REGION_SIZE);
    assert_eq!(a, 0);
    assert_eq!(b, 100);
    let (c, _) = alloc_range(cur, 50, DATA_REGION_SIZE);
    assert_eq!(c, 300);
}

#[test]
fn alloc_wraps_around() {
    let big = DATA_REGION_SIZE - 16;
    let (off1, cur) = alloc_range(0, big, DATA_REGION_SIZE);
    assert_eq!(off1, 0);
    let (off2, cur2) = alloc_range(cur, 32, DATA_REGION_SIZE);
    assert_eq!(off2, 0);
    assert_eq!(cur2, 32);
}

#[test]
fn alloc_exact_fit_does_not_wrap() {
    let (start, cur) = alloc_range(100, 28, 128);
    assert_eq!((start, cur), (100, 128));
    let (start, cur) = alloc_range(cur, 1, 128);
    assert_eq!((start, cur), (0, 1));
}

#[test]
fn requests_carry_op_priority_and_fields() {
    let o = open_request(1, "/data/x.sst", 0o101);
    assert_eq!((o.op, o.priority, o.len), (0, 1, 0o101));
    assert_eq!(o.path_str(), "/data/x.sst");
    let r = read_request(2, 7, 4096, 8192, 64);
    assert_eq!((r.op, r.priority, r.fd, r.offset, r.len, r.data_offset), (1, 1, 7, 8192, 4096, 64));
    let w = write_request(3, 7, 10, 0, 128);
    assert_eq!((w.op, w.priority, w.fd, w.len, w.data_offset), (2, 1, 7, 10, 128));
    let s = sync_request(4, 7);
    assert_eq!((s.op, s.priority, s.fd), (3, 2, 7));
    let c = close_request(5, 7);
    assert_eq!((c.op, c.priority, c.fd, c.id), (4, 0, 7, 5));
}

#[test]
fn read_length_travels_as_32_bits() {
    let r = read_request(2, 7, (1usize << 32) + 5, 0, 0);
    assert_eq!(r.len, 5);
}

#[test]
fn responses_become_results() {
    let mut ok = IoResponse::ok(1);
    ok.fd = 3;
    ok.data_len = 11;
    assert_eq!(open_result(&ok), Ok(3));
    assert_eq!(transfer_result(&ok), Ok(11));
    assert_eq!(status_result(&ok), Ok(()));
    let err = IoResponse::err(1, -2);
    assert_eq!(open_result(&err), Err(-2));
    assert_eq!(transfer_result(&err), Err(-2));
    assert_eq!(status_result(&err), Err(-2));
}

#[test]
fn joining_tries_two_hundred_times_five_ms_apart() {
    let mut attempts = 0u32;
    let mut waited = 0u64;
    while let Some(pause) = connect_retry(attempts) {
        attempts += 1;
        waited += pause;
    }
    assert_eq!((attempts, waited), (200, 1000));
    assert_eq!(connect_retry(0), Some(5));
    assert_eq!(connect_retry(200), None);
}
