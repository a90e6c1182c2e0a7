use atlas::protocol::{
    shm_data_name, shm_req_name, shm_resp_name, IoOp, IoPriority, IoRequest, IoResponse,
    MAX_PATH_LEN,
};

#[test]
fn path_roundtrip() {
    let mut req = IoRequest::new(1, IoOp::Open, IoPriority::High);
    req.set_path("/tmp/test.sst");
    assert_eq!(req.path_str(), "/tmp/test.sst");
}

#[test]
fn op_roundtrip() {
    let req = IoRequest::new(1, IoOp::Write, IoPriority::Critical);
    assert_eq!(req.io_op(), Some(IoOp::Write));
    assert_eq!(req.io_priority(), Some(IoPriority::Critical));
}

#[test]
fn op_codes_match_wire_values() {
    assert_eq!(IoOp::from_u8(0), Some(IoOp::Open));
    assert_eq!(IoOp::from_u8(1), Some(IoOp::Read));
    assert_eq!(IoOp::from_u8(2), Some(IoOp::Write));
    assert_eq!(IoOp::from_u8(3), Some(IoOp::Sync));
    assert_eq!(IoOp::from_u8(4), Some(IoOp::Close));
    assert_eq!(IoOp::from_u8(5), None);
    assert_eq!(IoOp::from_u8(255), None);
    assert_eq!(IoOp::Close.to_u8(), 4);
    for v in 0u8..=4 {
        assert_eq!(IoOp::from_u8(v).unwrap().to_u8(), v);
    }
}

#[test]
fn priority_codes_match_wire_values() {
    assert_eq!(IoPriority::from_u8(0), Some(IoPriority::Low));
    assert_eq!(IoPriority::from_u8(1), Some(IoPriority::High));
    assert_eq!(IoPriority::from_u8(2), Some(IoPriority::Critical));
    assert_eq!(IoPriority::from_u8(3), None);
    assert!(IoPriority::Low < IoPriority::High && IoPriority::High < IoPriority::Critical);
    assert_eq!(IoPriority::Critical.to_u8(), 2);
}

#[test]
fn new_request_is_zeroed() {
    let req = IoRequest::new(77, IoOp::Sync, IoPriority::Low);
    assert_eq!(req.id, 77);
    assert_eq!(req.op, 3);
    assert_eq!(req.priority, 0);
    assert_eq!(req.fd, 0);
    assert_eq!(req.offset, 0);
    assert_eq!(req.len, 0);
    assert_eq!(req.data_offset, 0);
    assert!(req.path.iter().all(|&b| b == 0));
    assert_eq!(req.path_str(), "");
}

#[test]
fn set_path_keeps_at_most_255_bytes() {
    let long = "x".repeat(400);
    let mut req = IoRequest::new(1, IoOp::Open, IoPriority::High);
    req.set_path(&long);
    assert_eq!(req.path_str().len(), MAX_PATH_LEN - 1);
    assert_eq!(req.path[MAX_PATH_LEN - 1], 0);
    // a shorter path later overwrites the start and terminates it
    req.set_path("/a");
    assert_eq!(req.path_str(), "/a");
    assert_eq!(req.path[3], b'x');
}

#[test]
fn path_str_of_invalid_utf8_is_empty() {
    let mut req = IoRequest::new(1, IoOp::Open, IoPriority::High);
    req.path[0] = 0xff;
    req.path[1] = 0xfe;
    assert_eq!(req.path_str(), "");
    // a path cut inside a multi-byte character is not UTF-8 either
    let s = format!("{}é", "a".repeat(254));
    req.set_path(&s);
    assert_eq!(req.path_str(), "");
}

#[test]
fn path_without_terminator_uses_whole_buffer() {
    let mut req = IoRequest::new(1, IoOp::Open, IoPriority::High);
    for b in req.path.iter_mut() {
        *b = b'z';
    }
    assert_eq!(req.path_str().len(), MAX_PATH_LEN);
}

#[test]
fn responses_carry_id_and_status() {
    let ok = IoResponse::ok(5);
    assert_eq!((ok.id, ok.status, ok.fd, ok.data_offset, ok.data_len), (5, 0, 0, 0, 0));
    let err = IoResponse::err(6, -2);
    assert_eq!((err.id, err.status, err.fd, err.data_offset, err.data_len), (6, -2, 0, 0, 0));
}

#[test]
fn shm_names_follow_instance_id() {
    assert_eq!(shm_req_name(0), "/atlas_req_0");
    assert_eq!(shm_resp_name(42), "/atlas_resp_42");
    assert_eq!(shm_data_name(4294967295), "/atlas_data_4294967295");
    assert_eq!(shm_req_name(9100), "/atlas_req_9100");
    assert_ne!(shm_req_name(1), shm_req_name(10));
}
