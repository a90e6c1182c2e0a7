use atlas::spsc::{
    attach_status, init_status, AttachStatus, Consumer, InitStatus, Producer, RingFull, SpscRing,
    MAGIC,
};

#[test]
fn single_push_pop() {
    let mut ring = SpscRing::<u64, 16>::zeroed(0);
    ring.init_in_place();
    let mut p = Producer::new(&ring);
    let mut c = Consumer::new(&ring);
    p.push(&mut ring, &42).unwrap();
    assert_eq!(c.pop(&mut ring), Some(42));
    assert_eq!(c.pop(&mut ring), None);
}

#[test]
fn fill_then_drain() {
    let mut ring = SpscRing::<u64, 4>::zeroed(0);
    ring.init_in_place();
    let mut p = Producer::new(&ring);
    let mut c = Consumer::new(&ring);
    for i in 0..4 {
        p.push(&mut ring, &i).unwrap();
    }
    assert_eq!(p.push(&mut ring, &99), Err(RingFull));
    for i in 0..4 {
        assert_eq!(c.pop(&mut ring), Some(i));
    }
    assert_eq!(c.pop(&mut ring), None);
    // Wraparound
    for i in 10..14 {
        p.push(&mut ring, &i).unwrap();
    }
    for i in 10..14 {
        assert_eq!(c.pop(&mut ring), Some(i));
    }
}

#[test]
fn attach_validates_magic() {
    let mut ring = SpscRing::<u64, 8>::zeroed(0);
    assert_eq!(ring.attach(), Err("uninitialized"));
    ring.init_in_place();
    ring.attach().unwrap();
    let mut p = Producer::new(&ring);
    let mut c = Consumer::new(&ring);
    p.push(&mut ring, &7).unwrap();
    assert_eq!(c.pop(&mut ring), Some(7));
}

#[test]
fn reinit_keeps_queued_items() {
    let mut ring = SpscRing::<u32, 8>::zeroed(0);
    ring.init_in_place();
    let mut p = Producer::new(&ring);
    p.push(&mut ring, &5).unwrap();
    ring.init_in_place();
    let mut c = Consumer::new(&ring);
    assert_eq!(c.pop(&mut ring), Some(5));
}

#[test]
fn header_classification() {
    assert_eq!(attach_status(MAGIC, 8, 8), AttachStatus::Ready);
    assert_eq!(attach_status(MAGIC, 4, 8), AttachStatus::Failed("capacity mismatch"));
    assert_eq!(attach_status(123, 8, 8), AttachStatus::Failed("corrupt magic"));
    assert_eq!(attach_status(0, 0, 8), AttachStatus::Pending);
    assert_eq!(init_status(0, 0, 8), InitStatus::Fresh);
    assert_eq!(init_status(MAGIC, 8, 8), InitStatus::Ready);
    assert_eq!(init_status(MAGIC, 16, 8), InitStatus::CapacityMismatch);
    assert_eq!(init_status(1, 8, 8), InitStatus::CorruptMagic);
}

#[test]
fn size_bytes_covers_header_and_slots() {
    assert_eq!(SpscRing::<u64, 16>::size_bytes(), 512);
    assert_eq!(SpscRing::<u8, 4>::size_bytes(), 512);
    assert_eq!(SpscRing::<[u8; 296], 4096>::size_bytes(), 384 + 296 * 4096);
    assert_eq!(SpscRing::<[u8; 32], 4096>::size_bytes(), 384 + 32 * 4096);
}

#[test]
fn cursor_steps_drive_a_push() {
    // The cached head says full; after a refresh the slot and tail follow.
    let mut p = Producer::<u64, 4>::with_counters(4, 0);
    assert!(p.must_refresh());
    p.refresh(1);
    assert!(!p.must_refresh());
    assert_eq!(p.slot(), 0);
    assert_eq!(p.advance(), 5);
    let mut c = Consumer::<u64, 4>::with_counters(1, 1);
    assert!(c.must_refresh());
    c.refresh(5);
    assert!(!c.must_refresh());
    assert_eq!(c.slot(), 1);
    assert_eq!(c.advance(), 2);
}

#[test]
fn counters_wrap_around_usize() {
    let mut p = Producer::<u64, 8>::with_counters(usize::MAX, usize::MAX - 3);
    assert!(!p.must_refresh());
    assert_eq!(p.slot(), 7);
    assert_eq!(p.advance(), 0);
    assert_eq!(p.slot(), 0);
    assert!(!p.must_refresh());
}

#[test]
fn interleaved_pushes_and_pops_stay_fifo() {
    let mut ring = SpscRing::<u64, 8>::zeroed(0);
    ring.init_in_place();
    let mut p = Producer::new(&ring);
    let mut c = Consumer::new(&ring);
    let mut next_in = 0u64;
    let mut next_out = 0u64;
    for round in 0..200u64 {
        for _ in 0..(round % 5) {
            if p.push(&mut ring, &next_in).is_ok() {
                next_in += 1;
            }
        }
        for _ in 0..(round % 3) {
            if let Some(v) = c.pop(&mut ring) {
                assert_eq!(v, next_out);
                next_out += 1;
            }
        }
        assert!(next_in - next_out <= 8);
    }
}
