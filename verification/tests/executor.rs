use atlas::executor::{next_chunk, record_completions};

#[test]
fn chunks_cover_the_batch_within_capacity() {
    let mut chunks = Vec::new();
    let mut i = 0;
    while let Some((start, end)) = next_chunk(i, 10, 4) {
        chunks.push((start, end));
        i = end;
    }
    assert_eq!(chunks, vec![(0, 4), (4, 8), (8, 10)]);
    assert_eq!(next_chunk(0, 3, 8), Some((0, 3)));
    assert_eq!(next_chunk(3, 3, 8), None);
}

#[test]
fn completions_fill_their_own_slots() {
    // a chunk of three ops starting at op 5 of the batch
    let mut results = vec![0i64, 0, 0];
    let comps = vec![(6u64, 100i32), (2, 7), (5, -5), (6, 3), (8, 1)];
    record_completions(&mut results, 5, &comps);
    // tag 2 and tag 8 fall outside the chunk; the later completion of tag 6 wins
    assert_eq!(results, vec![-5, 3, 0]);
}
