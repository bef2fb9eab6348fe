use rustflow::buffers::ChunkBuffer;
use rustflow::partitioner::{DynamicPartitioner, GuidedPartitioner, PartitionState, Partitioner, StaticPartitioner};

#[test]
fn test_new_uninit() {
    let buf: ChunkBuffer<u64> = ChunkBuffer::new_uninit(10);
    assert_eq!(buf.len(), 10);
    assert!(!buf.is_empty());
}

#[test]
fn test_new_initialized() {
    let buf: ChunkBuffer<u64> = ChunkBuffer::new(5, 42);
    assert_eq!(buf.len(), 5);
}

#[test]
fn test_write_and_into_inner() {
    let mut buf: ChunkBuffer<u64> = ChunkBuffer::new_uninit(3);
    buf.write(0, 1);
    buf.write(1, 2);
    buf.write(2, 3);
    let vec = buf.into_inner_assume_init();
    assert_eq!(vec, vec![1, 2, 3]);
}

#[test]
fn test_dynamic_partitioner() {
    let mut state = PartitionState::new(100);
    let mut partitioner = DynamicPartitioner::new(10);

    let mut claimed = Vec::new();
    while let Some(chunk) = partitioner.next_chunk(&mut state) {
        claimed.push(chunk);
    }

    assert_eq!(claimed.len(), 10);
    for (i, chunk) in claimed.iter().enumerate() {
        assert_eq!(*chunk, (i * 10)..((i + 1) * 10).min(100));
    }
}

#[test]
fn test_dynamic_partitioner_partial() {
    let mut state = PartitionState::new(95);
    let mut partitioner = DynamicPartitioner::new(10);

    let mut claimed = Vec::new();
    while let Some(chunk) = partitioner.next_chunk(&mut state) {
        claimed.push(chunk);
    }

    assert_eq!(claimed.len(), 10);
    assert_eq!(claimed.last().unwrap().end, 95);
}

#[test]
fn test_guided_partitioner() {
    let mut state = PartitionState::new(100);
    let mut partitioner = GuidedPartitioner::new(5);

    let mut claimed = Vec::new();
    while let Some(chunk) = partitioner.next_chunk(&mut state) {
        claimed.push(chunk);
    }

    // First chunk should be large (remaining/2)
    assert!(claimed[0].len() >= 25); // First chunk is ~50

    // Verify all elements covered
    let total: usize = claimed.iter().map(|c| c.len()).sum();
    assert_eq!(total, 100);
}

#[test]
fn guided_partitioner_halves_the_remaining_work() {
    let mut state = PartitionState::new(100);
    let mut partitioner = GuidedPartitioner::new(5);
    let first = partitioner.next_chunk(&mut state).unwrap();
    assert_eq!(first, 0..50);
    let second = partitioner.next_chunk(&mut state).unwrap();
    assert_eq!(second, 50..75);
}

#[test]
fn static_partitioner_hands_out_its_chunks_in_order() {
    let mut state = PartitionState::new(10);
    let mut partitioner = StaticPartitioner::new(vec![0..4, 4..7, 7..10]);
    assert_eq!(partitioner.next_chunk(&mut state), Some(0..4));
    assert_eq!(partitioner.next_chunk(&mut state), Some(4..7));
    assert_eq!(partitioner.next_chunk(&mut state), Some(7..10));
    assert_eq!(partitioner.next_chunk(&mut state), None);
}

#[test]
fn chunk_buffer_read_returns_written_value() {
    let mut buf: ChunkBuffer<u64> = ChunkBuffer::new_uninit(2);
    buf.write(1, 9);
    assert_eq!(buf.read(1), 9);
}

#[test]
fn parallel_for_chunks_respect_explicit_chunk_size() {
    let options = rustflow::parallel_for::ParallelForOptions::default().with_chunk_size(3);
    let chunks = rustflow::parallel_for::chunk_ranges_for_workers(0..10, options, 2);
    assert_eq!(chunks, vec![0..3, 3..6, 6..9, 9..10]);
}

#[test]
fn parallel_for_chunks_visit_each_index_once() {
    let options = rustflow::parallel_for::ParallelForOptions::default();
    let chunks = rustflow::parallel_for::chunk_ranges_for_workers(0..128, options, 4);
    let mut hits = vec![0usize; 128];
    for chunk in &chunks {
        for i in chunk.clone() {
            hits[i] += 1;
        }
    }
    assert!(hits.iter().all(|&h| h == 1));
    assert_eq!(chunks.len(), 16);
}

#[test]
fn parallel_for_chunks_of_an_empty_range() {
    let options = rustflow::parallel_for::ParallelForOptions::default();
    assert!(rustflow::parallel_for::chunk_ranges_for_workers(5..5, options, 4).is_empty());
    assert!(rustflow::parallel_for::chunk_ranges_for_workers(7..3, options, 4).is_empty());
}

#[test]
fn dynamic_claims_tile_the_range_in_ceiling_many_chunks() {
    let mut state = PartitionState::new(10);
    let mut partitioner = DynamicPartitioner::new(3);
    let mut claimed = Vec::new();
    while let Some(chunk) = partitioner.next_chunk(&mut state) {
        claimed.push(chunk);
    }
    assert_eq!(claimed, vec![0..3, 3..6, 6..9, 9..10]);
}

#[test]
fn chunk_buffer_keeps_the_last_write_per_slot() {
    let mut buffer = ChunkBuffer::new(4, 0u32);
    buffer.write(1, 5);
    buffer.write(3, 7);
    buffer.write(1, 9);
    assert_eq!(buffer.into_inner(), vec![Some(0), Some(9), Some(0), Some(7)]);
}
