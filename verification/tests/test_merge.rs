use ips2ra::{merge_adjacent, merge_rounds, merge_sequential, sequential_sort_merge};
use ips2ra::{Dma, QueuePair, SortError};
use rand::rngs::StdRng;
use rand::seq::SliceRandom;
use rand::{Rng, SeedableRng};

fn window(count: usize) -> Vec<Dma> {
    (0..count).map(|_| Dma::new(1024)).collect()
}

fn page_aligned(len: usize) -> usize {
    (len + 1023) / 1024 * 1024
}

/// Sorted chunks that interleave: chunk `i` holds the keys `x * chunks + i`.
fn interleaved_chunks(chunk: usize, total_length: usize) -> Vec<u64> {
    let chunks = (total_length + chunk - 1) / chunk;
    let mut image = vec![0u64; 2 * page_aligned(total_length)];
    for i in 0..chunks {
        let size = chunk.min(total_length - i * chunk);
        for x in 0..size {
            image[i * chunk + x] = (x * chunks + i) as u64;
        }
    }
    image
}

#[test]
fn test_merge_sequential() {
    let len = 4096;
    let total_length = len * 5 - 1000;
    let image = interleaved_chunks(len, total_length);
    let mut expected: Vec<u64> = image[..total_length].to_vec();
    expected.sort_unstable();
    let mut qpair = QueuePair::new(image);
    let mut buffers = window(4);
    let mut output_buffer = Dma::new(len);
    merge_sequential(&mut qpair, total_length, &mut buffers, &mut output_buffer);
    let slice = &qpair.image[..total_length];
    for i in 1..slice.len() {
        assert_ne!(slice[i - 1], slice[i], "Duplicate elements at {} and {}", i - 1, i);
    }
    assert_eq!(slice, &expected[..]);
    assert_eq!(qpair.in_flight, 0);
    assert_eq!(buffers.len(), 4);
}

#[test]
fn test_merge_small_sequential() {
    let len = 1024;
    let total_length = len * 5 - 1000;
    let image = interleaved_chunks(len, total_length);
    let mut expected: Vec<u64> = image[..total_length].to_vec();
    expected.sort_unstable();
    let mut qpair = QueuePair::new(image);
    let mut buffers = window(3);
    let mut output_buffer = Dma::new(len);
    merge_sequential(&mut qpair, total_length, &mut buffers, &mut output_buffer);
    assert_eq!(&qpair.image[..total_length], &expected[..]);
}

#[test]
fn one_round_merge_of_two_sorted_chunks() {
    let chunk = 2048;
    let mut image = vec![0u64; 8192];
    for x in 0..chunk {
        image[x] = 2 * x as u64 + 1;
        image[chunk + x] = 2 * x as u64;
    }
    let mut qpair = QueuePair::new(image);
    let mut buffers = window(3);
    let mut output_buffer = Dma::new(chunk);
    merge_sequential(&mut qpair, 2 * chunk, &mut buffers, &mut output_buffer);
    let expected: Vec<u64> = (0..(2 * chunk) as u64).collect();
    assert_eq!(&qpair.image[..2 * chunk], &expected[..]);
}

#[test]
fn merge_adjacent_merges_runs_in_memory() {
    let mut keys: Vec<u64> = vec![1, 4, 9, 2, 3, 10, 0, 7, 0, 0, 0, 0, 0, 0, 0, 0];
    merge_adjacent(&mut keys[..], 0, 8, 3, 8);
    assert_eq!(&keys[8..], &[0, 1, 2, 3, 4, 7, 9, 10]);
    assert_eq!(&keys[..8], &[1, 4, 9, 2, 3, 10, 0, 7]);
}

#[test]
fn merge_rounds_tells_where_the_result_stands() {
    let mut keys: Vec<u64> = vec![5, 6, 1, 2, 3, 4, 0, 9, 0, 0, 0, 0, 0, 0, 0, 0];
    let in_scratch = merge_rounds(&mut keys[..], 8, 2, 8, 2);
    let base = if in_scratch { 8 } else { 0 };
    assert_eq!(&keys[base..base + 8], &[0, 1, 2, 3, 4, 5, 6, 9]);
    // Runs of 2 keys, two at a time: 2 -> 4 -> 8 takes two rounds.
    assert!(!in_scratch);
    let mut single: Vec<u64> = vec![1, 2, 3, 0, 0, 0];
    assert!(!merge_rounds(&mut single[..], 3, 3, 3, 2));
    assert_eq!(&single[..3], &[1, 2, 3]);
}

#[test]
fn sequential_sort_merge_sorts_the_device() {
    let len = 30_000;
    let mut rng = StdRng::seed_from_u64(2024);
    let mut image: Vec<u64> = (0..2 * page_aligned(len) + 2048).map(|_| rng.gen::<u64>()).collect();
    image[..len].shuffle(&mut rng);
    let mut expected = image.clone();
    expected[..len].sort_unstable();
    let scratch = page_aligned(len);
    let sorted =
        sequential_sort_merge(QueuePair::new(image), window(4), Dma::new(2048), len).unwrap();
    assert_eq!(&sorted.image[..len], &expected[..len]);
    // Outside the keys and the scratch half nothing has changed.
    assert_eq!(&sorted.image[len..scratch], &expected[len..scratch]);
    assert_eq!(&sorted.image[scratch + len..], &expected[scratch + len..]);
}

#[test]
fn sequential_sort_merge_rejects_what_it_cannot_do() {
    let device = || QueuePair::new(vec![0u64; 4096]);
    assert_eq!(
        sequential_sort_merge(QueuePair::new(vec![0u64; 64]), window(3), Dma::new(64), 10).err(),
        Some(SortError::BadDevice)
    );
    assert_eq!(
        sequential_sort_merge(device(), window(3), Dma::new(64), 3000).err(),
        Some(SortError::OutOfRange)
    );
    assert_eq!(
        sequential_sort_merge(device(), window(2), Dma::new(64), 10).err(),
        Some(SortError::BadBuffers)
    );
    assert_eq!(
        sequential_sort_merge(device(), window(3), Dma::new(65), 10).err(),
        Some(SortError::BadBuffers)
    );
    assert!(sequential_sort_merge(device(), window(3), Dma::new(64), 2048).is_ok());
}
