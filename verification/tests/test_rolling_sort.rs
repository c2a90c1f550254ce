use ips2ra::{rolling_sort, Dma, QueuePair, SortError};
use rand::rngs::StdRng;
use rand::seq::SliceRandom;
use rand::{Rng, SeedableRng};

fn window(count: usize) -> Vec<Dma> {
    (0..count).map(|_| Dma::new(1024)).collect()
}

fn is_ascending(keys: &[u64]) -> bool {
    keys.windows(2).all(|pair| pair[0] <= pair[1])
}

#[test]
fn rolling_sort_sorts_a_shuffled_device() {
    let len = 200_000;
    let pages = (len + 1023) / 1024;
    let mut image: Vec<u64> = (0..(pages * 1024) as u64).map(|x| x * 3).collect();
    image[..len].shuffle(&mut StdRng::seed_from_u64(7));
    let mut expected = image.clone();
    expected[..len].sort_unstable();
    let qpair = QueuePair::new(image);
    let sorted = rolling_sort(qpair, window(8), Dma::new(4096), len, false).unwrap();
    assert_eq!(sorted.image, expected);
    assert_eq!(sorted.in_flight, 0);
}

#[test]
fn rolling_sort_with_full_range_keys_and_tiny_sort_buffer() {
    let len = 50_000;
    let pages = (len + 1023) / 1024;
    let mut rng = StdRng::seed_from_u64(99);
    let image: Vec<u64> = (0..pages * 1024).map(|_| rng.gen::<u64>()).collect();
    let mut expected = image.clone();
    expected[..len].sort_unstable();
    let qpair = QueuePair::new(image);
    let sorted = rolling_sort(qpair, window(2), Dma::new(64), len, false).unwrap();
    assert!(is_ascending(&sorted.image[..len]));
    assert_eq!(sorted.image, expected);
}

#[test]
fn rolling_sort_leaves_the_rest_of_the_device_alone() {
    let mut image: Vec<u64> = (0..4096u64).rev().collect();
    let tail: Vec<u64> = image[1000..].to_vec();
    let qpair = QueuePair::new(image.clone());
    let sorted = rolling_sort(qpair, window(3), Dma::new(2048), 1000, false).unwrap();
    image[..1000].sort_unstable();
    assert_eq!(&sorted.image[..1000], &image[..1000]);
    assert_eq!(&sorted.image[1000..], &tail[..]);
}

#[test]
fn rolling_sort_rejects_what_it_cannot_do() {
    let device = || QueuePair::new(vec![0u64; 2048]);
    assert_eq!(
        rolling_sort(device(), window(2), Dma::new(64), 10, true).err(),
        Some(SortError::Unsupported)
    );
    assert_eq!(
        rolling_sort(QueuePair::new(vec![0u64; 64]), window(2), Dma::new(64), 10, false).err(),
        Some(SortError::BadDevice)
    );
    assert_eq!(
        rolling_sort(device(), window(2), Dma::new(64), 2049, false).err(),
        Some(SortError::OutOfRange)
    );
    assert_eq!(
        rolling_sort(device(), Vec::new(), Dma::new(64), 10, false).err(),
        Some(SortError::BadBuffers)
    );
    assert_eq!(
        rolling_sort(device(), vec![Dma::new(1024), Dma::new(512)], Dma::new(64), 10, false).err(),
        Some(SortError::BadBuffers)
    );
}
