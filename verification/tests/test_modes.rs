use ips2ra::{rolling_sort, setup_array, sort, sort_merge, sort_parallel, u64_to_u8_slice};
use ips2ra::{Dma, QueuePair, NUM_THREADS};
use rand::rngs::StdRng;
use rand::{Rng, SeedableRng};

fn pages(count: usize) -> Vec<Dma> {
    (0..count).map(|_| Dma::new(1024)).collect()
}

/// A device with room for the keys and for a merge behind them, which holds
/// the keys at its front.
fn device_with(keys: &[u64]) -> QueuePair {
    let room = (keys.len() + 1023) / 1024 * 1024;
    let mut qpair = QueuePair::new(vec![0u64; 2 * room]);
    setup_array(keys, &mut qpair);
    qpair
}

fn all_modes_agree_on(input: &[u64]) {
    let len = input.len();
    let mut sequential = input.to_vec();
    sort(&mut sequential);
    let mut parallel = input.to_vec();
    sort_parallel(&mut parallel);
    let rolled = rolling_sort(device_with(input), pages(4), Dma::new(2048), len, false).unwrap();
    let merged = sort_merge(device_with(input), pages(4), Dma::new(2048), len, false).unwrap();
    let merged_by_workers =
        sort_merge(device_with(input), pages(NUM_THREADS + 1), Dma::new(2048), len, true).unwrap();

    let mut expected = input.to_vec();
    expected.sort_unstable();
    let bytes = u64_to_u8_slice(&expected);
    assert_eq!(u64_to_u8_slice(&sequential), bytes);
    assert_eq!(u64_to_u8_slice(&parallel), bytes);
    assert_eq!(u64_to_u8_slice(&rolled.image[..len]), bytes);
    assert_eq!(u64_to_u8_slice(&merged.image[..len]), bytes);
    assert_eq!(u64_to_u8_slice(&merged_by_workers.image[..len]), bytes);
}

#[test]
fn all_modes_give_the_same_bytes() {
    let mut rng = StdRng::seed_from_u64(2024);
    let wide: Vec<u64> = (0..30_000).map(|_| rng.gen::<u64>()).collect();
    all_modes_agree_on(&wide);
    let narrow: Vec<u64> = (0..30_000).map(|_| rng.gen_range(0..1000u64)).collect();
    all_modes_agree_on(&narrow);
    let few: Vec<u64> = (0..100).map(|_| rng.gen::<u64>() >> 40).collect();
    all_modes_agree_on(&few);
}

#[test]
fn all_modes_leave_sorted_keys_as_they_are() {
    let sorted: Vec<u64> = (0..20_000).map(|x| x * x).collect();
    all_modes_agree_on(&sorted);
    let len = sorted.len();
    let rolled = rolling_sort(device_with(&sorted), pages(4), Dma::new(2048), len, false).unwrap();
    assert_eq!(&rolled.image[..len], &sorted[..]);
    let merged = sort_merge(device_with(&sorted), pages(4), Dma::new(2048), len, false).unwrap();
    assert_eq!(&merged.image[..len], &sorted[..]);
}
