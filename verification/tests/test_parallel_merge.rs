use ips2ra::{
    compute_local_separators, cut_index, merge_group_parallel, merge_parallel,
    parallel_sort_merge, prepare_thread_merge, sequential_sort_merge, sort_merge,
    transform_indices_to_ranges,
};
use ips2ra::{Dma, QueuePair, SortError, NUM_THREADS};
use rand::rngs::StdRng;
use rand::seq::SliceRandom;
use rand::{Rng, SeedableRng};

fn window(count: usize) -> Vec<Dma> {
    (0..count).map(|_| Dma::new(1024)).collect()
}

fn page_aligned(len: usize) -> usize {
    (len + 1023) / 1024 * 1024
}

#[test]
fn local_separators_are_taken_at_equal_distances() {
    let input: Vec<u64> = (0..100).map(|x| x * 10).collect();
    assert_eq!(compute_local_separators(&input, 3), vec![250, 500, 750]);
    assert_eq!(compute_local_separators(&input, 0), Vec::<u64>::new());
    assert_eq!(compute_local_separators(&[7, 8, 9], 7), vec![7; 7]);
    assert_eq!(compute_local_separators(&[], 0), Vec::<u64>::new());
}

#[test]
fn indices_become_one_range_of_every_run_for_every_worker() {
    let local_indices = vec![vec![2048, 4096, 6144], vec![4096, 8192, 12288]];
    let ranges = transform_indices_to_ranges(&local_indices, 16384, 4, 15000);
    assert_eq!(
        ranges,
        vec![
            vec![(0, 2048), (0, 4096)],
            vec![(2048, 4096), (4096, 8192)],
            vec![(4096, 6144), (8192, 12288)],
            vec![(6144, 16384), (12288, 15000)],
        ]
    );
    let single = transform_indices_to_ranges(&vec![vec![], vec![]], 10, 1, 4);
    assert_eq!(single, vec![vec![(0, 10), (0, 4)]]);
}

#[test]
fn cut_index_counts_the_keys_not_above_the_separator() {
    let mut keys: Vec<u64> = vec![9, 9, 1, 3, 3, 3, 8, 20, 0, 0];
    assert_eq!(cut_index(&mut keys[..], 2, 8, 3), 6);
    assert_eq!(cut_index(&mut keys[..], 2, 8, 0), 2);
    assert_eq!(cut_index(&mut keys[..], 2, 8, 2), 3);
    assert_eq!(cut_index(&mut keys[..], 2, 8, 20), 8);
    assert_eq!(cut_index(&mut keys[..], 2, 8, u64::MAX), 8);
    assert_eq!(cut_index(&mut keys[..], 4, 4, 5), 4);
}

#[test]
fn group_merge_with_workers_gives_the_merged_runs() {
    let mut rng = StdRng::seed_from_u64(5);
    for workers in 1..6 {
        let run = 37;
        let total = 4 * run - 11;
        let mut keys: Vec<u64> = (0..total).map(|_| rng.gen_range(0..50u64)).collect();
        for chunk in keys.chunks_mut(run) {
            chunk.sort_unstable();
        }
        let mut expected = keys.clone();
        expected.sort_unstable();
        let input = keys.clone();
        keys.extend(std::iter::repeat(0).take(total));
        merge_group_parallel(&mut keys[..], 0, total, run, total, workers);
        assert_eq!(&keys[total..], &expected[..]);
        assert_eq!(&keys[..total], &input[..]);
    }
}

#[test]
fn merge_parallel_merges_runs_on_the_device() {
    let run = 500;
    let len = 7 * run + 123;
    let mut rng = StdRng::seed_from_u64(77);
    let mut image: Vec<u64> = (0..2 * page_aligned(len)).map(|_| rng.gen::<u64>() % 1000).collect();
    for chunk in image[..len].chunks_mut(run) {
        chunk.sort_unstable();
    }
    let mut expected: Vec<u64> = image[..len].to_vec();
    expected.sort_unstable();
    let mut qpair = QueuePair::new(image);
    let mut buffers = window(5);
    merge_parallel(&mut qpair, &mut buffers, len, run, 3);
    assert_eq!(&qpair.image[..len], &expected[..]);
}

#[test]
fn parallel_and_sequential_sort_merge_agree() {
    let len = 20_000;
    let chunks = NUM_THREADS;
    let mut rng = StdRng::seed_from_u64(31);
    let mut image: Vec<u64> = vec![0; 2 * page_aligned(len)];
    // One random permutation for every chunk that a worker sorts.
    let chunk = 2560;
    for (i, part) in image[..len].chunks_mut(chunk).enumerate() {
        let mut keys: Vec<u64> = (0..part.len() as u64).map(|x| x * chunks as u64 + i as u64).collect();
        keys.shuffle(&mut rng);
        part.copy_from_slice(&keys);
    }
    let sequential =
        sequential_sort_merge(QueuePair::new(image.clone()), window(4), Dma::new(chunk), len)
            .unwrap();
    let parallel = parallel_sort_merge(
        QueuePair::new(image.clone()),
        window(NUM_THREADS + 1),
        Dma::new(chunk),
        len,
    )
    .unwrap();
    assert_eq!(&sequential.image[..len], &parallel.image[..len]);
    let mut expected: Vec<u64> = image[..len].to_vec();
    expected.sort_unstable();
    assert_eq!(&parallel.image[..len], &expected[..]);
    let by_flag = sort_merge(
        QueuePair::new(image.clone()),
        window(NUM_THREADS + 1),
        Dma::new(chunk),
        len,
        true,
    )
    .unwrap();
    assert_eq!(by_flag.image, parallel.image);
}

#[test]
fn parallel_sort_merge_needs_a_buffer_for_every_worker() {
    let device = || QueuePair::new(vec![0u64; 4096]);
    assert_eq!(
        parallel_sort_merge(device(), window(NUM_THREADS), Dma::new(64), 10).err(),
        Some(SortError::BadBuffers)
    );
    assert!(parallel_sort_merge(device(), window(NUM_THREADS + 1), Dma::new(64), 10).is_ok());
    assert_eq!(
        sort_merge(device(), window(3), Dma::new(64), 10, true).err(),
        Some(SortError::BadBuffers)
    );
    assert!(sort_merge(device(), window(3), Dma::new(64), 10, false).is_ok());
}

#[test]
fn any_ascending_separators_give_the_merged_runs() {
    let mut rng = StdRng::seed_from_u64(9);
    let run = 50;
    let total = 5 * run - 20;
    let mut runs: Vec<u64> = (0..total).map(|_| rng.gen_range(0..200u64)).collect();
    for chunk in runs.chunks_mut(run) {
        chunk.sort_unstable();
    }
    let mut expected = runs.clone();
    expected.sort_unstable();
    for separators in [
        vec![],
        vec![100],
        vec![0, 0, 0],
        vec![u64::MAX; 4],
        vec![10, 10, 150, 199, 500],
        vec![60, 120, 180],
    ] {
        let mut keys = vec![7u64; 10];
        keys.extend_from_slice(&runs);
        keys.extend(std::iter::repeat(0).take(total + 5));
        prepare_thread_merge(&mut keys[..], &separators, 10, 10 + total, run, 10 + total + 2);
        assert_eq!(&keys[..10], &[7u64; 10][..]);
        assert_eq!(&keys[10..10 + total], &runs[..]);
        assert_eq!(&keys[10 + total..10 + total + 2], &[0u64, 0][..]);
        assert_eq!(&keys[10 + total + 2..10 + 2 * total + 2], &expected[..]);
        assert_eq!(&keys[10 + 2 * total + 2..], &[0u64, 0, 0][..]);
    }
}
