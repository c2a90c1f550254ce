use ips2ra::parallel::sort_parts;
use ips2ra::{parallel_rec_keys, sort, sort_parallel};
use rand::rngs::StdRng;
use rand::seq::SliceRandom;
use rand::{Rng, SeedableRng};

#[test]
fn sort_parallel_sorts_shuffled_keys() {
    let mut arr: Vec<u64> = (1..=100_000).collect();
    arr.shuffle(&mut StdRng::seed_from_u64(12345));
    sort_parallel(&mut arr);
    let expected: Vec<u64> = (1..=100_000).collect();
    assert_eq!(arr, expected);
}

#[test]
fn sequential_and_parallel_sorting_agree() {
    let mut rng = StdRng::seed_from_u64(4711);
    for n in [0usize, 1, 2, 127, 128, 129, 1000, 40_000] {
        let input: Vec<u64> = (0..n).map(|_| rng.gen::<u64>() >> rng.gen_range(0..64)).collect();
        let mut sequential = input.clone();
        let mut parallel = input.clone();
        sort(&mut sequential);
        sort_parallel(&mut parallel);
        assert_eq!(sequential, parallel, "n = {}", n);
        let mut expected = input;
        expected.sort_unstable();
        assert_eq!(sequential, expected, "n = {}", n);
    }
}

#[test]
fn parallel_recursion_sorts_from_a_given_level() {
    // Keys that differ in the two lowest bytes only.
    let mut rng = StdRng::seed_from_u64(3);
    let mut arr: Vec<u64> = (0..5000).map(|_| 0xaabb_0000_0000_0000 | rng.gen_range(0..65536u64)).collect();
    let mut expected = arr.clone();
    expected.sort_unstable();
    parallel_rec_keys(&mut arr, 6, 8);
    assert_eq!(arr, expected);
}

#[test]
fn parts_are_sorted_each_in_its_place() {
    let mut keys: Vec<u64> = vec![5, 3, 9, 8, 1, 7, 2];
    sort_parts(&mut keys[..], &vec![3, 0, 4], 0, 3, 0, 8);
    assert_eq!(keys, vec![3, 5, 9, 1, 2, 7, 8]);

    let mut middle: Vec<u64> = vec![4, 1, 9, 8, 7];
    sort_parts(&mut middle[..], &vec![10, 2, 3, 99], 1, 3, 0, 8);
    assert_eq!(middle, vec![1, 4, 7, 8, 9]);

    let mut none: Vec<u64> = vec![];
    sort_parts(&mut none[..], &vec![6, 6], 1, 1, 0, 8);
    assert!(none.is_empty());

    let mut rng = StdRng::seed_from_u64(21);
    let sizes: Vec<usize> = (0..256).map(|_| rng.gen_range(0..300)).collect();
    let total: usize = sizes.iter().sum();
    let mut many: Vec<u64> = (0..total).map(|_| rng.gen::<u64>()).collect();
    let mut expected = many.clone();
    let mut at = 0;
    for size in &sizes {
        expected[at..at + size].sort_unstable();
        at += size;
    }
    sort_parts(&mut many[..], &sizes, 0, 256, 0, 8);
    assert_eq!(many, expected);
}
