use ips2ra::sort;
use rand::rngs::StdRng;
use rand::seq::SliceRandom;
use rand::{Rng, SeedableRng};

const SEED: u64 = 12345;
const NUM_RUNS: usize = 4;
const MAX_ELEMENTS: usize = 2 * 1024 * 1024 / 8;

fn verify_sorted(arr: &Vec<u64>) {
    for i in 1..arr.len() {
        assert!(
            arr[i - 1] <= arr[i],
            "Array not sorted! {} (i={}) > {} (i={}). Seed: {}",
            arr[i - 1],
            i - 1,
            arr[i],
            i,
            SEED
        );
    }
}

#[test]
fn test_sort_small_sequential() {
    let mut arr: Vec<u64> = (1..=8192).collect();
    arr.shuffle(&mut StdRng::seed_from_u64(SEED));
    sort(&mut arr);
    verify_sorted(&arr);
}

#[test]
fn big_sequential() {
    let mut arr: Vec<u64> = (1..=MAX_ELEMENTS as u64).collect();
    arr.shuffle(&mut StdRng::seed_from_u64(SEED));
    sort(&mut arr);
    verify_sorted(&arr);
}

#[test]
fn random_sequential() {
    let mut rng = StdRng::seed_from_u64(SEED);
    for i in 0..NUM_RUNS {
        let n = rng.gen_range(1..MAX_ELEMENTS);
        println!("i={i}, n={n}");
        let mut shuffel_rng = StdRng::seed_from_u64(SEED + i as u64);
        let mut arr: Vec<u64> = (0..n).map(|_| shuffel_rng.gen_range(0..u64::MAX)).collect();
        sort(&mut arr);
        verify_sorted(&arr);
    }
}
