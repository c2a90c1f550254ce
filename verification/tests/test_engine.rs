use ips2ra::sampling::{
    draw_sample, floor_log2, front_levels, get_levels_keys, place_sample_key, restore_sample,
    reverse_keys, sample_count, select_sample_keys, settle_levels,
};
use ips2ra::{find_bucket_ips2ra, insertion_sort2, is_power_of_two, sort};
use ips2ra::{IPS2RaSorter, Task, BLOCKSIZE, K, THRESHOLD};
use rand::rngs::StdRng;
use rand::seq::SliceRandom;
use rand::{Rng, SeedableRng};

fn sorted_copy(keys: &[u64]) -> Vec<u64> {
    let mut copy = keys.to_vec();
    copy.sort_unstable();
    copy
}

#[test]
fn reverse_sorted_keys_come_out_ascending() {
    let mut arr: Vec<u64> = (1..=64).rev().collect();
    sort(&mut arr);
    assert_eq!(arr, (1..=64).collect::<Vec<u64>>());
}

#[test]
fn equal_keys_stay_as_they_are() {
    let mut arr = vec![42u64; 1000];
    sort(&mut arr);
    assert_eq!(arr, vec![42u64; 1000]);
}

#[test]
fn a_single_key_stays_as_it_is() {
    let mut arr = vec![7u64];
    sort(&mut arr);
    assert_eq!(arr, vec![7]);
    let mut none: Vec<u64> = Vec::new();
    sort(&mut none);
    assert!(none.is_empty());
}

#[test]
fn sorted_keys_stay_as_they_are() {
    let mut arr: Vec<u64> = (0..10_000).map(|x| x * x).collect();
    let expected = arr.clone();
    sort(&mut arr);
    assert_eq!(arr, expected);
}

#[test]
fn one_block_for_every_bucket_leaves_nothing_staged() {
    let n = BLOCKSIZE * K;
    let mut arr: Vec<u64> = (0..n as u64).collect();
    arr.shuffle(&mut StdRng::seed_from_u64(12345));
    {
        let mut classified = arr.clone();
        let mut sorter = IPS2RaSorter::new_sequential();
        let mut task = Task::new(&mut classified, 6, 8);
        sorter.classify(&mut task);
        assert!(sorter.block_counts.iter().all(|&staged| staged == 0));
        assert_eq!(sorter.classified_elements, n);
        assert_eq!(sorter.element_counts.iter().sum::<u64>(), n as u64);
        for bucket in 0..K {
            let expected = if bucket < n / 256 { 256 } else { 0 };
            assert_eq!(sorter.element_counts[bucket], expected);
        }
        assert!(!sorter.overflow);
    }
    sort(&mut arr);
    assert_eq!(arr, (0..n as u64).collect::<Vec<u64>>());
}

#[test]
fn duplicate_heavy_keys_are_sorted() {
    let mut rng = StdRng::seed_from_u64(8);
    let mut arr: Vec<u64> = (0..50_000).map(|_| rng.gen_range(0..7u64) << 40).collect();
    let expected = sorted_copy(&arr);
    sort(&mut arr);
    assert_eq!(arr, expected);
}

#[test]
fn bucket_is_the_byte_at_the_level() {
    let key = 0x0102_0304_0506_0708u64;
    for level in 0..8 {
        assert_eq!(find_bucket_ips2ra(key, level), level + 1);
    }
    assert_eq!(find_bucket_ips2ra(u64::MAX, 0), 255);
    assert_eq!(find_bucket_ips2ra(0xff00, 6), 255);
    assert_eq!(find_bucket_ips2ra(0xff00, 7), 0);
}

#[test]
fn blocks_are_aligned_upwards() {
    assert_eq!(IPS2RaSorter::align_to_next_block(0), 0);
    assert_eq!(IPS2RaSorter::align_to_next_block(1), BLOCKSIZE);
    assert_eq!(IPS2RaSorter::align_to_next_block(BLOCKSIZE), BLOCKSIZE);
    assert_eq!(IPS2RaSorter::align_to_next_block(BLOCKSIZE + 1), 2 * BLOCKSIZE);
    let last = usize::MAX - (BLOCKSIZE - 1);
    assert_eq!(IPS2RaSorter::align_to_next_block(last), last);
    assert_eq!(IPS2RaSorter::align_to_next_block(last - 1), last);
}

#[test]
fn overflow_bucket_is_the_last_with_a_full_block() {
    let mut boundaries = [0u64; 257];
    assert_eq!(IPS2RaSorter::compute_overflow_bucket(&boundaries), 0);
    // Bucket 3 holds 200 keys, bucket 9 holds 128, bucket 200 holds 127.
    for b in 0..257 {
        boundaries[b] = (if b > 3 { 200 } else { 0 }) + (if b > 9 { 128 } else { 0 })
            + (if b > 200 { 127 } else { 0 });
    }
    assert_eq!(IPS2RaSorter::compute_overflow_bucket(&boundaries), 9);
}

/// Runs the three phases of one round and checks what each of them leaves.
fn check_round(input: &[u64], level: usize, level_end: usize) -> bool {
    let mut arr = input.to_vec();
    let n = arr.len();
    let mut counts = [0u64; 256];
    for &key in input {
        counts[find_bucket_ips2ra(key, level)] += 1;
    }
    let mut sorter = IPS2RaSorter::new_sequential();
    let mut task = Task::new(&mut arr, level, level_end);
    sorter.classify(&mut task);
    assert_eq!(sorter.element_counts, counts);
    for b in 0..K {
        assert_eq!(sorter.block_counts[b] as u64, counts[b] % BLOCKSIZE as u64);
        for j in 0..sorter.block_counts[b] {
            assert_eq!(find_bucket_ips2ra(sorter.blocks[b][j], level), b);
        }
    }
    let flushed: u64 = counts.iter().map(|c| c / BLOCKSIZE as u64 * BLOCKSIZE as u64).sum();
    assert_eq!(sorter.classified_elements as u64, flushed);
    for block in task.arr[..sorter.classified_elements].chunks(BLOCKSIZE) {
        let bucket = find_bucket_ips2ra(block[0], level);
        assert!(block.iter().all(|&key| find_bucket_ips2ra(key, level) == bucket));
    }
    sorter.permutate_blocks(&mut task);
    let mut sum = 0;
    for b in 0..K {
        assert_eq!(sorter.boundaries[b], sum);
        let start = IPS2RaSorter::align_to_next_block(sum as usize);
        let full = (counts[b] / BLOCKSIZE as u64) as usize * BLOCKSIZE;
        assert_eq!(sorter.pointers[b].0, (start + full) as i64);
        let cap = n / BLOCKSIZE * BLOCKSIZE;
        for p in start..(start + full).min(cap) {
            assert_eq!(find_bucket_ips2ra(task.arr[p], level), b);
        }
        sum += counts[b];
    }
    assert_eq!(sorter.boundaries[K], n as u64);
    let overflowed = sorter.overflow;
    if overflowed {
        let owner = IPS2RaSorter::compute_overflow_bucket(&sorter.boundaries);
        assert!(sorter.overflow_buffer.iter().all(|&key| find_bucket_ips2ra(key, level) == owner));
    }
    sorter.cleanup(&mut task);
    assert!(sorter.block_counts.iter().all(|&staged| staged == 0));
    for b in 0..K {
        let region = &task.arr[sorter.boundaries[b] as usize..sorter.boundaries[b + 1] as usize];
        assert!(region.iter().all(|&key| find_bucket_ips2ra(key, level) == b));
        if level + 1 != level_end && region.len() <= THRESHOLD {
            assert!(region.windows(2).all(|pair| pair[0] <= pair[1]));
        }
    }
    assert_eq!(sorted_copy(task.arr), sorted_copy(input));
    overflowed
}

#[test]
fn a_round_partitions_random_keys() {
    let mut rng = StdRng::seed_from_u64(1);
    for n in [0usize, 1, 127, 128, 129, 1000, 4096, 33_333, 100_001] {
        let input: Vec<u64> = (0..n).map(|_| rng.gen::<u64>()).collect();
        check_round(&input, 0, 8);
        let narrow: Vec<u64> = (0..n).map(|_| rng.gen_range(0..1000u64)).collect();
        check_round(&narrow, 6, 8);
        check_round(&narrow, 7, 8);
    }
}

#[test]
fn a_block_that_reaches_past_the_end_goes_to_the_overflow_buffer() {
    // Five keys of bucket 0, then three full blocks of bucket 1: the slots of
    // bucket 1 start at the second block, so that its third block does not
    // fit in front of the end of the range.
    let mut input: Vec<u64> = vec![0; 5];
    input.extend((0..3 * BLOCKSIZE as u64).map(|x| 256 + x % 256));
    input.shuffle(&mut StdRng::seed_from_u64(9));
    assert!(check_round(&input, 6, 8));
    // The same with staged keys behind the overflow block.
    input.extend([300, 301, 302]);
    input.shuffle(&mut StdRng::seed_from_u64(10));
    assert!(check_round(&input, 6, 8));
    // Full blocks that all fit: nothing overflows.
    let fitting: Vec<u64> = (0..4 * BLOCKSIZE as u64).map(|x| x % 256).collect();
    assert!(!check_round(&fitting, 6, 8));
    let mut sorted = input.clone();
    sort(&mut sorted);
    assert_eq!(sorted, sorted_copy(&input));
}

#[test]
fn the_last_round_of_a_task_sorts_it() {
    let mut rng = StdRng::seed_from_u64(21);
    let mut arr: Vec<u64> = (0..5000).map(|_| 0x1234_5600 | rng.gen_range(0..256u64)).collect();
    let expected = sorted_copy(&arr);
    let mut sorter = IPS2RaSorter::new_sequential();
    let mut task = Task::new(&mut arr, 7, 8);
    sorter.sequential_rec(&mut task);
    assert_eq!(arr, expected);
}

#[test]
fn levels_are_the_bytes_in_which_keys_differ() {
    let mut low: Vec<u64> = (0..2000u64).map(|x| 0xabcd_0000 | (x * 7919 % 256)).collect();
    assert_eq!(get_levels_keys(&mut low), (7, 8));
    let mut middle: Vec<u64> = (0..2000u64).map(|x| ((x * 7919 % 65536) << 16) | 0xff).collect();
    assert_eq!(get_levels_keys(&mut middle), (4, 6));
    let mut rng = StdRng::seed_from_u64(2);
    let mut wide: Vec<u64> = (0..2000).map(|_| rng.gen::<u64>()).collect();
    assert_eq!(get_levels_keys(&mut wide), (0, 8));
    let mut equal = vec![5u64; 300];
    assert_eq!(get_levels_keys(&mut equal), (0, 0));
    let mut empty: Vec<u64> = Vec::new();
    assert_eq!(get_levels_keys(&mut empty), (0, 0));
    let mut one = vec![9u64];
    assert_eq!(get_levels_keys(&mut one), (0, 0));
}

#[test]
fn sampling_a_task_sets_its_levels() {
    let mut arr: Vec<u64> = (0..3000u64).map(|x| x * 2654435761 % 65536).collect();
    let expected = sorted_copy(&arr);
    let mut task = Task::new(&mut arr, 0, 0);
    assert!(task.sample());
    assert_eq!((task.level, task.level_end), (6, 8));
    assert_eq!(sorted_copy(task.arr), expected);
    let mut equal = vec![1u64; 10];
    let mut task = Task::new(&mut equal, 3, 5);
    assert!(!task.sample());
    assert_eq!((task.level, task.level_end), (3, 5));
    let mut small = vec![3u64, 200, 17];
    let mut task = Task::new(&mut small, 0, 0);
    task.sample_untouched();
    assert_eq!((task.level, task.level_end), (7, 8));
    assert!(task.is_base_case());
}

#[test]
fn the_sample_is_drawn_from_the_keys() {
    let mut arr: Vec<u64> = (0..1000).collect();
    select_sample_keys(&mut arr, 50);
    assert_ne!(arr, (0..1000).collect::<Vec<u64>>());
    assert_eq!(sorted_copy(&arr), (0..1000).collect::<Vec<u64>>());
    let mut again: Vec<u64> = (0..1000).collect();
    select_sample_keys(&mut again, 50);
    assert_eq!(arr, again);
}

#[test]
fn small_helpers() {
    assert_eq!(floor_log2(1), 0);
    assert_eq!(floor_log2(2), 1);
    assert_eq!(floor_log2(3), 1);
    assert_eq!(floor_log2(1024), 10);
    assert_eq!(floor_log2(usize::MAX), 63);
    let mut arr = vec![1u64, 2, 3, 4, 5];
    reverse_keys(&mut arr);
    assert_eq!(arr, vec![5, 4, 3, 2, 1]);
    let mut unsorted = vec![5u64, 1, 4, 1, 9];
    insertion_sort2(&mut unsorted);
    assert_eq!(unsorted, vec![1, 1, 4, 5, 9]);
    assert!(is_power_of_two(1));
    assert!(is_power_of_two(256));
    assert!(!is_power_of_two(0));
    assert!(!is_power_of_two(96));
    assert!(is_power_of_two(K) && is_power_of_two(BLOCKSIZE));
}

#[test]
fn a_cleared_sorter_takes_the_next_task() {
    let mut rng = StdRng::seed_from_u64(66);
    let mut sorter = IPS2RaSorter::new_sequential();
    for _ in 0..3 {
        let mut arr: Vec<u64> = (0..10_000).map(|_| rng.gen::<u64>()).collect();
        let expected = sorted_copy(&arr);
        sorter.clear();
        let mut task = Task::new(&mut arr, 0, 8);
        sorter.sequential_rec(&mut task);
        assert_eq!(arr, expected);
    }
    sorter.clear();
    assert!(sorter.block_counts.iter().all(|&c| c == 0));
    assert!(sorter.element_counts.iter().all(|&c| c == 0));
    assert!(sorter.overflow_buffer.iter().all(|&c| c == 0));
    assert!(!sorter.overflow);
    assert_eq!(sorter.primary_bucket, 0);
    assert!(IPS2RaSorter::new_parallel().parallel);
}

#[test]
fn levels_are_settled_by_a_look_at_all_keys() {
    let mut backwards = vec![3u64, 2, 1];
    assert_eq!(settle_levels(&mut backwards, (7, 8)), (0, 0));
    assert_eq!(backwards, vec![1, 2, 3]);
    let mut sorted = vec![1u64, 2, 3];
    assert_eq!(settle_levels(&mut sorted, (0, 8)), (0, 8));
    assert_eq!(sorted, vec![1, 2, 3]);
    assert_eq!(settle_levels(&mut sorted, (0, 7)), (0, 0));
    assert_eq!(sorted, vec![1, 2, 3]);
    let mut mixed = vec![1u64, 0x100, 5];
    assert_eq!(settle_levels(&mut mixed, (7, 8)), (6, 8));
    assert_eq!(mixed, vec![1, 0x100, 5]);
    let mut falling_then_rising = vec![0x0300_0000u64, 0x0100_0000, 0x0200_0000];
    assert_eq!(settle_levels(&mut falling_then_rising, (1, 8)), (4, 5));
    assert_eq!(falling_then_rising, vec![0x0300_0000, 0x0100_0000, 0x0200_0000]);
    let mut equal = vec![5u64; 3];
    assert_eq!(settle_levels(&mut equal, (8, 8)), (0, 0));
    assert_eq!(equal, vec![5; 3]);
}

#[test]
fn a_task_brings_its_sample_to_the_front() {
    let input: Vec<u64> = (0..1000).map(|x| x * 7919 % 65536).collect();
    let mut first = input.clone();
    let mut second = input.clone();
    let mut task = Task::new(&mut first[..], 2, 5);
    task.select_sample(40);
    assert_eq!((task.level, task.level_end), (2, 5));
    Task::new(&mut second[..], 0, 8).select_sample(40);
    assert_eq!(first, second);
    assert_ne!(first, input);
    let mut sorted = first.clone();
    sorted.sort_unstable();
    let mut expected = input.clone();
    expected.sort_unstable();
    assert_eq!(sorted, expected);

    let mut untouched = input.clone();
    Task::new(&mut untouched[..], 0, 8).select_sample(0);
    assert_eq!(untouched, input);
}

#[test]
fn a_task_takes_its_levels_from_a_sample() {
    let mut narrow: Vec<u64> = (0..1000).map(|x| x * 7919 % 65536).collect();
    let mut task = Task::new(&mut narrow[..], 0, 0);
    assert_eq!(task.sample_levels(), (6, 8));
    assert_eq!((task.level, task.level_end), (0, 0));

    let mut single = vec![77u64];
    assert_eq!(Task::new(&mut single[..], 0, 0).sample_levels(), (8, 0));
    assert_eq!(single, vec![77]);

    let mut equal = vec![0x0102_0304_0506_0708u64; 500];
    assert_eq!(Task::new(&mut equal[..], 0, 0).sample_levels(), (8, 0));
}

#[test]
fn a_drawn_key_is_exchanged_with_the_key_at_its_place() {
    let mut keys = vec![10u64, 20, 30, 40];
    place_sample_key(&mut keys, 0, 2);
    assert_eq!(keys, vec![30, 20, 10, 40]);
    place_sample_key(&mut keys, 1, 1);
    assert_eq!(keys, vec![30, 20, 10, 40]);
    place_sample_key(&mut keys, 3, 1);
    assert_eq!(keys, vec![30, 40, 10, 20]);
}

#[test]
fn a_sample_is_drawn_and_put_back() {
    let input: Vec<u64> = (0..1000).map(|x| x * 7919 % 65536).collect();
    let mut keys = input.clone();
    let draws = draw_sample(&mut keys, 40);
    assert_eq!(draws.len(), 40);
    for (place, &drawn) in draws.iter().enumerate() {
        assert!(place <= drawn && drawn < 1000);
    }
    let mut by_hand = input.clone();
    for (place, &drawn) in draws.iter().enumerate() {
        by_hand.swap(place, drawn);
    }
    assert_eq!(keys, by_hand);
    assert_ne!(keys, input);
    restore_sample(&mut keys, &draws);
    assert_eq!(keys, input);

    let mut turned = vec![1u64, 2, 3, 4];
    restore_sample(&mut turned, &vec![1, 2, 3]);
    assert_eq!(turned, vec![4, 1, 2, 3]);
}

#[test]
fn the_sample_has_its_size_and_its_levels() {
    assert_eq!(sample_count(1), 1);
    assert_eq!(sample_count(2), 1);
    assert_eq!(sample_count(1000), 18);
    assert_eq!(sample_count(1 << 16), 64);
    let keys = vec![0x0100u64, 0x0101, 0x01ff_0000, 0xff00_0000_0000_0000];
    assert_eq!(front_levels(&keys, 1), (8, 0));
    assert_eq!(front_levels(&keys, 2), (7, 8));
    assert_eq!(front_levels(&keys, 3), (4, 8));
    assert_eq!(front_levels(&keys, 4), (0, 8));
}

#[test]
fn settling_the_levels_leaves_the_keys_where_they_stand() {
    let input: Vec<u64> = (0..3000u64).map(|x| x * 2654435761 % 65536).collect();
    let mut keys = input.clone();
    assert_eq!(get_levels_keys(&mut keys), (6, 8));
    assert_eq!(keys, input);
    let mut rng = StdRng::seed_from_u64(8);
    let wide: Vec<u64> = (0..3000).map(|_| rng.gen::<u64>()).collect();
    let mut keys = wide.clone();
    assert_eq!(get_levels_keys(&mut keys), (0, 8));
    assert_eq!(keys, wide);
}

#[test]
fn sorted_keys_that_share_a_byte_are_found_sorted() {
    let input: Vec<u64> = (0..5000u64).map(|x| 0x4200_0000_0000_0000 | (x * x)).collect();
    let mut keys = input.clone();
    let mut task = Task::new(&mut keys[..], 2, 5);
    assert!(!task.sample());
    assert_eq!((task.level, task.level_end), (2, 5));
    assert_eq!(keys, input);

    let mut single = vec![42u64];
    let mut task = Task::new(&mut single[..], 0, 8);
    assert!(!task.sample());
    assert_eq!(single, vec![42]);

    let mut none: Vec<u64> = Vec::new();
    assert!(!Task::new(&mut none[..], 0, 8).sample());
}

#[test]
fn descending_keys_that_share_a_byte_are_reversed() {
    let input: Vec<u64> = (0..5000u64).rev().map(|x| 0x4200_0000_0000_0000 | (x * 3)).collect();
    let mut keys = input.clone();
    let mut task = Task::new(&mut keys[..], 0, 0);
    assert_eq!(task.sequential_get_levels(), (0, 0));
    assert_eq!((task.level, task.level_end), (0, 0));
    let mut reversed = input.clone();
    reversed.reverse();
    assert_eq!(keys, reversed);

    let mut last_byte: Vec<u64> = (0..300u64).rev().map(|x| (x << 8) | 0x7f).collect();
    assert_eq!(get_levels_keys(&mut last_byte), (0, 0));
    assert_eq!(last_byte, (0..300u64).map(|x| (x << 8) | 0x7f).collect::<Vec<u64>>());
}

#[test]
fn classification_leaves_the_keys_behind_the_full_blocks() {
    let mut rng = StdRng::seed_from_u64(33);
    let input: Vec<u64> = (0..3000).map(|_| rng.gen_range(0..4u64) << 56 | rng.gen::<u64>() >> 8).collect();
    let mut keys = input.clone();
    let mut sorter = IPS2RaSorter::new_sequential();
    let mut task = Task::new(&mut keys[..], 0, 8);
    sorter.classify(&mut task);
    let n = sorter.classified_elements;
    assert!(n % BLOCKSIZE == 0 && n > 0 && n < input.len());
    assert_eq!(&keys[n..], &input[n..]);
    for block in keys[..n].chunks(BLOCKSIZE) {
        assert!(block.iter().all(|&key| key >> 56 == block[0] >> 56));
    }
    for b in 0..K {
        assert!(sorter.block_counts[b] < BLOCKSIZE);
    }
}

#[test]
fn a_task_with_other_levels_keeps_its_keys_in_memory() {
    let mut rng = StdRng::seed_from_u64(72);
    let input: Vec<u64> = (0..20_000).map(|_| rng.gen::<u64>()).collect();
    let mut keys = input.clone();
    let mut sorter = IPS2RaSorter::new_sequential();
    let mut task = Task::new(&mut keys[..], 6, 8);
    sorter.sequential_rec(&mut task);
    assert_eq!((task.level, task.level_end), (6, 8));
    assert!(keys.windows(2).all(|pair| (pair[0] >> 8) & 0xff <= (pair[1] >> 8) & 0xff));
    assert_eq!(sorted_copy(&keys), sorted_copy(&input));
}
