use ips2ra::parallel_sort_merge::{calculate_lba, copy_elements_ext};
use ips2ra::{clear, initialize_thread_pool, merge_on_device, parallel_rec, setup_array};
use ips2ra::{Dma, IPS2RaSorter, QueuePair, Task};
use rand::rngs::StdRng;
use rand::{Rng, SeedableRng};

fn pages(count: usize) -> Vec<Dma> {
    (0..count).map(|_| Dma::new(1024)).collect()
}

fn random_image(len: usize, seed: u64) -> Vec<u64> {
    let mut rng = StdRng::seed_from_u64(seed);
    (0..len).map(|_| rng.gen::<u64>()).collect()
}

#[test]
fn setup_array_writes_the_keys_and_pads_the_last_block() {
    let arr: Vec<u64> = (1..=100).collect();
    let mut qpair = QueuePair::new(vec![9u64; 2048]);
    setup_array(&arr, &mut qpair);
    assert_eq!(&qpair.image[..100], &arr[..]);
    assert!(qpair.image[100..128].iter().all(|&k| k == 0));
    assert!(qpair.image[128..].iter().all(|&k| k == 9));
    assert_eq!(qpair.in_flight, 0);

    let long = random_image(3000, 1);
    let mut qpair = QueuePair::new(vec![9u64; 4096]);
    setup_array(&long, &mut qpair);
    assert_eq!(&qpair.image[..3000], &long[..]);
    assert!(qpair.image[3000..3008].iter().all(|&k| k == 0));
    assert!(qpair.image[3008..].iter().all(|&k| k == 9));

    let mut untouched = QueuePair::new(vec![9u64; 64]);
    setup_array(&[], &mut untouched);
    assert_eq!(untouched.image, vec![9u64; 64]);
}

#[test]
fn clear_zeroes_whole_pages_at_the_front() {
    let image = random_image(4096, 2);
    let mut qpair = QueuePair::new(image.clone());
    clear(3, &mut qpair);
    assert!(qpair.image[..3072].iter().all(|&k| k == 0));
    assert_eq!(&qpair.image[3072..], &image[3072..]);
    clear(0, &mut qpair);
    assert_eq!(&qpair.image[3072..], &image[3072..]);
    assert_eq!(qpair.in_flight, 0);
}

#[test]
fn blocks_are_copied_on_the_device() {
    let image = random_image(4096, 3);
    let mut qpair = QueuePair::new(image.clone());
    let mut buffer = Dma::new(128);
    copy_elements_ext(&mut qpair, &mut buffer, 2, 20, 700);
    assert_eq!(&qpair.image[1280..1984], &image[128..832]);
    assert_eq!(&qpair.image[..1280], &image[..1280]);
    assert_eq!(&qpair.image[1984..], &image[1984..]);
    assert_eq!(buffer.keys.len(), 128);

    let mut qpair = QueuePair::new(image.clone());
    copy_elements_ext(&mut qpair, &mut buffer, 40, 0, 64);
    assert_eq!(&qpair.image[..64], &image[2560..2624]);
    assert_eq!(&qpair.image[64..], &image[64..]);
}

#[test]
fn the_block_of_a_key_of_a_run() {
    assert_eq!(calculate_lba(130, 7, 3, 1024), (15, 0));
    assert_eq!(calculate_lba(0, 0, 0, 512), (0, 0));
    assert_eq!(calculate_lba(63, 4, 2, 8192), (36, 0));
    assert_eq!(calculate_lba(64, 4, 2, 8192), (37, 0));
}

#[test]
fn a_key_is_read_through_the_sort_buffer() {
    let image = random_image(2048, 4);
    let mut sorter =
        IPS2RaSorter::new_ext_sequential(QueuePair::new(image.clone()), pages(1), Dma::new(64));
    assert_eq!(sorter.load_element(0, 0), image[0]);
    assert_eq!(sorter.load_element(3, 70), image[3 * 64 + 70]);
    assert_eq!(sorter.load_element(31, 63), image[2047]);
    assert_eq!(sorter.qpair.as_ref().unwrap().image, image);
}

#[test]
fn separators_are_located_in_a_run_on_the_device() {
    let mut image = vec![u64::MAX; 1024];
    let run: Vec<u64> = vec![1, 3, 3, 3, 8, 20, 20, 21];
    image[128..136].copy_from_slice(&run);
    let mut sorter =
        IPS2RaSorter::new_ext_sequential(QueuePair::new(image.clone()), pages(1), Dma::new(64));
    let counts = sorter.binary_search_indices(&[0, 1, 3, 7, 20, 21, 100], 2, 8);
    assert_eq!(counts, vec![0, 1, 4, 4, 7, 8, 8]);
    assert_eq!(sorter.binary_search_indices(&[], 2, 8), Vec::<usize>::new());
    assert_eq!(sorter.binary_search_indices(&[5], 2, 0), vec![0]);
    assert_eq!(sorter.qpair.as_ref().unwrap().image, image);
}

#[test]
fn a_worker_merges_its_ranges_of_the_runs() {
    let mut rng = StdRng::seed_from_u64(6);
    let mut image: Vec<u64> = (0..4096).map(|_| rng.gen_range(0..1000u64)).collect();
    for run in image[..1536].chunks_mut(512) {
        run.sort_unstable();
    }
    let indices = vec![(10usize, 200usize), (0, 512), (100, 100)];
    let mut expected: Vec<u64> = Vec::new();
    expected.extend_from_slice(&image[10..200]);
    expected.extend_from_slice(&image[512..1024]);
    expected.sort_unstable();
    let total = expected.len();
    assert_eq!(total, 702);
    let mut sorter =
        IPS2RaSorter::new_ext_sequential(QueuePair::new(image.clone()), pages(4), Dma::new(64));
    let remainder = sorter.thread_merge(&indices, 0, 32, 5, total, 512);
    let device = &sorter.qpair.as_ref().unwrap().image;
    assert_eq!(&device[2053..2755], &expected[..]);
    assert_eq!(&device[..2053], &image[..2053]);
    assert_eq!(&device[2755..], &image[2755..]);
    assert_eq!(remainder, expected[total - 3..].to_vec());
}

#[test]
fn a_short_output_is_its_own_remainder() {
    let mut image: Vec<u64> = vec![0; 1024];
    image[..4].copy_from_slice(&[2, 4, 6, 8]);
    image[64..68].copy_from_slice(&[1, 5, 7, 9]);
    let indices = vec![(1usize, 3usize), (0, 2)];
    let mut sorter =
        IPS2RaSorter::new_ext_sequential(QueuePair::new(image.clone()), pages(3), Dma::new(64));
    let remainder = sorter.thread_merge(&indices, 0, 8, 10, 4, 64);
    let device = &sorter.qpair.as_ref().unwrap().image;
    assert_eq!(&device[522..526], &[1, 4, 5, 6]);
    assert_eq!(remainder, vec![1, 4, 5, 6]);
}

#[test]
fn runs_on_the_device_are_merged_in_rounds() {
    let mut rng = StdRng::seed_from_u64(7);
    for &(len, run, fan_in, workers) in
        &[(1500usize, 100usize, 3usize, 2usize), (2048, 1, 2, 1), (1000, 1000, 2, 3), (777, 64, 16, 4)]
    {
        let mut image: Vec<u64> = (0..4096).map(|_| rng.gen_range(0..500u64)).collect();
        for chunk in image[..len].chunks_mut(run) {
            chunk.sort_unstable();
        }
        let mut expected = image[..len].to_vec();
        expected.sort_unstable();
        let mut qpair = QueuePair::new(image.clone());
        let mut buffers = pages(3);
        merge_on_device(&mut qpair, len, &mut buffers, run, fan_in, workers);
        assert_eq!(&qpair.image[..len], &expected[..]);
        let scratch = (len + 1023) / 1024 * 1024;
        assert_eq!(&qpair.image[len..scratch], &image[len..scratch]);
        assert_eq!(&qpair.image[scratch + len..], &image[scratch + len..]);
        assert_eq!(buffers.len(), 3);
    }
}

#[test]
fn a_task_is_cut_into_its_larger_buckets() {
    let mut keys: Vec<u64> = (0..10).collect();
    let mut counts = [0u64; 256];
    counts[0] = 3;
    counts[5] = 1;
    counts[7] = 4;
    counts[255] = 2;
    let mut task = Task::new(&mut keys[..], 2, 6);
    let tasks = task.generate_subtasks(&counts);
    assert_eq!(tasks.len(), 3);
    assert_eq!(&tasks[0].arr[..], &[0, 1, 2]);
    assert_eq!(&tasks[1].arr[..], &[4, 5, 6, 7]);
    assert_eq!(&tasks[2].arr[..], &[8, 9]);
    for sub in &tasks {
        assert_eq!((sub.level, sub.level_end), (3, 6));
    }
}

#[test]
fn keys_behind_the_last_bucket_belong_to_no_task() {
    let mut keys: Vec<u64> = (0..10).collect();
    let mut counts = [0u64; 256];
    counts[1] = 2;
    counts[9] = 1;
    counts[200] = 3;
    let mut task = Task::new(&mut keys[..], 0, 8);
    let tasks = task.generate_subtasks(&counts);
    assert_eq!(tasks.len(), 2);
    assert_eq!(&tasks[0].arr[..], &[0, 1]);
    assert_eq!(&tasks[1].arr[..], &[3, 4, 5]);
    assert_eq!((tasks[1].level, tasks[1].level_end), (1, 8));
}

#[test]
fn a_task_of_single_keys_has_no_subtasks() {
    let mut keys: Vec<u64> = (0..256).collect();
    let counts = [1u64; 256];
    let mut task = Task::new(&mut keys[..], 7, 8);
    assert!(task.generate_subtasks(&counts).is_empty());
    let mut none: Vec<u64> = Vec::new();
    let mut empty = Task::new(&mut none[..], 0, 8);
    assert!(empty.generate_subtasks(&[0u64; 256]).is_empty());
}

#[test]
fn a_task_is_sorted_by_the_pool() {
    initialize_thread_pool();
    initialize_thread_pool();
    let mut keys = random_image(50_000, 8);
    let mut expected = keys.clone();
    expected.sort_unstable();
    let mut task = Task::new(&mut keys[..], 0, 8);
    parallel_rec(&mut task);
    assert_eq!((task.level, task.level_end), (0, 8));
    assert_eq!(keys, expected);

    let mut low: Vec<u64> = random_image(20_000, 9).iter().map(|k| k & 0xff_ffff).collect();
    let mut expected = low.clone();
    expected.sort_unstable();
    let mut task = Task::new(&mut low[..], 5, 8);
    parallel_rec(&mut task);
    assert_eq!(low, expected);
}

#[test]
fn a_small_page_moves_between_the_sort_buffer_and_the_device() {
    let page = 262144;
    let image = random_image(page + 128, 10);
    let mut sorter =
        IPS2RaSorter::new_ext_sequential(QueuePair::new(image.clone()), pages(1), Dma::new(page + 64));
    sorter.read_write_sort_buffer_2M(1, false);
    assert_eq!(&sorter.sort_buffer.as_ref().unwrap().keys[..page], &image[64..64 + page]);
    assert!(sorter.sort_buffer.as_ref().unwrap().keys[page..].iter().all(|&k| k == 0));
    assert_eq!(sorter.qpair.as_ref().unwrap().image, image);
    sorter.read_write_sort_buffer_2M(2, true);
    let device = &sorter.qpair.as_ref().unwrap().image;
    assert_eq!(&device[128..128 + page], &image[64..64 + page]);
    assert_eq!(&device[..128], &image[..128]);
}
