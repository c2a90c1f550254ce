use ips2ra::cleanup::calculate_lba_offset as block_of_task_key;
use ips2ra::permutation::calculate_lba_offset;
use ips2ra::sort::{check_page_buffers, lbas_for_count};
use ips2ra::store::KeyStore;
use ips2ra::window::DeviceKeys;
use ips2ra::{
    read_write_elements, u64_to_u8_slice, u8_to_u64, u8_to_u64_slice, Dma, ExtTask, IPS2RaSorter,
    QueuePair, BLOCKSIZE, K, QUEUE_LENGTH,
};
use rand::rngs::StdRng;
use rand::{Rng, SeedableRng};

fn window(count: usize) -> Vec<Dma> {
    (0..count).map(|_| Dma::new(1024)).collect()
}

#[test]
fn keys_are_little_endian_bytes() {
    assert_eq!(u8_to_u64(&[1, 0, 0, 0, 0, 0, 0, 0]), 1);
    assert_eq!(u8_to_u64(&[0, 0, 0, 0, 0, 0, 0, 0x80]), 1 << 63);
    assert_eq!(u8_to_u64(&[0x08, 0x07, 0x06, 0x05, 0x04, 0x03, 0x02, 0x01]), 0x0102030405060708);
    let keys = vec![0u64, 1, 0x0102030405060708, u64::MAX];
    let bytes = u64_to_u8_slice(&keys);
    assert_eq!(bytes.len(), 32);
    assert_eq!(&bytes[16..24], &[8, 7, 6, 5, 4, 3, 2, 1]);
    assert_eq!(u8_to_u64_slice(&bytes), keys);
    assert_eq!(u8_to_u64_slice(&[]), Vec::<u64>::new());
}

#[test]
fn addresses_of_task_keys() {
    assert_eq!(calculate_lba_offset(130, 7, 3), (9, 5));
    assert_eq!(calculate_lba_offset(0, 0, 0), (0, 0));
    assert_eq!(calculate_lba_offset(63, 2, 1), (2, 64));
    assert_eq!(block_of_task_key(130, 7, 3), (9, 3));
    assert_eq!(block_of_task_key(64, 0, 0), (1, 0));
    assert_eq!(lbas_for_count(0, 0), 0);
    assert_eq!(lbas_for_count(0, 1), 1);
    assert_eq!(lbas_for_count(63, 1), 1);
    assert_eq!(lbas_for_count(63, 2), 2);
    assert_eq!(lbas_for_count(10, 128), 3);
}

#[test]
fn the_queue_counts_requests_in_flight() {
    let mut qpair = QueuePair::new((0..4096u64).collect());
    let mut buffer = Dma::new(2048);
    assert_eq!(buffer.size(), 2048);
    assert_eq!(qpair.submit_io(&mut buffer, 64, 1024, 2, false), 1);
    assert_eq!(qpair.in_flight, 1);
    assert_eq!(buffer.keys[63], 0);
    assert_eq!(buffer.keys[64], 128);
    assert_eq!(buffer.keys[64 + 1023], 128 + 1023);
    assert_eq!(buffer.keys[64 + 1024], 0);
    assert_eq!(qpair.submit_io(&mut buffer, 0, 1088, 0, false), 2);
    assert_eq!(qpair.in_flight, 3);
    assert!(!qpair.is_full());
    qpair.complete_io(3);
    assert_eq!(qpair.in_flight, 0);
    buffer.keys[5] = 99;
    assert_eq!(qpair.submit_io(&mut buffer, 0, 64, 63, true), 1);
    assert_eq!(qpair.image[63 * 64 + 5], 99);
    assert_eq!(qpair.image[63 * 64 - 1], 63 * 64 - 1);
    qpair.complete_io(1);
    assert_eq!(qpair.submit_io(&mut buffer, 0, 0, 0, true), 0);
}

#[test]
fn elements_are_moved_in_whole_blocks() {
    let mut qpair = QueuePair::new((0..8192u64).collect());
    let mut buffer = Dma::new(4096);
    read_write_elements(&mut qpair, &mut buffer, 3, 10, 100, false);
    // 110 keys from the start of block 3 are two logical blocks.
    assert_eq!(&buffer.keys[..128], &(192..320u64).collect::<Vec<u64>>()[..]);
    assert_eq!(buffer.keys[128], 0);
    assert_eq!(qpair.in_flight, 0);
    for key in buffer.keys.iter_mut() {
        *key += 1_000_000;
    }
    read_write_elements(&mut qpair, &mut buffer, 100, 0, 64, true);
    assert_eq!(qpair.image[6400], 1_000_192);
    assert_eq!(qpair.image[6463], 1_000_255);
    assert_eq!(qpair.image[6464], 6464);
    assert_eq!(qpair.image[6399], 6399);
}

#[test]
fn a_transfer_larger_than_the_queue_is_fed_in_pieces() {
    let blocks = QUEUE_LENGTH * 16 + 16 + 3;
    let count = blocks * 64;
    let mut rng = StdRng::seed_from_u64(1);
    let image: Vec<u64> = (0..count + 128).map(|_| rng.gen()).collect();
    let mut qpair = QueuePair::new(image.clone());
    let mut buffer = Dma::new(count + 64);
    read_write_elements(&mut qpair, &mut buffer, 1, 0, count, false);
    assert_eq!(&buffer.keys[..count], &image[64..64 + count]);
    assert_eq!(buffer.keys[count], 0);
    assert_eq!(qpair.in_flight, 0);
    let mut target = QueuePair::new(vec![0; count + 128]);
    read_write_elements(&mut target, &mut buffer, 0, 0, count, true);
    assert_eq!(&target.image[..count], &image[64..64 + count]);
    assert_eq!(target.image[count], 0);
    assert_eq!(target.in_flight, 0);
}

#[test]
fn the_window_writes_pages_back() {
    let image: Vec<u64> = (0..8192u64).collect();
    let mut keys = DeviceKeys::open(QueuePair::new(image.clone()), window(2), 100, 7000);
    assert_eq!(keys.size(), 7000);
    assert_eq!(keys.load(0), 100);
    assert_eq!(keys.load(6999), 7099);
    keys.store(5, 1);
    keys.store(2050, 2);
    keys.store(4100, 3);
    // The first page has been pushed out of its buffer by the third.
    assert_eq!(keys.qpair.image[105], 1);
    assert_eq!(keys.load(5), 1);
    assert_eq!(keys.load(2050), 2);
    keys.read_ahead(true);
    assert_eq!(keys.load(3000), 3100);
    keys.read_ahead(false);
    keys.sort_small(0, 10);
    assert_eq!(keys.load(0), 1);
    assert_eq!(keys.load(9), 109);
    keys.flush();
    let (qpair, buffers) = keys.close();
    assert_eq!(buffers.len(), 2);
    let mut expected = image.clone();
    expected[100..110].copy_from_slice(&[1, 100, 101, 102, 103, 104, 106, 107, 108, 109]);
    expected[2150] = 2;
    expected[4200] = 3;
    assert_eq!(qpair.image, expected);
    assert_eq!(qpair.in_flight, 0);
    assert!(check_page_buffers(&buffers));
    assert!(!check_page_buffers(&Vec::new()));
}

fn bucket(key: u64, level: usize) -> usize {
    ((key >> (8 * (7 - level))) & 0xff) as usize
}

#[test]
fn a_round_on_the_device_partitions_the_task() {
    let mut rng = StdRng::seed_from_u64(17);
    let image: Vec<u64> = (0..40960).map(|_| rng.gen_range(0..1_000_000u64)).collect();
    let (start_lba, offset, size) = (3, 17, 30_000);
    let first = start_lba * 64 + offset;
    let mut sorter =
        IPS2RaSorter::new_ext_sequential(QueuePair::new(image.clone()), window(4), Dma::new(64));
    let mut task = ExtTask::new(start_lba, offset, size, 5, 8);
    sorter.classify_ext(&mut task);
    let mut counts = [0u64; 256];
    for &key in &image[first..first + size] {
        counts[bucket(key, 5)] += 1;
    }
    assert_eq!(sorter.element_counts, counts);
    sorter.permutate_blocks_ext(&mut task);
    sorter.cleanup_ext(&mut task);
    let device = &sorter.qpair.as_ref().unwrap().image;
    assert_eq!(&device[..first], &image[..first]);
    assert_eq!(&device[first + size..], &image[first + size..]);
    for b in 0..K {
        let region = &device
            [first + sorter.boundaries[b] as usize..first + sorter.boundaries[b + 1] as usize];
        assert!(region.iter().all(|&key| bucket(key, 5) == b));
        if region.len() <= BLOCKSIZE {
            assert!(region.windows(2).all(|pair| pair[0] <= pair[1]));
        }
    }
    let mut before = image[first..first + size].to_vec();
    let mut after = device[first..first + size].to_vec();
    before.sort_unstable();
    after.sort_unstable();
    assert_eq!(before, after);
    assert_eq!((task.start_lba, task.offset, task.size, task.level, task.level_end), (3, 17, 30_000, 5, 8));
}

#[test]
fn the_level_of_a_device_task_skips_leading_zero_bytes() {
    let mut rng = StdRng::seed_from_u64(5);
    let image: Vec<u64> = (0..4096).map(|_| rng.gen_range(0..0x1_0000u64)).collect();
    let mut sorter =
        IPS2RaSorter::new_ext_sequential(QueuePair::new(image.clone()), window(2), Dma::new(64));
    let mut task = ExtTask::new(1, 3, 3000, 0, 8);
    sorter.sample(&mut task);
    assert_eq!(task.level, 6);
    let mut zeros = ExtTask::new(0, 0, 0, 0, 8);
    sorter.sample(&mut zeros);
    assert_eq!(zeros.level, 7);
    let mut capped = ExtTask::new(1, 3, 3000, 0, 4);
    sorter.sample(&mut capped);
    assert_eq!(capped.level, 3);
    assert_eq!(sorter.qpair.as_ref().unwrap().image, image);
    sorter.clear();
    let mut task = ExtTask::new(1, 3, 3000, 6, 8);
    sorter.sequential_rolling_sort(&mut task);
    let device = &sorter.qpair.as_ref().unwrap().image;
    let mut expected = image.clone();
    expected[67..3067].sort_unstable();
    assert_eq!(device, &expected);
}

#[test]
fn read_ahead_switches_fetching_ahead() {
    let image: Vec<u64> = (0..8192u64).collect();
    let mut keys = DeviceKeys::open(QueuePair::new(image.clone()), window(2), 0, 8192);
    assert!(!keys.ahead);
    assert_eq!(keys.load(2048), 2048);
    assert_eq!(keys.pages, vec![2, usize::MAX]);
    keys.read_ahead(true);
    assert!(keys.ahead);
    assert_eq!(keys.pages, vec![2, usize::MAX]);
    assert_eq!(keys.load(4096), 4096);
    assert_eq!(keys.pages, vec![4, 5]);
    keys.read_ahead(false);
    assert!(!keys.ahead);
    assert_eq!(keys.pages, vec![4, 5]);
    assert_eq!(keys.load(0), 0);
    assert_eq!(keys.pages, vec![0, 5]);
    let (qpair, _) = keys.close();
    assert_eq!(qpair.image, image);
}

#[test]
fn a_task_with_other_levels_keeps_its_keys() {
    let mut rng = StdRng::seed_from_u64(71);
    let image: Vec<u64> = (0..20480).map(|_| rng.gen::<u64>()).collect();
    let (start_lba, offset, size) = (5, 9, 15_000);
    let first = start_lba * 64 + offset;
    let mut sorter =
        IPS2RaSorter::new_ext_sequential(QueuePair::new(image.clone()), window(4), Dma::new(256));
    let mut task = ExtTask::new(start_lba, offset, size, 5, 7);
    sorter.sequential_rolling_sort(&mut task);
    assert_eq!((task.start_lba, task.offset, task.size, task.level_end), (start_lba, offset, size, 7));
    let device = &sorter.qpair.as_ref().unwrap().image;
    assert_eq!(&device[..first], &image[..first]);
    assert_eq!(&device[first + size..], &image[first + size..]);
    let mut after = device[first..first + size].to_vec();
    let mut before = image[first..first + size].to_vec();
    // The keys are in the order of their digits at level 5.
    assert!(after.windows(2).all(|pair| (pair[0] >> 16) & 0xff <= (pair[1] >> 16) & 0xff));
    after.sort_unstable();
    before.sort_unstable();
    assert_eq!(after, before);
}
