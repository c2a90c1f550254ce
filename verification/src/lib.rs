//! In-place radix partitioning sort for 64-bit unsigned keys.
//!
//! One bucket-partitioning engine (classify, permute whole blocks, clean up the
//! margins) serves three modes: sequential, multi-core and device-resident
//! sorting.  Every executable function carries a contract that Verus proves.

pub mod config;
pub mod model;
pub mod parts;
pub mod base_case;
pub mod conversion;
pub mod store;
pub mod layout;
pub mod steps;
pub mod device;
pub mod sorter;
pub mod sort;
pub mod classification;
pub mod permutation;
pub mod cleanup;
pub mod sequential;
pub mod sampling;
pub mod parallel;
pub mod laws;
pub mod setup;
pub mod window;
pub mod rolling_sort;
pub mod merge;
pub mod sequential_sort_merge;
pub mod parallel_sort_merge;

pub use base_case::{insertion_sort, insertion_sort2};
pub use config::{
    is_power_of_two, BLOCKSIZE, CHUNK_SIZE, ELEMENTS_PER_CHUNK, ELEMENTS_PER_LBA, K, LBA_PER_CHUNK,
    LBA_SIZE, LEVELS, NUM_THREADS, THRESHOLD,
};
pub use conversion::{u64_to_u8_slice, u8_to_u64, u8_to_u64_slice};
pub use device::{Dma, QueuePair, QUEUE_LENGTH};
pub use parallel_sort_merge::{
    compute_local_separators, cut_index, merge_group_parallel, merge_parallel,
    parallel_sort_merge, prepare_thread_merge, transform_indices_to_ranges,
};
pub use merge::merge_adjacent;
pub use sequential_sort_merge::{
    merge_on_device, merge_rounds, merge_rounds_by, merge_sequential, sequential_sort_merge,
};
pub use parallel::{initialize_thread_pool, parallel_rec, parallel_rec_keys};
pub use setup::{clear, setup_array};
pub use sort::{
    find_bucket_ips2ra, read_write_elements, read_write_hugepage_1G, read_write_hugepage_2M,
    rolling_sort, sort, sort_merge, sort_parallel, SortError,
};
pub use sorter::{ExtTask, IPS2RaSorter, Task};
