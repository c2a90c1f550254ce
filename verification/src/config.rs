//! Compile-time configuration of the sorter and of the block device layout.

use vstd::arithmetic::power::{lemma_pow_positive, pow};
use vstd::arithmetic::power2::{is_pow2, is_pow2_equiv, lemma2_to64, pow2};
use vstd::prelude::*;

verus! {

/// Number of buckets per partitioning round; one radix digit selects a bucket.
pub const K: usize = 256;

/// Number of radix digits in a key, counted from the most significant one.
pub const LEVELS: usize = 8;

/// Number of keys moved between buckets as one unit.
pub const BLOCKSIZE: usize = 128;

/// Ranges of at most this many keys are finished by insertion sort.
pub const THRESHOLD: usize = 128;

/// Number of workers of the parallel modes.
pub const NUM_THREADS: usize = 8;

/// Bytes of stack of a worker of the multi-core mode.
pub const WORKER_STACK_SIZE: usize = 16777216;

/// Bytes in one logical block of the device.
pub const LBA_SIZE: usize = 512;

/// Bytes moved by a single device request.
pub const CHUNK_SIZE: usize = 8192;

/// Keys in one logical block.
pub const ELEMENTS_PER_LBA: usize = 64;

/// Keys moved by a single device request.
pub const ELEMENTS_PER_CHUNK: usize = 1024;

/// Logical blocks moved by a single device request.
pub const LBA_PER_CHUNK: usize = 16;

/// Bytes in a small page buffer.
pub const HUGE_PAGE_SIZE_2M: usize = 2097152;

/// Bytes in a large page buffer.
pub const HUGE_PAGE_SIZE_1G: usize = 1073741824;

/// Number of small page buffers that the external modes may hold.
pub const HUGE_PAGES_2M: usize = 256;

/// Number of large page buffers that the external modes may hold.
pub const HUGE_PAGES_1G: usize = 4;

/// Keys in a small page buffer.
pub const ELEMENTS_PER_HUGE_PAGE_2M: usize = 262144;

/// Keys in a large page buffer.
pub const ELEMENTS_PER_HUGE_PAGE_1G: usize = 134217728;

/// Requests that fill a small page buffer.
pub const CHUNKS_PER_HUGE_PAGE_2M: usize = 256;

/// Requests that fill a large page buffer.
pub const CHUNKS_PER_HUGE_PAGE_1G: usize = 131072;

/// `x` is a power of two.
pub open spec fn spec_is_power_of_two(x: usize) -> bool {
    exists|e: nat| pow(2, e) == x
}

/// A number is a power of two exactly if it is not zero and shares no bit
/// with the number before it.
pub proof fn lemma_one_bit(x: usize)
    ensures
        is_pow2(x as int) <==> x != 0 && x & ((x - 1) as usize) == 0,
    decreases x,
{
    reveal_with_fuel(is_pow2, 2);
    if x == 1 {
        assert(1usize & 0usize == 0) by (bit_vector);
    } else if x >= 2 {
        let half = x / 2;
        lemma_one_bit(half);
        assert((x & ((x - 1) as usize) == 0) <==> (x % 2 == 0 && (x / 2) & ((x / 2 - 1) as usize)
            == 0)) by (bit_vector)
            requires
                x >= 2,
        ;
    }
}

/// Tells whether `x` is a power of two.
pub fn is_power_of_two(x: usize) -> (r: bool)
    ensures
        r == spec_is_power_of_two(x),
{
    proof {
        lemma_one_bit(x);
        is_pow2_equiv(x as int);
    }
    x != 0 && (x & (x - 1)) == 0
}

/// The configuration is consistent: the bucket count and the block size are
/// powers of two, one digit per level covers the whole key, there is at least
/// one worker, and the device units divide one another.
pub proof fn lemma_config_is_valid()
    ensures
        spec_is_power_of_two(K),
        spec_is_power_of_two(BLOCKSIZE),
        K == 256 && LEVELS * 8 == 64,
        NUM_THREADS > 0,
        CHUNK_SIZE % LBA_SIZE == 0,
        ELEMENTS_PER_LBA * 8 == LBA_SIZE,
        ELEMENTS_PER_CHUNK * 8 == CHUNK_SIZE,
        LBA_PER_CHUNK * LBA_SIZE == CHUNK_SIZE,
        ELEMENTS_PER_LBA % BLOCKSIZE == 0 || BLOCKSIZE % ELEMENTS_PER_LBA == 0,
        HUGE_PAGE_SIZE_1G % CHUNK_SIZE == 0,
        HUGE_PAGE_SIZE_2M % CHUNK_SIZE == 0,
        CHUNKS_PER_HUGE_PAGE_2M * CHUNK_SIZE == HUGE_PAGE_SIZE_2M,
        CHUNKS_PER_HUGE_PAGE_1G * CHUNK_SIZE == HUGE_PAGE_SIZE_1G,
        ELEMENTS_PER_HUGE_PAGE_2M * 8 == HUGE_PAGE_SIZE_2M,
        ELEMENTS_PER_HUGE_PAGE_1G * 8 == HUGE_PAGE_SIZE_1G,
{
    lemma2_to64();
    lemma_pow_positive(2, 8);
    lemma_pow_positive(2, 7);
    assert(pow(2, 8) == pow2(8) && pow(2, 7) == pow2(7));
}

} // verus!
