//! Entry points of the sorting modes, and the helpers they share.

use crate::base_case::insertion_sort;
use crate::config::{
    ELEMENTS_PER_CHUNK, ELEMENTS_PER_HUGE_PAGE_1G, ELEMENTS_PER_HUGE_PAGE_2M, ELEMENTS_PER_LBA, K,
    LBA_PER_CHUNK,
};
use crate::device::{copied_into, Dma, QueuePair, QUEUE_LENGTH};
use crate::model::{
    bucket_of, is_permutation, is_sorted, lemma_bucket_range, lemma_sorted_permutation_unique,
    level_shift,
};
use crate::sampling::get_levels_keys;
use crate::model::lemma_keys_agree_full;
use crate::permutation::same_outside;
use crate::sorter::{ExtTask, IPS2RaSorter};
use vstd::prelude::*;

verus! {

/// The bucket of `input` at `level`: the byte of the key at that level, level 0
/// being the most significant byte.
pub fn find_bucket_ips2ra(input: u64, level: usize) -> (bucket: usize)
    requires
        level < 8,
    ensures
        bucket == bucket_of(input, level as int),
        bucket < K,
{
    let shift: u64 = 8 * (7 - level as u64);
    let digit: u64 = (input >> shift) & 0xff;
    proof {
        assert(shift == level_shift(level as int));
        lemma_bucket_range(input, level as int);
    }
    digit as usize
}

/// Sorts `arr` in place, sequentially.  The keys come out in ascending order,
/// each as often as it went in; keys that are in order already stay as they
/// are.
pub fn sort(arr: &mut [u64])
    ensures
        is_sorted(final(arr)@),
        is_permutation(old(arr)@, final(arr)@),
        is_sorted(old(arr)@) ==> final(arr)@ == old(arr)@,
{
    if arr.len() > isize::MAX as usize - 256 {
        // No slice of keys is that long; the cursors of the sorter need the room.
        insertion_sort(arr);
    } else {
        let (level, level_end) = get_levels_keys(arr);
        if !(level == 0 && level_end == 0) {
            let mut sorter = IPS2RaSorter::new_sequential();
            sorter.sort_levels(arr, level, level_end);
        }
    }
    proof {
        if is_sorted(old(arr)@) {
            lemma_sorted_permutation_unique(old(arr)@, arr@);
        }
    }
}

/// Sorts `arr` in place with one task for every bucket of a partitioning
/// round, on the workers of the pool.  The keys come out as `sort` leaves
/// them.
pub fn sort_parallel(arr: &mut [u64])
    ensures
        is_sorted(final(arr)@),
        is_permutation(old(arr)@, final(arr)@),
        is_sorted(old(arr)@) ==> final(arr)@ == old(arr)@,
{
    crate::parallel::initialize_thread_pool();
    if arr.len() > isize::MAX as usize - 256 {
        // No slice of keys is that long; the cursors of the sorter need the room.
        insertion_sort(arr);
    } else {
        let (level, level_end) = get_levels_keys(arr);
        if !(level == 0 && level_end == 0) {
            crate::parallel::parallel_rec_keys(arr, level, level_end);
        }
    }
    proof {
        if is_sorted(old(arr)@) {
            lemma_sorted_permutation_unique(old(arr)@, arr@);
        }
    }
}

/// Number of logical blocks that hold `count` keys which start `offset` keys
/// into the first of them.
pub open spec fn lbas_for(offset: int, count: int) -> int {
    (offset + count + 63) / 64
}

/// Number of logical blocks that hold `count` keys which start `offset` keys
/// into the first of them.
pub fn lbas_for_count(offset: usize, count: usize) -> (blocks: usize)
    ensures
        blocks == lbas_for(offset as int, count as int),
{
    let whole = (offset / ELEMENTS_PER_LBA) + (count / ELEMENTS_PER_LBA);
    let rest = (offset % ELEMENTS_PER_LBA) + (count % ELEMENTS_PER_LBA);
    whole + (rest + (ELEMENTS_PER_LBA - 1)) / ELEMENTS_PER_LBA
}

/// The first `count` keys of the buffer and the keys of the device from
/// logical block `lba` on have been made the same: by writing the buffer to
/// the device if `write` holds, else by reading the device into the buffer.
pub open spec fn transferred(
    write: bool,
    image_before: Seq<u64>,
    image: Seq<u64>,
    buffer_before: Seq<u64>,
    buffer: Seq<u64>,
    lba: int,
    count: int,
) -> bool {
    if write {
        buffer == buffer_before && copied_into(image_before, image, lba * 64, buffer_before, 0, count)
    } else {
        image == image_before && copied_into(buffer_before, buffer, 0, image_before, lba * 64, count)
    }
}

/// A transfer of `done` keys followed by one of the next `more` keys is a
/// transfer of `done + more` keys.
proof fn lemma_transfer_extends(
    write: bool,
    image_before: Seq<u64>,
    image_mid: Seq<u64>,
    image: Seq<u64>,
    buffer_before: Seq<u64>,
    buffer_mid: Seq<u64>,
    buffer: Seq<u64>,
    lba: int,
    done: int,
    more: int,
)
    requires
        0 <= done,
        0 <= more,
        0 <= lba,
        lba * 64 + done + more <= image_before.len(),
        done + more <= buffer_before.len(),
        transferred(write, image_before, image_mid, buffer_before, buffer_mid, lba, done),
        write ==> buffer == buffer_mid && copied_into(
            image_mid,
            image,
            lba * 64 + done,
            buffer_mid,
            done,
            more,
        ),
        !write ==> image == image_mid && copied_into(
            buffer_mid,
            buffer,
            done,
            image_mid,
            lba * 64 + done,
            more,
        ),
    ensures
        transferred(write, image_before, image, buffer_before, buffer, lba, done + more),
{
    let at = lba * 64;
    if write {
        assert forall|p: int| at <= p < at + done + more implies image[p] == buffer_before[p - at
            + 0] by {
            if p < at + done {
                assert(image[p] == image_mid[p]);
                assert(image_mid[p] == buffer_before[p - at + 0]);
            } else {
                assert(image[p] == buffer_mid[p - (at + done) + done]);
            }
        }
        assert forall|p: int|
            0 <= p < image_before.len() && !(at <= p < at + done + more) implies image[p]
            == image_before[p] by {
            assert(image[p] == image_mid[p]);
        }
    } else {
        assert forall|p: int| 0 <= p < done + more implies buffer[p] == image_before[p - 0 + at] by {
            if p < done {
                assert(buffer[p] == buffer_mid[p]);
                assert(buffer_mid[p] == image_before[p - 0 + at]);
            } else {
                assert(buffer[p] == image_mid[p - done + (at + done)]);
            }
        }
        assert forall|p: int|
            0 <= p < buffer_before.len() && !(0 <= p < done + more) implies buffer[p]
            == buffer_before[p] by {
            assert(buffer[p] == buffer_mid[p]);
        }
    }
}

/// Moves `num_elements` keys, which start `target_offset` keys into logical
/// block `target_lba`, between the device and the front of `buffer`, in whole
/// logical blocks, and waits for the transfer to complete.  A transfer that the
/// queue cannot hold at once is submitted request by request, each as soon as
/// an earlier one has completed.
pub fn read_write_elements(
    qpair: &mut QueuePair,
    buffer: &mut Dma,
    target_lba: usize,
    target_offset: usize,
    num_elements: usize,
    write: bool,
)
    requires
        old(qpair).wf(),
        old(qpair).in_flight == 0,
        lbas_for(target_offset as int, num_elements as int) * 64 <= old(buffer).keys@.len(),
        target_lba * 64 + lbas_for(target_offset as int, num_elements as int) * 64 <= old(qpair).image@.len(),
    ensures
        final(qpair).wf(),
        final(qpair).in_flight == 0,
        transferred(
            write,
            old(qpair).image@,
            final(qpair).image@,
            old(buffer).keys@,
            final(buffer).keys@,
            target_lba as int,
            lbas_for(target_offset as int, num_elements as int) * 64,
        ),
{
    let buffer_len = buffer.keys.len();
    let image_len = qpair.image.len();
    let num_lba = lbas_for_count(target_offset, num_elements);
    let mut remaining_chunks = num_lba / LBA_PER_CHUNK;
    let remaining_lba = num_lba % LBA_PER_CHUNK;
    let max_lba_per_queue = QUEUE_LENGTH * LBA_PER_CHUNK;
    let ghost image0 = qpair.image@;
    let ghost buffer0 = buffer.keys@;
    if num_lba < max_lba_per_queue {
        let tmp = qpair.submit_io(buffer, 0, num_lba * ELEMENTS_PER_LBA, target_lba, write);
        qpair.complete_io(tmp);
    } else {
        let mut sum: usize = 0;
        let mut i: usize = 0;
        let mut room = true;
        while i < max_lba_per_queue / LBA_PER_CHUNK && room
            invariant
                i <= max_lba_per_queue / LBA_PER_CHUNK,
                max_lba_per_queue == 16384,
                sum == i,
                i <= remaining_chunks,
                room || i >= 1,
                remaining_chunks == num_lba / 16,
                num_lba >= max_lba_per_queue,
                num_lba * 64 <= buffer_len,
                target_lba * 64 + num_lba * 64 <= image_len,
                buffer_len == buffer.keys@.len(),
                image_len == qpair.image@.len(),
                qpair.wf(),
                qpair.in_flight == sum,
                !room ==> sum == QUEUE_LENGTH,
                transferred(
                    write,
                    image0,
                    qpair.image@,
                    buffer0,
                    buffer.keys@,
                    target_lba as int,
                    i * 1024,
                ),
            decreases max_lba_per_queue / LBA_PER_CHUNK - i, room as int,
        {
            let ghost image1 = qpair.image@;
            let ghost buffer1 = buffer.keys@;
            let tmp = qpair.submit_io(
                buffer,
                i * ELEMENTS_PER_CHUNK,
                ELEMENTS_PER_CHUNK,
                i * LBA_PER_CHUNK + target_lba,
                write,
            );
            proof {
                lemma_transfer_extends(
                    write,
                    image0,
                    image1,
                    qpair.image@,
                    buffer0,
                    buffer1,
                    buffer.keys@,
                    target_lba as int,
                    i * 1024,
                    1024,
                );
            }
            sum += tmp;
            i += 1;
            if qpair.is_full() {
                room = false;
            }
        }
        remaining_chunks -= sum;
        let mut i: usize = 0;
        while i < remaining_chunks
            invariant
                i <= remaining_chunks,
                1 <= sum <= QUEUE_LENGTH,
                remaining_chunks + sum == num_lba / 16,
                num_lba * 64 <= buffer_len,
                target_lba * 64 + num_lba * 64 <= image_len,
                buffer_len == buffer.keys@.len(),
                image_len == qpair.image@.len(),
                qpair.wf(),
                qpair.in_flight == sum,
                transferred(
                    write,
                    image0,
                    qpair.image@,
                    buffer0,
                    buffer.keys@,
                    target_lba as int,
                    (i + sum) * 1024,
                ),
            decreases remaining_chunks - i,
        {
            qpair.complete_io(1);
            let ghost image1 = qpair.image@;
            let ghost buffer1 = buffer.keys@;
            let tmp = qpair.submit_io(
                buffer,
                (i + sum) * ELEMENTS_PER_CHUNK,
                ELEMENTS_PER_CHUNK,
                i * LBA_PER_CHUNK + target_lba + sum * LBA_PER_CHUNK,
                write,
            );
            proof {
                lemma_transfer_extends(
                    write,
                    image0,
                    image1,
                    qpair.image@,
                    buffer0,
                    buffer1,
                    buffer.keys@,
                    target_lba as int,
                    (i + sum) * 1024,
                    1024,
                );
            }
            i += 1;
        }
        let chunks = sum + remaining_chunks;
        let mut i: usize = 0;
        while i < remaining_lba
            invariant
                i <= remaining_lba,
                1 <= sum <= QUEUE_LENGTH,
                chunks == num_lba / 16,
                remaining_lba == num_lba % 16,
                num_lba * 64 <= buffer_len,
                target_lba * 64 + num_lba * 64 <= image_len,
                buffer_len == buffer.keys@.len(),
                image_len == qpair.image@.len(),
                qpair.wf(),
                qpair.in_flight == sum,
                transferred(
                    write,
                    image0,
                    qpair.image@,
                    buffer0,
                    buffer.keys@,
                    target_lba as int,
                    chunks * 1024 + i * 64,
                ),
            decreases remaining_lba - i,
        {
            qpair.complete_io(1);
            let ghost image1 = qpair.image@;
            let ghost buffer1 = buffer.keys@;
            let tmp = qpair.submit_io(
                buffer,
                chunks * ELEMENTS_PER_CHUNK + i * ELEMENTS_PER_LBA,
                ELEMENTS_PER_LBA,
                i + target_lba + chunks * LBA_PER_CHUNK,
                write,
            );
            proof {
                lemma_transfer_extends(
                    write,
                    image0,
                    image1,
                    qpair.image@,
                    buffer0,
                    buffer1,
                    buffer.keys@,
                    target_lba as int,
                    chunks * 1024 + i * 64,
                    64,
                );
            }
            i += 1;
        }
        qpair.complete_io(sum);
    }
}

/// Moves the keys of one large page buffer between `segment` and the device
/// from logical block `lba_offset` on.
pub fn read_write_hugepage_1G(qpair: &mut QueuePair, lba_offset: usize, segment: &mut Dma, write: bool)
    requires
        old(qpair).wf(),
        old(qpair).in_flight == 0,
        ELEMENTS_PER_HUGE_PAGE_1G <= old(segment).keys@.len(),
        lba_offset * 64 + ELEMENTS_PER_HUGE_PAGE_1G <= old(qpair).image@.len(),
    ensures
        final(qpair).wf(),
        final(qpair).in_flight == 0,
        transferred(
            write,
            old(qpair).image@,
            final(qpair).image@,
            old(segment).keys@,
            final(segment).keys@,
            lba_offset as int,
            ELEMENTS_PER_HUGE_PAGE_1G as int,
        ),
{
    read_write_elements(qpair, segment, lba_offset, 0, ELEMENTS_PER_HUGE_PAGE_1G, write);
}

/// Moves the keys of one small page buffer between `segment` and the device
/// from logical block `lba_offset` on.
pub fn read_write_hugepage_2M(qpair: &mut QueuePair, lba_offset: usize, segment: &mut Dma, write: bool)
    requires
        old(qpair).wf(),
        old(qpair).in_flight == 0,
        ELEMENTS_PER_HUGE_PAGE_2M <= old(segment).keys@.len(),
        lba_offset * 64 + ELEMENTS_PER_HUGE_PAGE_2M <= old(qpair).image@.len(),
    ensures
        final(qpair).wf(),
        final(qpair).in_flight == 0,
        transferred(
            write,
            old(qpair).image@,
            final(qpair).image@,
            old(segment).keys@,
            final(segment).keys@,
            lba_offset as int,
            ELEMENTS_PER_HUGE_PAGE_2M as int,
        ),
{
    read_write_elements(qpair, segment, lba_offset, 0, ELEMENTS_PER_HUGE_PAGE_2M, write);
}

/// Why an external sort was not started.
#[derive(Debug, Clone, Copy, PartialEq, Eq, Structural)]
pub enum SortError {
    /// The mode asked for does not exist.
    Unsupported,
    /// The device does not hold whole pages, or its queue is not idle.
    BadDevice,
    /// The range to sort does not lie on the device.
    OutOfRange,
    /// There is no page buffer, or a page buffer does not have the size of a page.
    BadBuffers,
}

/// Every buffer of `buffers` has room for exactly one page.
pub open spec fn page_buffers(buffers: Seq<Dma>) -> bool {
    &&& buffers.len() >= 1
    &&& forall|s: int| 0 <= s < buffers.len() ==> (#[trigger] buffers[s]).keys@.len() == 1024
}

/// The error that keeps a rolling sort of the first `len` keys of the device
/// from starting, if any.
pub open spec fn rolling_sort_error(
    qpair: QueuePair,
    buffers: Seq<Dma>,
    len: int,
    parallel: bool,
) -> Option<SortError> {
    if parallel {
        Some(SortError::Unsupported)
    } else if !(qpair.wf() && qpair.in_flight == 0 && qpair.image@.len() % 1024 == 0) {
        Some(SortError::BadDevice)
    } else if len > qpair.image@.len() || len + 256 > isize::MAX {
        Some(SortError::OutOfRange)
    } else if !page_buffers(buffers) {
        Some(SortError::BadBuffers)
    } else {
        None
    }
}

/// Tells whether every buffer of `buffers` has room for exactly one page.
pub fn check_page_buffers(buffers: &Vec<Dma>) -> (ok: bool)
    ensures
        ok == page_buffers(buffers@),
{
    if buffers.len() == 0 {
        return false;
    }
    let mut s: usize = 0;
    while s < buffers.len()
        invariant
            s <= buffers@.len(),
            forall|t: int| 0 <= t < s ==> (#[trigger] buffers@[t]).keys@.len() == 1024,
        decreases buffers@.len() - s,
    {
        if buffers[s].keys.len() != ELEMENTS_PER_CHUNK {
            return false;
        }
        s += 1;
    }
    true
}

/// Sorts the first `len` keys of the device in place, with the rolling sort.
/// `buffers` is the window of page buffers, each the size of one request;
/// `sort_buffer` is the buffer in which ranges that fit it are sorted in
/// memory.  The device comes back with its first `len` keys in ascending
/// order, each as often as before, and all other keys as they were.
pub fn rolling_sort(
    qpair: QueuePair,
    buffers: Vec<Dma>,
    sort_buffer: Dma,
    len: usize,
    parallel: bool,
) -> (result: Result<QueuePair, SortError>)
    ensures
        match rolling_sort_error(qpair, buffers@, len as int, parallel) {
            Some(error) => result == Err::<QueuePair, SortError>(error),
            None => result is Ok && result.unwrap().wf() && result.unwrap().in_flight == 0
                && is_sorted(result.unwrap().image@.subrange(0, len as int)) && is_permutation(
                qpair.image@.subrange(0, len as int),
                result.unwrap().image@.subrange(0, len as int),
            ) && same_outside(qpair.image@, result.unwrap().image@, 0, len as int),
        },
{
    if parallel {
        return Err(SortError::Unsupported);
    }
    let image_len = qpair.image.len();
    if !(image_len % ELEMENTS_PER_LBA == 0 && qpair.in_flight == 0 && image_len % ELEMENTS_PER_CHUNK
        == 0) {
        return Err(SortError::BadDevice);
    }
    if len > image_len || len > isize::MAX as usize - 256 {
        return Err(SortError::OutOfRange);
    }
    if !check_page_buffers(&buffers) {
        return Err(SortError::BadBuffers);
    }
    let ghost image = qpair.image@;
    let mut sorter = IPS2RaSorter::new_ext_sequential(qpair, buffers, sort_buffer);
    let mut task = ExtTask::new(0, 0, len, 0, 8);
    proof {
        lemma_keys_agree_full(task.keys(image));
    }
    sorter.sequential_rolling_sort(&mut task);
    let qpair = sorter.qpair.take().unwrap();
    proof {
        assert(task.keys(qpair.image@) == qpair.image@.subrange(0, len as int));
    }
    Ok(qpair)
}

/// Sorts the first `len` keys of the device by sorting chunks and merging
/// them: with one pass over every group of runs, or, if `parallel` holds, with
/// one pass for every worker.
pub fn sort_merge(
    qpair: QueuePair,
    buffers: Vec<Dma>,
    sort_buffer: Dma,
    len: usize,
    parallel: bool,
) -> (result: Result<QueuePair, SortError>)
    ensures
        crate::sequential_sort_merge::sort_merge_result(
            qpair,
            buffers@,
            sort_buffer,
            len as int,
            if parallel {
                crate::config::NUM_THREADS + 1
            } else {
                3
            },
            result,
        ),
{
    if !parallel {
        crate::sequential_sort_merge::sequential_sort_merge(qpair, buffers, sort_buffer, len)
    } else {
        crate::parallel_sort_merge::parallel_sort_merge(qpair, buffers, sort_buffer, len)
    }
}

} // verus!
