//! Tasks and the state of the partitioning engine.

use crate::config::{BLOCKSIZE, K, THRESHOLD};
use crate::device::{Dma, QueuePair};
use crate::model::{all_in_bucket, blocks_uniform, count_in_bucket};
use crate::parts::concat_parts;
use vstd::prelude::*;

verus! {

/// Number of bucket boundaries: one before each bucket and one after the last.
pub const NUM_BOUNDARIES: usize = 257;

/// One range of keys in memory that is still to be sorted, with the radix
/// levels that tell its keys apart.
pub struct Task<'a> {
    pub arr: &'a mut [u64],
    pub level: usize,
    pub level_end: usize,
}

/// One range of keys on the device that is still to be sorted: it starts
/// `offset` keys into logical block `start_lba` and holds `size` keys.
pub struct ExtTask {
    pub start_lba: usize,
    pub offset: usize,
    pub size: usize,
    pub level: usize,
    pub level_end: usize,
}

/// The partitioning engine: counters, staging blocks and cursors of one
/// partitioning round.  One instance serves a whole recursion; it is cleared
/// between tasks.
pub struct IPS2RaSorter {
    pub block_counts: [usize; K],
    pub element_counts: [u64; K],
    pub classified_elements: usize,
    pub pointers: [(i64, i64); K],
    pub boundaries: [u64; NUM_BOUNDARIES],
    pub primary_bucket: usize,
    pub blocks: [[u64; BLOCKSIZE]; K],
    pub overflow: bool,
    pub overflow_buffer: [u64; BLOCKSIZE],
    pub swap_buffer: [[u64; BLOCKSIZE]; 2],
    pub parallel: bool,
    pub qpair: Option<QueuePair>,
    pub buffers: Option<Vec<Dma>>,
    pub sort_buffer: Option<Dma>,
}

impl<'a> Task<'a> {
    pub fn new(arr: &'a mut [u64], level: usize, level_end: usize) -> (task: Task<'a>)
        ensures
            task.arr@ == old(arr)@,
            task.level == level,
            task.level_end == level_end,
            final(arr)@ == final(task.arr)@,
    {
        Task { arr, level, level_end }
    }

    /// A task this small is sorted directly.
    pub fn is_base_case(&self) -> (small: bool)
        ensures
            small == (old(self.arr)@.len() <= THRESHOLD),
    {
        self.arr.len() <= THRESHOLD
    }
}

/// The keys of bucket `b` of `arr`, where the buckets hold `counts` keys and
/// stand one behind the other.
pub open spec fn bucket_keys(arr: Seq<u64>, counts: Seq<u64>, b: int) -> Seq<u64> {
    arr.subrange(crate::model::prefix_sum(counts, b), crate::model::prefix_sum(counts, b + 1))
}

/// The buckets among the first `n` that hold more than one key, in their
/// order.
pub open spec fn surviving(arr: Seq<u64>, counts: Seq<u64>, n: int) -> Seq<Seq<u64>>
    decreases n,
{
    if n <= 0 {
        Seq::empty()
    } else if counts[n - 1] > 1 {
        surviving(arr, counts, n - 1).push(bucket_keys(arr, counts, n - 1))
    } else {
        surviving(arr, counts, n - 1)
    }
}

impl<'a> Task<'a> {
    /// Cuts the task into one task for every bucket of more than one key, at
    /// the next level and in the order of the buckets: bucket `b` holds
    /// `element_counts[b]` keys and starts where the bucket before it ends.
    /// Keys behind the last bucket belong to no task.
    pub fn generate_subtasks(&mut self, element_counts: &[u64; K]) -> (tasks: Vec<Task<'_>>)
        requires
            crate::model::prefix_sum(element_counts@, 256) <= old(self).arr@.len(),
            old(self).level < usize::MAX,
        ensures
            tasks@.len() == surviving(old(self).arr@, element_counts@, 256).len(),
            forall|i: int|
                0 <= i < tasks@.len() ==> (#[trigger] tasks@[i]).level == old(self).level + 1
                    && tasks@[i].level_end == old(self).level_end && tasks@[i].arr@ == surviving(
                    old(self).arr@,
                    element_counts@,
                    256,
                )[i],
    {
        let level = self.level + 1;
        let level_end = self.level_end;
        let ghost whole = self.arr@;
        let ghost counts = element_counts@;
        let mut res: Vec<Task<'_>> = Vec::new();
        let mut rest: &mut [u64] = &mut *self.arr;
        let mut i: usize = 0;
        proof {
            crate::model::lemma_prefix_sum_monotone(counts, 0, 256);
            assert(rest@ =~= whole.subrange(0, whole.len() as int));
        }
        while i < K
            invariant
                i <= K,
                counts == element_counts@,
                crate::model::prefix_sum(counts, 256) <= whole.len(),
                res@.len() == surviving(whole, counts, i as int).len(),
                rest@ == whole.subrange(
                    crate::model::prefix_sum(counts, i as int),
                    whole.len() as int,
                ),
                0 <= crate::model::prefix_sum(counts, i as int) <= whole.len(),
                forall|k: int|
                    0 <= k < res@.len() ==> (#[trigger] res@[k]).level == level
                        && res@[k].level_end == level_end && res@[k].arr@ == surviving(
                        whole,
                        counts,
                        i as int,
                    )[k],
            decreases K - i,
        {
            proof {
                crate::model::lemma_prefix_sum_monotone(counts, i + 1, 256);
                crate::model::lemma_prefix_sum_monotone(counts, i as int, i + 1);
            }
            let (left, right) = rest.split_at_mut(element_counts[i] as usize);
            proof {
                assert(left@ =~= bucket_keys(whole, counts, i as int));
                assert(right@ =~= whole.subrange(
                    crate::model::prefix_sum(counts, i + 1),
                    whole.len() as int,
                ));
            }
            rest = right;
            if left.len() > 1 {
                res.push(Task::new(left, level, level_end));
            }
            i += 1;
        }
        res
    }
}

impl ExtTask {
    pub fn new(start_lba: usize, offset: usize, size: usize, level: usize, level_end: usize) -> (task:
        ExtTask)
        ensures
            task.start_lba == start_lba,
            task.offset == offset,
            task.size == size,
            task.level == level,
            task.level_end == level_end,
    {
        ExtTask { start_lba, offset, size, level, level_end }
    }
}

impl IPS2RaSorter {
    /// The keys staged for bucket `b`.
    pub open spec fn staged(&self, b: int) -> Seq<u64> {
        self.blocks[b]@.subrange(0, self.block_counts[b] as int)
    }

    /// The staged keys of all buckets, bucket by bucket.
    pub open spec fn staged_parts(&self) -> Seq<Seq<u64>> {
        Seq::new(K as nat, |b: int| self.staged(b))
    }

    /// No key is counted or staged and nothing has overflowed: the state a
    /// partitioning round starts from.
    pub open spec fn is_cleared(&self) -> bool {
        &&& forall|b: int| 0 <= b < K ==> #[trigger] self.block_counts[b] == 0
        &&& forall|b: int| 0 <= b < K ==> #[trigger] self.element_counts[b] == 0
        &&& !self.overflow
    }

    /// `other` has the same mode and the same device resources as `self`.
    pub open spec fn same_resources(&self, other: &Self) -> bool {
        &&& self.parallel == other.parallel
        &&& self.qpair == other.qpair
        &&& self.buffers == other.buffers
        &&& self.sort_buffer == other.sort_buffer
    }

    /// The state after classification of `input` at `level`, where `keys` is
    /// what the range holds now: every key is counted in its bucket, the full
    /// blocks stand at the front of the range, the keys that fill no block
    /// are staged, and behind the full blocks the range holds what it held.
    pub open spec fn classified(&self, keys: Seq<u64>, input: Seq<u64>, level: int) -> bool {
        let c = self.classified_elements as int;
        &&& keys.len() == input.len()
        &&& 0 <= c <= keys.len()
        &&& c % 128 == 0
        &&& !self.overflow
        &&& forall|b: int|
            0 <= b < K ==> #[trigger] self.element_counts[b] == count_in_bucket(input, level, b)
        &&& forall|b: int|
            0 <= b < K ==> #[trigger] self.block_counts[b] == self.element_counts[b] % 128
        &&& forall|b: int| 0 <= b < K ==> all_in_bucket(#[trigger] self.staged(b), level, b)
        &&& forall|b: int|
            0 <= b < K ==> #[trigger] count_in_bucket(keys.subrange(0, c), level, b) == (
            self.element_counts[b] / 128) * 128
        &&& blocks_uniform(keys.subrange(0, c), level)
        &&& keys.subrange(0, c).to_multiset().add(concat_parts(self.staged_parts()).to_multiset())
            == input.to_multiset()
        &&& keys.subrange(c, keys.len() as int) == input.subrange(c, input.len() as int)
    }

    /// A sorter for the sequential mode, ready for its first task.
    #[inline(never)]
    pub fn new_sequential() -> (sorter: Box<IPS2RaSorter>)
        ensures
            sorter.is_cleared(),
            !sorter.parallel,
            sorter.qpair is None,
            sorter.buffers is None,
            sorter.sort_buffer is None,
    {
        Box::new(
            IPS2RaSorter {
                classified_elements: 0,
                pointers: [(0, 0); K],
                boundaries: [0; NUM_BOUNDARIES],
                primary_bucket: 0,
                blocks: [[0; BLOCKSIZE]; K],
                block_counts: [0; K],
                element_counts: [0; K],
                overflow: false,
                overflow_buffer: [0; BLOCKSIZE],
                swap_buffer: [[0u64; BLOCKSIZE]; 2],
                parallel: false,
                qpair: None,
                buffers: None,
                sort_buffer: None,
            },
        )
    }

    /// A sorter for one branch of the parallel mode.
    #[inline(never)]
    pub fn new_parallel() -> (sorter: Box<IPS2RaSorter>)
        ensures
            sorter.is_cleared(),
            sorter.parallel,
            sorter.qpair is None,
            sorter.buffers is None,
            sorter.sort_buffer is None,
    {
        Box::new(
            IPS2RaSorter {
                classified_elements: 0,
                pointers: [(0, 0); K],
                boundaries: [0; NUM_BOUNDARIES],
                primary_bucket: 0,
                blocks: [[0; BLOCKSIZE]; K],
                block_counts: [0; K],
                element_counts: [0; K],
                overflow: false,
                overflow_buffer: [0; BLOCKSIZE],
                swap_buffer: [[0u64; BLOCKSIZE]; 2],
                parallel: true,
                qpair: None,
                buffers: None,
                sort_buffer: None,
            },
        )
    }

    /// A sorter for the external mode, which owns the queue pair and the page
    /// buffers it works with.
    #[inline(never)]
    pub fn new_ext_sequential(qpair: QueuePair, buffers: Vec<Dma>, sort_buffer: Dma) -> (sorter:
        Box<IPS2RaSorter>)
        ensures
            sorter.is_cleared(),
            !sorter.parallel,
            sorter.qpair == Some(qpair),
            sorter.buffers == Some(buffers),
            sorter.sort_buffer == Some(sort_buffer),
    {
        Box::new(
            IPS2RaSorter {
                classified_elements: 0,
                pointers: [(0, 0); K],
                boundaries: [0; NUM_BOUNDARIES],
                primary_bucket: 0,
                blocks: [[0; BLOCKSIZE]; K],
                block_counts: [0; K],
                element_counts: [0; K],
                overflow: false,
                overflow_buffer: [0; BLOCKSIZE],
                swap_buffer: [[0u64; BLOCKSIZE]; 2],
                parallel: false,
                qpair: Some(qpair),
                buffers: Some(buffers),
                sort_buffer: Some(sort_buffer),
            },
        )
    }

    /// Resets the counters, the overflow buffer and the overflow flag, so that
    /// the sorter can take the next task.
    pub fn clear(&mut self)
        ensures
            final(self).is_cleared(),
            final(self).same_resources(old(self)),
            final(self).primary_bucket == 0,
            forall|j: int| 0 <= j < BLOCKSIZE ==> final(self).overflow_buffer[j] == 0,
            final(self).blocks == old(self).blocks,
            final(self).swap_buffer == old(self).swap_buffer,
            final(self).pointers == old(self).pointers,
            final(self).boundaries == old(self).boundaries,
            final(self).classified_elements == old(self).classified_elements,
    {
        let mut i: usize = 0;
        while i < K
            invariant
                i <= K,
                forall|b: int| 0 <= b < i ==> #[trigger] self.block_counts[b] == 0,
                forall|b: int| 0 <= b < i ==> #[trigger] self.element_counts[b] == 0,
                self.same_resources(old(self)),
                self.blocks == old(self).blocks,
                self.swap_buffer == old(self).swap_buffer,
                self.pointers == old(self).pointers,
                self.boundaries == old(self).boundaries,
                self.classified_elements == old(self).classified_elements,
            decreases K - i,
        {
            self.block_counts[i] = 0;
            self.element_counts[i] = 0;
            i += 1;
        }
        let mut j: usize = 0;
        while j < BLOCKSIZE
            invariant
                j <= BLOCKSIZE,
                forall|b: int| 0 <= b < K ==> #[trigger] self.block_counts[b] == 0,
                forall|b: int| 0 <= b < K ==> #[trigger] self.element_counts[b] == 0,
                forall|p: int| 0 <= p < j ==> self.overflow_buffer[p] == 0,
                self.same_resources(old(self)),
                self.blocks == old(self).blocks,
                self.swap_buffer == old(self).swap_buffer,
                self.pointers == old(self).pointers,
                self.boundaries == old(self).boundaries,
                self.classified_elements == old(self).classified_elements,
            decreases BLOCKSIZE - j,
        {
            self.overflow_buffer[j] = 0;
            j += 1;
        }
        self.primary_bucket = 0;
        self.overflow = false;
    }
}

} // verus!
