//! The external counterpart of the sequential recursion: the keys of a task
//! lie on the device.  A range that fits the sort buffer is read in whole,
//! sorted in memory and written back; a larger one is partitioned on the
//! device through a window of page buffers, and every bucket is sorted in the
//! same way.

use crate::config::{ELEMENTS_PER_LBA, K};
use crate::model::{all_in_bucket, high_part, is_permutation, is_sorted, keys_agree, lemma_all_in_bucket_permutation, lemma_keys_agree_permutation, low_part, prefix_sum};
use crate::permutation::same_outside;
use crate::sequential::{
    buckets_in_place, cuts_range, lemma_bounds_ordered, lemma_bucket_keys_agree,
    lemma_last_level_bucket_sorted, lemma_reordered_range, lemma_sorted_by_buckets,
};
use crate::sort::{lbas_for, read_write_elements};
use crate::sorter::{ExtTask, IPS2RaSorter, NUM_BOUNDARIES};
use crate::window::{lemma_same_view, DeviceKeys};
use crate::store::KeyStore;
use vstd::prelude::*;
use vstd::std_specs::bits::{axiom_u64_leading_zeros, u64_leading_zeros};

verus! {

/// The largest key of `s`, or 0 where `s` is empty.
pub open spec fn max_key(s: Seq<u64>) -> u64
    decreases s.len(),
{
    if s.len() == 0 {
        0
    } else if s.last() >= max_key(s.drop_last()) {
        s.last()
    } else {
        max_key(s.drop_last())
    }
}

pub proof fn lemma_max_key_bounds(s: Seq<u64>, i: int)
    requires
        0 <= i < s.len(),
    ensures
        s[i] <= max_key(s),
    decreases s.len(),
{
    if i < s.len() - 1 {
        lemma_max_key_bounds(s.drop_last(), i);
    }
}

/// A key that is not above `top` has zero digits wherever `top` has leading
/// zero digits.
proof fn lemma_leading_zero_digits(key: u64, top: u64, level: int)
    requires
        key <= top,
        0 <= level < 8,
        level <= u64_leading_zeros(top) / 8,
    ensures
        high_part(key, level) == 0,
{
    axiom_u64_leading_zeros(top);
    let lz = u64_leading_zeros(top);
    let hs = (64 - lz) as u64;
    let s = (56 - 8 * level) as u64;
    assert(top >> hs == 0);
    assert((key >> s) >> 8 == 0) by (bit_vector)
        requires
            key <= top,
            top >> hs == 0,
            hs <= s + 8,
            s <= 56,
            hs <= 64,
    ;
}

impl ExtTask {
    /// Position on the device of the first key of the task.
    pub open spec fn first(&self) -> int {
        self.start_lba * 64 + self.offset
    }

    /// The keys of the task on a device that holds `image`.
    pub open spec fn keys(&self, image: Seq<u64>) -> Seq<u64> {
        image.subrange(self.first(), self.first() + self.size)
    }
}

impl IPS2RaSorter {
    /// The keys that the device of the sorter holds.
    pub open spec fn image(&self) -> Seq<u64> {
        self.qpair.unwrap().image@
    }

    /// The sorter holds a queue pair with no request in flight, on a device of
    /// whole pages, and a window of at least one page buffer.
    pub open spec fn ext_ready(&self) -> bool {
        &&& self.qpair is Some
        &&& self.buffers is Some
        &&& self.qpair.unwrap().wf()
        &&& self.qpair.unwrap().in_flight == 0
        &&& self.image().len() % 1024 == 0
        &&& self.image().len() < usize::MAX
        &&& self.buffers.unwrap()@.len() >= 1
        &&& forall|s: int|
            0 <= s < self.buffers.unwrap()@.len() ==> (#[trigger] self.buffers.unwrap()@[s]).keys@.len()
                == 1024
    }

    /// Opens a window on the keys of a task.
    pub fn open_window(&mut self, task: &ExtTask) -> (window: DeviceKeys)
        requires
            old(self).ext_ready(),
            task.first() + task.size <= old(self).image().len(),
        ensures
            window.inv(),
            window.first == task.first(),
            window.len == task.size,
            window.shown() == old(self).image(),
            window.keys() == task.keys(old(self).image()),
            window.qpair.image@.len() == old(self).image().len(),
            window.buffers@.len() == old(self).buffers.unwrap()@.len(),
            final(self).qpair is None,
            final(self).buffers is None,
            final(self).sort_buffer == old(self).sort_buffer,
            final(self).parallel == old(self).parallel,
            final(self).same_state(old(self)),
    {
        let qpair = self.qpair.take().unwrap();
        let buffers = self.buffers.take().unwrap();
        let first = task.start_lba * ELEMENTS_PER_LBA + task.offset;
        let window = DeviceKeys::open(qpair, buffers, first, task.size);
        proof {
            assert(window.keys() =~= task.keys(old(self).image()));
        }
        window
    }

    /// Writes the pages of a window back and takes the queue pair and the
    /// buffers from it.
    pub fn close_window(&mut self, window: DeviceKeys)
        requires
            window.inv(),
            old(self).qpair is None,
            old(self).buffers is None,
        ensures
            final(self).ext_ready(),
            final(self).image() == window.shown(),
            final(self).buffers.unwrap()@.len() == window.buffers@.len(),
            final(self).sort_buffer == old(self).sort_buffer,
            final(self).parallel == old(self).parallel,
            final(self).same_state(old(self)),
    {
        let mut window = window;
        let ghost entry = window;
        window.flush();
        proof {
            assert forall|s: int| 0 <= s < window.slots() implies (
            #[trigger] window.buffers@[s]).keys@.len() == 1024 by {
                assert(window.slot_ok(s));
            }
        }
        let (qpair, buffers) = window.close();
        self.qpair = Some(qpair);
        self.buffers = Some(buffers);
    }

    /// All that a partitioning round reads and writes is the same in `other`.
    pub open spec fn same_state(&self, other: &Self) -> bool {
        &&& self.block_counts == other.block_counts
        &&& self.element_counts == other.element_counts
        &&& self.classified_elements == other.classified_elements
        &&& self.pointers == other.pointers
        &&& self.boundaries == other.boundaries
        &&& self.primary_bucket == other.primary_bucket
        &&& self.blocks == other.blocks
        &&& self.overflow == other.overflow
        &&& self.overflow_buffer == other.overflow_buffer
        &&& self.swap_buffer == other.swap_buffer
    }
}

/// What a run through a window leaves of the device: outside the range of
/// the window it shows what it showed when it was opened.
pub proof fn lemma_window_result(opened: &DeviceKeys, after: &DeviceKeys)
    requires
        opened.inv(),
        after.inv(),
        after.surroundings() == opened.surroundings(),
    ensures
        after.first == opened.first,
        after.len == opened.len,
        after.slots() == opened.slots(),
        after.shown().len() == opened.shown().len(),
        same_outside(
            opened.shown(),
            after.shown(),
            opened.first as int,
            opened.first + opened.len,
        ),
        after.keys() == after.shown().subrange(after.first as int, after.first + after.len),
        opened.keys() == opened.shown().subrange(opened.first as int, opened.first + opened.len),
{
    let x = opened.surroundings();
    let y = after.surroundings();
    assert(x[0] == y[0]);
    assert(x[1] == y[1]);
    assert(x[2] == y[2]);
    assert(x.len() == 3 + opened.qpair.image@.len());
    assert(y.len() == 3 + after.qpair.image@.len());
    assert forall|a: int|
        0 <= a < opened.shown().len() && !(opened.first <= a < opened.first
            + opened.len) implies #[trigger] after.shown()[a] == opened.shown()[a] by {
        assert(x[3 + a] == y[3 + a]);
    }
    assert(after.keys() =~= after.shown().subrange(after.first as int, after.first + after.len));
    assert(opened.keys() =~= opened.shown().subrange(
        opened.first as int,
        opened.first + opened.len,
    ));
}

/// Keys that are moved inside a part of a range are moved inside the range.
proof fn lemma_inner_range(
    image: Seq<u64>,
    after: Seq<u64>,
    first: int,
    len: int,
    lo: int,
    hi: int,
)
    requires
        0 <= first,
        0 <= lo <= hi <= len,
        first + len <= image.len(),
        same_outside(image, after, first + lo, first + hi),
    ensures
        same_outside(image, after, first, first + len),
        after.subrange(first, first + len).subrange(0, lo) == image.subrange(
            first,
            first + len,
        ).subrange(0, lo),
        after.subrange(first, first + len).subrange(hi, len) == image.subrange(
            first,
            first + len,
        ).subrange(hi, len),
        after.subrange(first, first + len).subrange(lo, hi) == after.subrange(first + lo, first + hi),
        image.subrange(first, first + len).subrange(lo, hi) == image.subrange(first + lo, first + hi),
{
    let x = image.subrange(first, first + len);
    let y = after.subrange(first, first + len);
    assert(y.subrange(0, lo) =~= x.subrange(0, lo));
    assert(y.subrange(hi, len) =~= x.subrange(hi, len));
    assert(y.subrange(lo, hi) =~= after.subrange(first + lo, first + hi));
    assert(x.subrange(lo, hi) =~= image.subrange(first + lo, first + hi));
}

/// The first level at which keys can differ whose levels end before
/// `level_end`: the number of leading bytes that are zero in the largest key,
/// and at most the level before `level_end`.
pub open spec fn leading_level(keys: Seq<u64>, level_end: int) -> int {
    if u64_leading_zeros(max_key(keys)) / 8 < level_end {
        u64_leading_zeros(max_key(keys)) as int / 8
    } else {
        level_end - 1
    }
}

impl IPS2RaSorter {
    /// Sets the level of `task` to the first level at which its keys can
    /// differ: the number of leading bytes that are zero in its largest key,
    /// and at most the level before `task.level_end`.
    pub fn sample(&mut self, task: &mut ExtTask)
        requires
            old(self).ext_ready(),
            old(task).first() + old(task).size <= old(self).image().len(),
            old(task).level < old(task).level_end <= 8,
        ensures
            final(self).ext_ready(),
            final(self).image() == old(self).image(),
            final(self).buffers.unwrap()@.len() == old(self).buffers.unwrap()@.len(),
            final(self).same_state(old(self)),
            final(self).sort_buffer == old(self).sort_buffer,
            final(self).parallel == old(self).parallel,
            final(task).start_lba == old(task).start_lba,
            final(task).offset == old(task).offset,
            final(task).size == old(task).size,
            final(task).level_end == old(task).level_end,
            final(task).level == if u64_leading_zeros(max_key(old(task).keys(old(self).image())))
                / 8 < old(task).level_end {
                u64_leading_zeros(max_key(old(task).keys(old(self).image()))) / 8
            } else {
                old(task).level_end - 1
            },
    {
        let ghost image = self.image();
        let ghost range = task.keys(image);
        let mut window = self.open_window(task);
        let ghost opened = window;
        let mut max: u64 = 0;
        let mut i: usize = 0;
        while i < task.size
            invariant
                i <= task.size,
                task.size == window.len,
                window.inv(),
                window.shows_same(&opened),
                opened.keys() == range,
                opened.first + opened.len <= opened.qpair.image@.len(),
                max == max_key(range.subrange(0, i as int)),
            decreases task.size - i,
        {
            let ghost before = window;
            let key = window.get(i);
            if key > max {
                max = key;
            }
            proof {
                assert forall|a: int|
                    0 <= a < window.qpair.image@.len() implies #[trigger] window.key_at(a)
                    == opened.key_at(a) by {
                    assert(before.key_at(a) == opened.key_at(a));
                }
                assert(range.subrange(0, i + 1).drop_last() =~= range.subrange(0, i as int));
                assert(key == range[i as int]);
            }
            i += 1;
        }
        proof {
            lemma_same_view(&opened, &window);
            assert(range.subrange(0, task.size as int) =~= range);
            axiom_u64_leading_zeros(max);
        }
        self.close_window(window);
        let zero_bytes = (max.leading_zeros() / 8) as usize;
        if zero_bytes < task.level_end {
            task.level = zero_bytes;
        } else {
            task.level = task.level_end - 1;
        }
    }

    /// Raises the level of a task at level 0 past the leading bytes that are
    /// zero in all its keys.  A task at a later level keeps its level.
    fn settle_level(&mut self, task: &mut ExtTask)
        requires
            old(self).ext_ready(),
            old(task).first() + old(task).size <= old(self).image().len(),
            old(task).level < old(task).level_end <= 8,
        ensures
            final(self).ext_ready(),
            final(self).image() == old(self).image(),
            final(self).buffers.unwrap()@.len() == old(self).buffers.unwrap()@.len(),
            final(self).same_state(old(self)),
            final(self).sort_buffer == old(self).sort_buffer,
            final(self).parallel == old(self).parallel,
            final(task).start_lba == old(task).start_lba,
            final(task).offset == old(task).offset,
            final(task).size == old(task).size,
            final(task).level_end == old(task).level_end,
            final(task).level == if old(task).level == 0 {
                leading_level(old(task).keys(old(self).image()), old(task).level_end as int)
            } else {
                old(task).level as int
            },
            old(task).level <= final(task).level < final(task).level_end,
            keys_agree(
                old(task).keys(old(self).image()),
                old(task).level as int,
                old(task).level_end as int,
            ) ==> keys_agree(
                old(task).keys(old(self).image()),
                final(task).level as int,
                final(task).level_end as int,
            ),
    {
        let ghost input = task.keys(self.image());
        let ghost agree = keys_agree(input, task.level as int, task.level_end as int);
        if task.level == 0 {
            self.sample(task);
            proof {
                let top = max_key(input);
                if agree {
                    assert forall|i: int, j: int|
                        0 <= i < input.len() && 0 <= j < input.len() implies high_part(
                        #[trigger] input[i],
                        task.level as int,
                    ) == high_part(#[trigger] input[j], task.level as int) && low_part(
                        input[i],
                        task.level_end as int,
                    ) == low_part(input[j], task.level_end as int) by {
                        lemma_max_key_bounds(input, i);
                        lemma_max_key_bounds(input, j);
                        lemma_leading_zero_digits(input[i], top, task.level as int);
                        lemma_leading_zero_digits(input[j], top, task.level as int);
                    }
                }
            }
        }
    }

    /// Sorts a task whose keys fit the sort buffer: the logical blocks that
    /// hold the keys are read into the buffer, the keys are partitioned in
    /// memory at the levels of the task, and the blocks are written back.  Keys
    /// that differ only in the levels of the task come out sorted.
    fn sort_in_buffer(&mut self, task: &ExtTask)
        requires
            old(self).ext_ready(),
            old(self).is_cleared(),
            old(self).sort_buffer is Some,
            task.first() + task.size <= old(self).image().len(),
            task.size + 256 <= isize::MAX,
            task.level < task.level_end <= 8,
            lbas_for(task.offset as int, task.size as int) * 64 <= old(self).sort_buffer.unwrap().keys@.len(),
        ensures
            final(self).ext_ready(),
            final(self).sort_buffer is Some,
            final(self).parallel == old(self).parallel,
            final(self).image().len() == old(self).image().len(),
            final(self).buffers == old(self).buffers,
            final(self).sort_buffer.unwrap().keys@.len() == old(self).sort_buffer.unwrap().keys@.len(),
            keys_agree(task.keys(old(self).image()), task.level as int, task.level_end as int)
                ==> is_sorted(task.keys(final(self).image())),
            is_permutation(task.keys(old(self).image()), task.keys(final(self).image())),
            same_outside(
                old(self).image(),
                final(self).image(),
                task.first(),
                task.first() + task.size,
            ),
    {
        let ghost image0 = self.image();
        let ghost input = task.keys(image0);
        let ghost first = task.first();
        let ghost len = task.size as int;
        let ghost num_lba = lbas_for(task.offset as int, task.size as int);
        let mut qpair = self.qpair.take().unwrap();
        let mut buffer = self.sort_buffer.take().unwrap();
        read_write_elements(&mut qpair, &mut buffer, task.start_lba, task.offset, task.size, false);
        let ghost loaded = buffer.keys@;
        let slice = buffer.keys.as_mut_slice();
        let (_head, rest) = slice.split_at_mut(task.offset);
        let (middle, _tail) = rest.split_at_mut(task.size);
        proof {
            assert(middle@ =~= input);
        }
        self.sort_levels(middle, task.level, task.level_end);
        let ghost ordered = middle@;
        proof {
            assert(buffer.keys@ =~= loaded.subrange(0, task.offset as int) + (ordered
                + loaded.subrange(task.offset + task.size, loaded.len() as int)));
        }
        let ghost stored = buffer.keys@;
        read_write_elements(&mut qpair, &mut buffer, task.start_lba, task.offset, task.size, true);
        proof {
            let image = qpair.image@;
            let base = task.start_lba * 64;
            assert forall|p: int|
                0 <= p < image0.len() && !(first <= p < first + len) implies #[trigger] image[p]
                == image0[p] by {
                if base <= p < base + num_lba * 64 {
                    assert(image[p] == stored[p - base + 0]);
                    assert(loaded[p - base] == image0[p - base - 0 + base]);
                }
            }
            assert(task.keys(image) =~= ordered);
        }
        self.qpair = Some(qpair);
        self.sort_buffer = Some(buffer);
    }

    /// One partitioning round on the keys of a task, through a window on the
    /// device.  Returns the boundaries of the buckets.
    fn partition_on_device(&mut self, task: &ExtTask) -> (bucket_start: [u64; NUM_BOUNDARIES])
        requires
            old(self).ext_ready(),
            old(self).is_cleared(),
            task.first() + task.size <= old(self).image().len(),
            task.size + 256 <= isize::MAX,
            task.level < task.level_end <= 8,
        ensures
            final(self).ext_ready(),
            final(self).sort_buffer == old(self).sort_buffer,
            final(self).parallel == old(self).parallel,
            final(self).image().len() == old(self).image().len(),
            final(self).buffers.unwrap()@.len() == old(self).buffers.unwrap()@.len(),
            is_permutation(task.keys(old(self).image()), task.keys(final(self).image())),
            same_outside(
                old(self).image(),
                final(self).image(),
                task.first(),
                task.first() + task.size,
            ),
            cuts_range(bucket_start@, task.size as int),
            buckets_in_place(task.keys(final(self).image()), bucket_start@, task.level as int),
            keys_agree(task.keys(old(self).image()), task.level as int, task.level_end as int)
                ==> keys_agree(
                task.keys(final(self).image()),
                task.level as int,
                task.level_end as int,
            ),
    {
        let ghost input = task.keys(self.image());
        let mut window = self.open_window(task);
        let ghost opened = window;
        self.partition_keys(&mut window, task.level, task.level_end);
        proof {
            lemma_window_result(&opened, &window);
        }
        let ghost parted = *self;
        let ghost range = window.keys();
        self.close_window(window);
        let bucket_start = self.boundaries;
        proof {
            let bounds = bucket_start@;
            assert(task.keys(self.image()) == range);
            if keys_agree(input, task.level as int, task.level_end as int) {
                lemma_keys_agree_permutation(
                    input,
                    range,
                    task.level as int,
                    task.level_end as int,
                );
            }
            assert(cuts_range(bounds, task.size as int)) by {
                assert forall|b: int| 0 <= b < 256 implies bounds[b] <= #[trigger] bounds[b + 1] by {
                    assert(parted.boundaries[b] == prefix_sum(parted.element_counts@, b));
                    assert(parted.boundaries[b + 1] == prefix_sum(parted.element_counts@, b + 1));
                }
                assert(parted.boundaries[0] == prefix_sum(parted.element_counts@, 0));
                assert(parted.boundaries[256] == prefix_sum(parted.element_counts@, 256));
            }
            assert(buckets_in_place(range, bounds, task.level as int)) by {
                assert forall|b: int| 0 <= b < 256 implies all_in_bucket(
                    #[trigger] range.subrange(bounds[b] as int, bounds[b + 1] as int),
                    task.level as int,
                    b,
                ) by {
                    assert(all_in_bucket(parted.region(range, b), task.level as int, b));
                }
            }
        }
        bucket_start
    }

    /// Partitions the keys of `task` on the device at the levels from
    /// `task.level` up to `task.level_end`, bucket by bucket; a task at level 0
    /// first has its level raised past the leading bytes that are zero in all
    /// keys.  The range holds afterwards the keys it held, and the device
    /// around it is as it was.  Keys that differ only in the levels of the
    /// task come out sorted.
    pub fn sequential_rolling_sort(&mut self, task: &mut ExtTask)
        requires
            old(self).ext_ready(),
            old(self).is_cleared(),
            old(self).sort_buffer is Some,
            old(task).first() + old(task).size <= old(self).image().len(),
            old(task).size + 256 <= isize::MAX,
            old(task).level < old(task).level_end <= 8,
        ensures
            final(self).ext_ready(),
            final(self).sort_buffer is Some,
            final(self).parallel == old(self).parallel,
            final(self).image().len() == old(self).image().len(),
            final(self).buffers.unwrap()@.len() == old(self).buffers.unwrap()@.len(),
            final(self).sort_buffer.unwrap().keys@.len() == old(self).sort_buffer.unwrap().keys@.len(),
            keys_agree(
                old(task).keys(old(self).image()),
                old(task).level as int,
                old(task).level_end as int,
            ) ==> is_sorted(old(task).keys(final(self).image())),
            is_permutation(old(task).keys(old(self).image()), old(task).keys(final(self).image())),
            same_outside(
                old(self).image(),
                final(self).image(),
                old(task).first(),
                old(task).first() + old(task).size,
            ),
            final(task).start_lba == old(task).start_lba,
            final(task).offset == old(task).offset,
            final(task).size == old(task).size,
            final(task).level_end == old(task).level_end,
            old(task).level <= final(task).level < final(task).level_end,
        decreases old(task).level_end - old(task).level,
    {
        let ghost image0 = self.image();
        let ghost input = task.keys(image0);
        let ghost first = task.first();
        let ghost len = task.size as int;
        let ghost agree = keys_agree(input, task.level as int, task.level_end as int);
        self.settle_level(task);
        let level = task.level;
        let level_end = task.level_end;
        let sort_room = match &self.sort_buffer {
            Some(buffer) => buffer.size(),
            None => 0,
        };
        let num_lba = crate::sort::lbas_for_count(task.offset, task.size);
        if num_lba <= sort_room / ELEMENTS_PER_LBA {
            self.sort_in_buffer(task);
            return ;
        }
        let bucket_start = self.partition_on_device(task);
        let ghost bounds = bucket_start@;
        if level + 1 == level_end {
            proof {
                let range = task.keys(self.image());
                if agree {
                    assert forall|b: int| 0 <= b < 256 implies is_sorted(
                        #[trigger] range.subrange(bounds[b] as int, bounds[b + 1] as int),
                    ) by {
                        lemma_bounds_ordered(bounds, len, b, b + 1);
                        lemma_last_level_bucket_sorted(
                            range,
                            range.subrange(bounds[b] as int, bounds[b + 1] as int),
                            bounds[b] as int,
                            bounds[b + 1] as int,
                            level as int,
                            b,
                        );
                    }
                    lemma_sorted_by_buckets(range, bounds, level as int, level_end as int);
                }
            }
            return ;
        }
        let mut i: usize = 0;
        while i < K
            invariant
                i <= K,
                level + 1 < level_end <= 8,
                old(task).level <= level,
                level_end == old(task).level_end,
                level == task.level,
                level_end == task.level_end,
                task.start_lba == old(task).start_lba,
                task.offset == old(task).offset,
                task.size == old(task).size,
                first == task.first(),
                len == task.size,
                len + 256 <= isize::MAX,
                first + len <= image0.len(),
                bounds == bucket_start@,
                cuts_range(bounds, len),
                self.ext_ready(),
                self.sort_buffer is Some,
                self.parallel == old(self).parallel,
                self.image().len() == image0.len(),
                self.buffers.unwrap()@.len() == old(self).buffers.unwrap()@.len(),
                self.sort_buffer.unwrap().keys@.len() == old(self).sort_buffer.unwrap().keys@.len(),
                same_outside(image0, self.image(), first, first + len),
                buckets_in_place(task.keys(self.image()), bounds, level as int),
                agree ==> keys_agree(task.keys(self.image()), level as int, level_end as int),
                is_permutation(input, task.keys(self.image())),
                agree ==> forall|b: int|
                    0 <= b < i ==> is_sorted(
                        #[trigger] task.keys(self.image()).subrange(
                            bounds[b] as int,
                            bounds[b + 1] as int,
                        ),
                    ),
            decreases K - i,
        {
            let start = bucket_start[i] as usize;
            let end = bucket_start[i + 1] as usize;
            proof {
                lemma_bounds_ordered(bounds, len, i as int, i + 1);
            }
            let new_size = end - start;
            if new_size > 1 {
                let ghost image = self.image();
                let ghost before = task.keys(image);
                let new_start_lba = task.start_lba + (task.offset + start) / ELEMENTS_PER_LBA;
                let new_offset = (task.offset + start) % ELEMENTS_PER_LBA;
                let mut new_task = ExtTask::new(
                    new_start_lba,
                    new_offset,
                    new_size,
                    level + 1,
                    level_end,
                );
                proof {
                    assert(new_task.first() == first + start);
                    let unsorted = new_task.keys(image);
                    assert(unsorted =~= before.subrange(start as int, end as int));
                    if agree {
                        lemma_bucket_keys_agree(
                            before,
                            unsorted,
                            start as int,
                            end as int,
                            level as int,
                            level_end as int,
                            i as int,
                        );
                    }
                }
                self.clear();
                self.sequential_rolling_sort(&mut new_task);
                proof {
                    lemma_bucket_sorted_on_device(
                        agree,
                        image0,
                        image,
                        self.image(),
                        input,
                        bounds,
                        first,
                        len,
                        level as int,
                        level_end as int,
                        i as int,
                    );
                }
            }
            i += 1;
        }
        proof {
            let range = task.keys(self.image());
            if agree {
                lemma_sorted_by_buckets(range, bounds, level as int, level_end as int);
            }
        }
    }
}

/// What sorting bucket `i` of a partitioned range on the device keeps and gains.
proof fn lemma_bucket_sorted_on_device(
    agree: bool,
    image0: Seq<u64>,
    image: Seq<u64>,
    image_after: Seq<u64>,
    input: Seq<u64>,
    bounds: Seq<u64>,
    first: int,
    len: int,
    level: int,
    level_end: int,
    i: int,
)
    requires
        0 <= first,
        0 <= len,
        first + len <= image0.len(),
        image.len() == image0.len(),
        image_after.len() == image0.len(),
        0 <= i < 256,
        0 <= level < 7,
        cuts_range(bounds, len),
        same_outside(image0, image, first, first + len),
        same_outside(image, image_after, first + bounds[i], first + bounds[i + 1]),
        buckets_in_place(image.subrange(first, first + len), bounds, level),
        agree ==> keys_agree(image.subrange(first, first + len), level, level_end),
        is_permutation(input, image.subrange(first, first + len)),
        agree ==> is_sorted(image_after.subrange(first + bounds[i], first + bounds[i + 1])),
        is_permutation(
            image.subrange(first + bounds[i], first + bounds[i + 1]),
            image_after.subrange(first + bounds[i], first + bounds[i + 1]),
        ),
        agree ==> forall|b: int|
            0 <= b < i ==> is_sorted(
                #[trigger] image.subrange(first, first + len).subrange(
                    bounds[b] as int,
                    bounds[b + 1] as int,
                ),
            ),
    ensures
        same_outside(image0, image_after, first, first + len),
        buckets_in_place(image_after.subrange(first, first + len), bounds, level),
        agree ==> keys_agree(image_after.subrange(first, first + len), level, level_end),
        is_permutation(input, image_after.subrange(first, first + len)),
        agree ==> forall|b: int|
            0 <= b < i + 1 ==> is_sorted(
                #[trigger] image_after.subrange(first, first + len).subrange(
                    bounds[b] as int,
                    bounds[b + 1] as int,
                ),
            ),
{
    let start = bounds[i] as int;
    let end = bounds[i + 1] as int;
    lemma_bounds_ordered(bounds, len, i, i + 1);
    let before = image.subrange(first, first + len);
    let after = image_after.subrange(first, first + len);
    let unsorted = before.subrange(start, end);
    let ordered = after.subrange(start, end);
    lemma_inner_range(image, image_after, first, len, start, end);
    lemma_reordered_range(before, after, start, end);
    if agree {
        lemma_keys_agree_permutation(before, after, level, level_end);
    }
    assert forall|b: int| 0 <= b < 256 implies all_in_bucket(
        #[trigger] after.subrange(bounds[b] as int, bounds[b + 1] as int),
        level,
        b,
    ) by {
        lemma_bounds_ordered(bounds, len, b, b + 1);
        let region = before.subrange(bounds[b] as int, bounds[b + 1] as int);
        assert(all_in_bucket(region, level, b));
        if b == i {
            lemma_all_in_bucket_permutation(unsorted, ordered, level, b);
        } else {
            if b < i {
                lemma_bounds_ordered(bounds, len, b + 1, i);
            } else {
                lemma_bounds_ordered(bounds, len, i + 1, b);
            }
            assert(after.subrange(bounds[b] as int, bounds[b + 1] as int) =~= region);
        }
    }
    if agree {
        assert forall|b: int| 0 <= b < i + 1 implies is_sorted(
            #[trigger] after.subrange(bounds[b] as int, bounds[b + 1] as int),
        ) by {
            lemma_bounds_ordered(bounds, len, b, b + 1);
            if b < i {
                lemma_bounds_ordered(bounds, len, b + 1, i);
                let region = before.subrange(bounds[b] as int, bounds[b + 1] as int);
                assert(is_sorted(region));
                assert(after.subrange(bounds[b] as int, bounds[b + 1] as int) =~= region);
            }
        }
    }
    assert forall|p: int|
        0 <= p < image0.len() && !(first <= p < first + len) implies #[trigger] image_after[p]
        == image0[p] by {
        assert(image_after[p] == image[p]);
    }
    broadcast use vstd::multiset::group_multiset_axioms;

}

/// The layout depends on the counters and cursors of the sorter only.
proof fn lemma_same_state_layout(a: &IPS2RaSorter, b: &IPS2RaSorter, n: int)
    requires
        b.same_state(a),
    ensures
        b.layout(n) == a.layout(n),
        b.staged_parts() == a.staged_parts(),
{
    let x = a.layout(n);
    let y = b.layout(n);
    assert(y.writes =~= x.writes);
    assert(y.reads =~= x.reads);
    assert(y.starts =~= x.starts);
    assert(y.stops =~= x.stops);
    assert(y.fulls =~= x.fulls);
    assert(b.staged_parts() =~= a.staged_parts()) by {
        assert forall|i: int| 0 <= i < 256 implies #[trigger] b.staged_parts()[i]
            == a.staged_parts()[i] by {
            assert(b.staged(i) == a.staged(i));
        }
    }
}

impl IPS2RaSorter {
    /// Classifies the keys of a task on the device at the level of the task.
    pub fn classify_ext(&mut self, task: &mut ExtTask)
        requires
            old(self).ext_ready(),
            old(self).is_cleared(),
            old(task).first() + old(task).size <= old(self).image().len(),
            old(task).level < 8,
        ensures
            final(self).ext_ready(),
            final(self).classified(
                old(task).keys(final(self).image()),
                old(task).keys(old(self).image()),
                old(task).level as int,
            ),
            same_outside(
                old(self).image(),
                final(self).image(),
                old(task).first(),
                old(task).first() + old(task).size,
            ),
            final(self).sort_buffer == old(self).sort_buffer,
            final(self).parallel == old(self).parallel,
            final(self).buffers.unwrap()@.len() == old(self).buffers.unwrap()@.len(),
            *final(task) == *old(task),
    {
        let mut window = self.open_window(task);
        let ghost opened = window;
        self.classify_keys(&mut window, task.level);
        proof {
            lemma_window_result(&opened, &window);
        }
        let ghost done = *self;
        self.close_window(window);
        proof {
            lemma_same_state_layout(&done, self, 0);
            assert forall|b: int| 0 <= b < K implies all_in_bucket(
                #[trigger] self.staged(b),
                task.level as int,
                b,
            ) by {
                assert(self.staged(b) == done.staged(b));
            }
        }
    }

    /// Moves the full blocks of a task on the device into the slots of their
    /// buckets.
    pub fn permutate_blocks_ext(&mut self, task: &mut ExtTask)
        requires
            old(self).ext_ready(),
            old(self).blocks_ready(old(task).keys(old(self).image()), old(task).level as int),
            old(task).first() + old(task).size <= old(self).image().len(),
            old(task).size + 256 <= isize::MAX,
            old(task).level < 8,
        ensures
            final(self).ext_ready(),
            final(self).blocks_placed(old(task).keys(final(self).image()), old(task).level as int),
            is_permutation(
                final(self).placed_keys(old(task).keys(final(self).image())),
                old(task).keys(old(self).image()).subrange(
                    0,
                    old(self).classified_elements as int,
                ),
            ),
            final(self).same_counts_ext(old(self)),
            same_outside(
                old(self).image(),
                final(self).image(),
                old(task).first(),
                old(task).first() + old(task).size,
            ),
            final(self).sort_buffer == old(self).sort_buffer,
            final(self).parallel == old(self).parallel,
            final(self).buffers.unwrap()@.len() == old(self).buffers.unwrap()@.len(),
            *final(task) == *old(task),
    {
        let mut window = self.open_window(task);
        let ghost opened = window;
        self.permutate_keys(&mut window, task.level);
        proof {
            lemma_window_result(&opened, &window);
        }
        let ghost done = *self;
        self.close_window(window);
        proof {
            lemma_same_state_layout(&done, self, task.size as int);
        }
    }

    /// Finishes the partitioning of a task on the device.
    pub fn cleanup_ext(&mut self, task: &mut ExtTask)
        requires
            old(self).ext_ready(),
            old(self).blocks_placed(old(task).keys(old(self).image()), old(task).level as int),
            old(self).staged_ok(old(task).level as int),
            old(task).first() + old(task).size <= old(self).image().len(),
            old(task).level < 8,
        ensures
            final(self).ext_ready(),
            final(self).partitioned(
                old(task).keys(final(self).image()),
                old(task).level as int,
                old(task).level + 1 != old(task).level_end,
            ),
            is_permutation(
                old(task).keys(final(self).image()),
                old(self).placed_keys(old(task).keys(old(self).image())) + crate::parts::concat_parts(
                    old(self).staged_parts(),
                ),
            ),
            same_outside(
                old(self).image(),
                final(self).image(),
                old(task).first(),
                old(task).first() + old(task).size,
            ),
            final(self).sort_buffer == old(self).sort_buffer,
            final(self).parallel == old(self).parallel,
            final(self).buffers.unwrap()@.len() == old(self).buffers.unwrap()@.len(),
            *final(task) == *old(task),
    {
        let ghost entry = *self;
        let mut window = self.open_window(task);
        let ghost opened = window;
        let ghost taken = *self;
        proof {
            lemma_same_state_layout(&entry, &taken, task.size as int);
            assert forall|b: int| 0 <= b < K implies all_in_bucket(
                #[trigger] taken.staged(b),
                task.level as int,
                b,
            ) by {
                assert(taken.staged(b) == entry.staged(b));
            }
        }
        self.cleanup_keys(&mut window, task.level, task.level_end);
        proof {
            lemma_window_result(&opened, &window);
        }
        let ghost done = *self;
        let ghost range = window.keys();
        self.close_window(window);
        proof {
            let finish = task.level + 1 != task.level_end;
            assert(task.keys(self.image()) == range);
            assert forall|b: int| 0 <= b <= 256 implies #[trigger] self.boundaries[b] == prefix_sum(
                self.element_counts@,
                b,
            ) by {
                assert(done.boundaries[b] == prefix_sum(done.element_counts@, b));
            }
            assert forall|b: int| 0 <= b < 256 implies all_in_bucket(
                #[trigger] self.region(range, b),
                task.level as int,
                b,
            ) by {
                assert(all_in_bucket(done.region(range, b), task.level as int, b));
            }
            assert forall|b: int|
                0 <= b < 256 && finish && self.bucket_size(b) <= crate::config::THRESHOLD implies is_sorted(
                #[trigger] self.region(range, b),
            ) by {
                assert(done.bucket_size(b) <= crate::config::THRESHOLD);
                assert(is_sorted(done.region(range, b)));
            }
        }
    }

    /// The counters of classification and the device resources other than the
    /// keys on the device are the same in `other`.
    pub open spec fn same_counts_ext(&self, other: &Self) -> bool {
        &&& self.block_counts == other.block_counts
        &&& self.element_counts == other.element_counts
        &&& self.classified_elements == other.classified_elements
        &&& self.blocks == other.blocks
        &&& self.primary_bucket == other.primary_bucket
    }

    /// Moves the keys of the large sort buffer between the buffer and the
    /// device from logical block `lba_offset` on.
    pub fn read_write_sort_buffer_1G(&mut self, lba_offset: usize, write: bool)
        requires
            old(self).qpair is Some,
            old(self).sort_buffer is Some,
            old(self).qpair.unwrap().wf(),
            old(self).qpair.unwrap().in_flight == 0,
            crate::config::ELEMENTS_PER_HUGE_PAGE_1G <= old(self).sort_buffer.unwrap().keys@.len(),
            lba_offset * 64 + crate::config::ELEMENTS_PER_HUGE_PAGE_1G <= old(self).image().len(),
        ensures
            final(self).qpair is Some,
            final(self).sort_buffer is Some,
            final(self).qpair.unwrap().wf(),
            final(self).qpair.unwrap().in_flight == 0,
            crate::sort::transferred(
                write,
                old(self).image(),
                final(self).image(),
                old(self).sort_buffer.unwrap().keys@,
                final(self).sort_buffer.unwrap().keys@,
                lba_offset as int,
                crate::config::ELEMENTS_PER_HUGE_PAGE_1G as int,
            ),
            final(self).same_state(old(self)),
            final(self).buffers == old(self).buffers,
            final(self).parallel == old(self).parallel,
    {
        let mut qpair = self.qpair.take().unwrap();
        let mut buffer = self.sort_buffer.take().unwrap();
        crate::sort::read_write_hugepage_1G(&mut qpair, lba_offset, &mut buffer, write);
        self.qpair = Some(qpair);
        self.sort_buffer = Some(buffer);
    }

    /// Moves the keys of one small page between the front of the sort buffer
    /// and the device from logical block `lba_offset` on.
    pub fn read_write_sort_buffer_2M(&mut self, lba_offset: usize, write: bool)
        requires
            old(self).qpair is Some,
            old(self).sort_buffer is Some,
            old(self).qpair.unwrap().wf(),
            old(self).qpair.unwrap().in_flight == 0,
            crate::config::ELEMENTS_PER_HUGE_PAGE_2M <= old(self).sort_buffer.unwrap().keys@.len(),
            lba_offset * 64 + crate::config::ELEMENTS_PER_HUGE_PAGE_2M <= old(self).image().len(),
        ensures
            final(self).qpair is Some,
            final(self).sort_buffer is Some,
            final(self).qpair.unwrap().wf(),
            final(self).qpair.unwrap().in_flight == 0,
            crate::sort::transferred(
                write,
                old(self).image(),
                final(self).image(),
                old(self).sort_buffer.unwrap().keys@,
                final(self).sort_buffer.unwrap().keys@,
                lba_offset as int,
                crate::config::ELEMENTS_PER_HUGE_PAGE_2M as int,
            ),
            final(self).same_state(old(self)),
            final(self).buffers == old(self).buffers,
            final(self).parallel == old(self).parallel,
    {
        let mut qpair = self.qpair.take().unwrap();
        let mut buffer = self.sort_buffer.take().unwrap();
        crate::sort::read_write_hugepage_2M(&mut qpair, lba_offset, &mut buffer, write);
        self.qpair = Some(qpair);
        self.sort_buffer = Some(buffer);
    }
}

} // verus!
