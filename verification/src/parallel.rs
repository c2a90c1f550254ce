//! The multi-core mode: after one partitioning round the buckets are sorted
//! by tasks of their own, which may run at the same time.  Every task works
//! with a sorter of its own and on keys of its own.

use crate::base_case::insertion_sort;
use crate::config::{K, NUM_THREADS, THRESHOLD, WORKER_STACK_SIZE};
use crate::model::{all_in_bucket, is_permutation, is_sorted, keys_agree, lemma_all_in_bucket_permutation, lemma_keys_agree_permutation, lemma_permutation_len, prefix_sum};
use crate::sequential::{buckets_in_place, cuts_range, lemma_bounds_ordered, lemma_bucket_keys_agree, lemma_last_level_bucket_sorted, lemma_sorted_by_buckets};
use crate::sorter::{IPS2RaSorter, Task};
use vstd::prelude::*;

verus! {

/// Sum of the first `n` sizes.
pub open spec fn offset_of(sizes: Seq<usize>, n: int) -> int
    decreases n,
{
    if n <= 0 {
        0
    } else {
        offset_of(sizes, n - 1) + sizes[n - 1]
    }
}

/// Where part `b` starts in a slice that holds the parts from part `from` on.
pub open spec fn part_start(sizes: Seq<usize>, from: int, b: int) -> int {
    offset_of(sizes, b) - offset_of(sizes, from)
}

/// `arr` holds the parts from part `from` up to part `to`, one behind the
/// other, and all of them are ready to be sorted at `level`.
pub open spec fn range_ready(
    arr: Seq<u64>,
    sizes: Seq<usize>,
    from: int,
    to: int,
    level: int,
    level_end: int,
) -> bool {
    &&& 0 <= from <= to <= sizes.len()
    &&& arr.len() == part_start(sizes, from, to)
    &&& forall|b: int|
        from <= b < to ==> keys_agree(
            #[trigger] arr.subrange(part_start(sizes, from, b), part_start(sizes, from, b + 1)),
            level,
            level_end,
        )
}

/// Of the parts from part `from` up to part `to`, which `before` and `after`
/// hold one behind the other, every part of `after` holds the keys of the same
/// part of `before`, sorted.
pub open spec fn range_sorted(
    before: Seq<u64>,
    after: Seq<u64>,
    sizes: Seq<usize>,
    from: int,
    to: int,
) -> bool {
    &&& after.len() == before.len()
    &&& forall|b: int|
        from <= b < to ==> is_sorted(
            #[trigger] after.subrange(part_start(sizes, from, b), part_start(sizes, from, b + 1)),
        ) && is_permutation(
            before.subrange(part_start(sizes, from, b), part_start(sizes, from, b + 1)),
            after.subrange(part_start(sizes, from, b), part_start(sizes, from, b + 1)),
        )
}

/// Every part of `after` holds the keys of the same part of `before`, sorted.
pub open spec fn parts_sorted(before: Seq<u64>, after: Seq<u64>, sizes: Seq<usize>) -> bool {
    &&& after.len() == before.len()
    &&& forall|b: int|
        0 <= b < sizes.len() ==> is_sorted(
            #[trigger] after.subrange(offset_of(sizes, b), offset_of(sizes, b + 1)),
        ) && is_permutation(
            before.subrange(offset_of(sizes, b), offset_of(sizes, b + 1)),
            after.subrange(offset_of(sizes, b), offset_of(sizes, b + 1)),
        )
}

/// `rayon::join` on two calls of `sort_parts`, one for each of two slices: it
/// runs both calls, at the same time where a worker is free, and returns when
/// both have returned.  Each call has then sorted the parts of its slice.
#[verifier::external_body]
fn sort_both(
    left: &mut [u64],
    right: &mut [u64],
    sizes: &Vec<usize>,
    from: usize,
    mid: usize,
    to: usize,
    level: usize,
    level_end: usize,
)
    requires
        level < level_end <= 8,
        old(left)@.len() + old(right)@.len() + 256 <= isize::MAX,
        range_ready(old(left)@, sizes@, from as int, mid as int, level as int, level_end as int),
        range_ready(old(right)@, sizes@, mid as int, to as int, level as int, level_end as int),
    ensures
        range_sorted(old(left)@, final(left)@, sizes@, from as int, mid as int),
        range_sorted(old(right)@, final(right)@, sizes@, mid as int, to as int),
{
    rayon::join(
        || sort_parts(left, sizes, from, mid, level, level_end),
        || sort_parts(right, sizes, mid, to, level, level_end),
    );
}

/// The sizes before a part add up to no more than those before a later part.
pub proof fn lemma_offsets_ordered(sizes: Seq<usize>, i: int, j: int)
    requires
        0 <= i <= j <= sizes.len(),
    ensures
        0 <= offset_of(sizes, i) <= offset_of(sizes, j),
    decreases j,
{
    if i < j {
        lemma_offsets_ordered(sizes, i, j - 1);
    } else if i > 0 {
        lemma_offsets_ordered(sizes, i - 1, i - 1);
    }
}

/// Sorts every part of `arr`, which holds the parts from part `from` up to
/// part `to` one behind the other.  One part is sorted by a task of its own;
/// more parts are cut in two halves, which are sorted side by side.
pub fn sort_parts(
    arr: &mut [u64],
    sizes: &Vec<usize>,
    from: usize,
    to: usize,
    level: usize,
    level_end: usize,
)
    requires
        level < level_end <= 8,
        old(arr)@.len() + 256 <= isize::MAX,
        range_ready(old(arr)@, sizes@, from as int, to as int, level as int, level_end as int),
    ensures
        range_sorted(old(arr)@, final(arr)@, sizes@, from as int, to as int),
    decreases level_end - level, 1int,
{
    let ghost input = arr@;
    if to - from == 0 {
        return ;
    }
    if to - from == 1 {
        proof {
            assert(input.subrange(
                part_start(sizes@, from as int, from as int),
                part_start(sizes@, from as int, from + 1),
            ) =~= input);
        }
        parallel_rec_keys(arr, level, level_end);
        proof {
            lemma_permutation_len(input, arr@);
            assert(arr@.subrange(
                part_start(sizes@, from as int, from as int),
                part_start(sizes@, from as int, from + 1),
            ) =~= arr@);
        }
        return ;
    }
    let mid = from + (to - from) / 2;
    let n = arr.len();
    let mut cut: usize = 0;
    let mut b: usize = from;
    while b < mid
        invariant
            from <= b <= mid < to <= sizes@.len(),
            cut == part_start(sizes@, from as int, b as int),
            n == part_start(sizes@, from as int, to as int),
        decreases mid - b,
    {
        proof {
            lemma_offsets_ordered(sizes@, b + 1, to as int);
            assert(offset_of(sizes@, b + 1) == offset_of(sizes@, b as int) + sizes@[b as int]);
        }
        cut = cut + sizes[b];
        b += 1;
    }
    proof {
        lemma_offsets_ordered(sizes@, from as int, mid as int);
        lemma_offsets_ordered(sizes@, mid as int, to as int);
    }
    let (left, right) = arr.split_at_mut(cut);
    let ghost left_input = left@;
    let ghost right_input = right@;
    proof {
        assert forall|p: int| from <= p < mid implies keys_agree(
            #[trigger] left_input.subrange(
                part_start(sizes@, from as int, p),
                part_start(sizes@, from as int, p + 1),
            ),
            level as int,
            level_end as int,
        ) by {
            lemma_offsets_ordered(sizes@, from as int, p);
            lemma_offsets_ordered(sizes@, p, p + 1);
            lemma_offsets_ordered(sizes@, p + 1, mid as int);
            assert(left_input.subrange(
                part_start(sizes@, from as int, p),
                part_start(sizes@, from as int, p + 1),
            ) =~= input.subrange(
                part_start(sizes@, from as int, p),
                part_start(sizes@, from as int, p + 1),
            ));
        }
        assert forall|p: int| mid <= p < to implies keys_agree(
            #[trigger] right_input.subrange(
                part_start(sizes@, mid as int, p),
                part_start(sizes@, mid as int, p + 1),
            ),
            level as int,
            level_end as int,
        ) by {
            lemma_offsets_ordered(sizes@, mid as int, p);
            lemma_offsets_ordered(sizes@, p, p + 1);
            lemma_offsets_ordered(sizes@, p + 1, to as int);
            assert(right_input.subrange(
                part_start(sizes@, mid as int, p),
                part_start(sizes@, mid as int, p + 1),
            ) =~= input.subrange(
                part_start(sizes@, from as int, p),
                part_start(sizes@, from as int, p + 1),
            ));
        }
    }
    sort_both(left, right, sizes, from, mid, to, level, level_end);
    proof {
        let left_after = left@;
        let right_after = right@;
        let after = arr@;
        assert(after == left_after + right_after);
        assert forall|p: int| from <= p < to implies is_sorted(
            #[trigger] after.subrange(
                part_start(sizes@, from as int, p),
                part_start(sizes@, from as int, p + 1),
            ),
        ) && is_permutation(
            input.subrange(
                part_start(sizes@, from as int, p),
                part_start(sizes@, from as int, p + 1),
            ),
            after.subrange(
                part_start(sizes@, from as int, p),
                part_start(sizes@, from as int, p + 1),
            ),
        ) by {
            lemma_offsets_ordered(sizes@, from as int, p);
            lemma_offsets_ordered(sizes@, p, p + 1);
            lemma_offsets_ordered(sizes@, p + 1, to as int);
            let lo = part_start(sizes@, from as int, p);
            let hi = part_start(sizes@, from as int, p + 1);
            if p < mid {
                lemma_offsets_ordered(sizes@, p + 1, mid as int);
                assert(after.subrange(lo, hi) =~= left_after.subrange(lo, hi));
                assert(input.subrange(lo, hi) =~= left_input.subrange(lo, hi));
            } else {
                lemma_offsets_ordered(sizes@, mid as int, p);
                let rlo = part_start(sizes@, mid as int, p);
                let rhi = part_start(sizes@, mid as int, p + 1);
                assert(after.subrange(lo, hi) =~= right_after.subrange(rlo, rhi));
                assert(input.subrange(lo, hi) =~= right_input.subrange(rlo, rhi));
            }
        }
    }
}

/// `ThreadPoolBuilder::build_global` of `rayon` for a pool of `workers`
/// workers, each with a stack of `stack` bytes.  Tells whether this call set
/// the pool up; a pool that is set up already stays as it is.
#[verifier::external_body]
fn build_thread_pool(workers: usize, stack: usize) -> (first: bool) {
    rayon::ThreadPoolBuilder::new().num_threads(workers).stack_size(stack).build_global().is_ok()
}

/// Sets the pool of `NUM_THREADS` workers up, unless a pool is set up already.
/// The workers get stacks of `WORKER_STACK_SIZE` bytes: a worker that waits
/// for a task takes up other tasks meanwhile, on top of its own.
pub fn initialize_thread_pool() {
    let _first = build_thread_pool(NUM_THREADS, WORKER_STACK_SIZE);
}

proof fn lemma_offset_is_prefix_sum(sizes: Seq<usize>, counts: Seq<u64>, n: int)
    requires
        0 <= n <= sizes.len(),
        sizes.len() == counts.len(),
        forall|b: int| 0 <= b < sizes.len() ==> #[trigger] sizes[b] == counts[b],
    ensures
        offset_of(sizes, n) == prefix_sum(counts, n),
    decreases n,
{
    if n > 0 {
        lemma_offset_is_prefix_sum(sizes, counts, n - 1);
    }
}

/// Sorts `arr`, whose keys differ only in the levels from `level` up to
/// `level_end`: a range of at most `THRESHOLD` keys by insertion, a larger one
/// by one partitioning round and one task for every bucket.
pub fn parallel_rec_keys(arr: &mut [u64], level: usize, level_end: usize)
    requires
        level < level_end <= 8,
        keys_agree(old(arr)@, level as int, level_end as int),
        old(arr)@.len() + 256 <= isize::MAX,
    ensures
        is_sorted(final(arr)@),
        is_permutation(old(arr)@, final(arr)@),
    decreases level_end - level, 0int,
{
    if arr.len() <= THRESHOLD {
        insertion_sort(arr);
        return ;
    }
    let ghost input = arr@;
    let n = arr.len();
    let mut sorter = IPS2RaSorter::new_parallel();
    sorter.partition_keys(arr, level, level_end);
    let ghost bounds = sorter.boundaries@;
    let ghost parted = arr@;
    proof {
        lemma_keys_agree_permutation(input, parted, level as int, level_end as int);
        assert(cuts_range(bounds, n as int)) by {
            assert forall|b: int| 0 <= b < 256 implies bounds[b] <= #[trigger] bounds[b + 1] by {
                assert(sorter.boundaries[b] == prefix_sum(sorter.element_counts@, b));
                assert(sorter.boundaries[b + 1] == prefix_sum(sorter.element_counts@, b + 1));
            }
            assert(sorter.boundaries[0] == prefix_sum(sorter.element_counts@, 0));
            assert(sorter.boundaries[256] == prefix_sum(sorter.element_counts@, 256));
        }
        assert(buckets_in_place(parted, bounds, level as int)) by {
            assert forall|b: int| 0 <= b < 256 implies all_in_bucket(
                #[trigger] parted.subrange(bounds[b] as int, bounds[b + 1] as int),
                level as int,
                b,
            ) by {
                assert(all_in_bucket(sorter.region(parted, b), level as int, b));
            }
        }
    }
    if level + 1 == level_end {
        proof {
            assert forall|b: int| 0 <= b < 256 implies is_sorted(
                #[trigger] parted.subrange(bounds[b] as int, bounds[b + 1] as int),
            ) by {
                lemma_bounds_ordered(bounds, n as int, b, b + 1);
                lemma_last_level_bucket_sorted(
                    parted,
                    parted.subrange(bounds[b] as int, bounds[b + 1] as int),
                    bounds[b] as int,
                    bounds[b + 1] as int,
                    level as int,
                    b,
                );
            }
            lemma_sorted_by_buckets(parted, bounds, level as int, level_end as int);
        }
        return ;
    }
    let mut sizes: Vec<usize> = Vec::new();
    let mut b: usize = 0;
    while b < K
        invariant
            b <= K,
            n == parted.len(),
            bounds == sorter.boundaries@,
            cuts_range(bounds, n as int),
            sorter.boundaries_ok(),
            sizes@.len() == b,
            forall|i: int| 0 <= i < b ==> #[trigger] sizes@[i] == sorter.element_counts@[i],
        decreases K - b,
    {
        proof {
            lemma_bounds_ordered(bounds, n as int, b as int, b + 1);
            assert(sorter.boundaries[b as int] == prefix_sum(sorter.element_counts@, b as int));
            assert(sorter.boundaries[b + 1] == prefix_sum(sorter.element_counts@, b + 1));
        }
        sizes.push(sorter.element_counts[b] as usize);
        b += 1;
    }
    proof {
        assert forall|i: int| 0 <= i <= 256 implies offset_of(sizes@, i) == #[trigger] bounds[i] by {
            lemma_offset_is_prefix_sum(sizes@, sorter.element_counts@, i);
            assert(sorter.boundaries[i] == prefix_sum(sorter.element_counts@, i));
        }
        assert forall|i: int| 0 <= i < sizes@.len() implies keys_agree(
            #[trigger] parted.subrange(offset_of(sizes@, i), offset_of(sizes@, i + 1)),
            level + 1,
            level_end as int,
        ) by {
            assert(offset_of(sizes@, i) == bounds[i]);
            assert(offset_of(sizes@, i + 1) == bounds[i + 1]);
            lemma_bounds_ordered(bounds, n as int, i, i + 1);
            let region = parted.subrange(bounds[i] as int, bounds[i + 1] as int);
            assert(all_in_bucket(region, level as int, i));
            lemma_bucket_keys_agree(
                parted,
                region,
                bounds[i] as int,
                bounds[i + 1] as int,
                level as int,
                level_end as int,
                i,
            );
        }
    }
    proof {
        assert forall|i: int| 0 <= i <= 256 implies part_start(sizes@, 0, i) == #[trigger] bounds[i] by {
            assert(offset_of(sizes@, i) == bounds[i]);
        }
        assert forall|i: int| 0 <= i < 256 implies keys_agree(
            #[trigger] parted.subrange(part_start(sizes@, 0, i), part_start(sizes@, 0, i + 1)),
            level + 1,
            level_end as int,
        ) by {
            assert(part_start(sizes@, 0, i) == offset_of(sizes@, i));
            assert(part_start(sizes@, 0, i + 1) == offset_of(sizes@, i + 1));
            assert(keys_agree(
                parted.subrange(offset_of(sizes@, i), offset_of(sizes@, i + 1)),
                level + 1,
                level_end as int,
            ));
        }
    }
    sort_parts(arr, &sizes, 0, K, level + 1, level_end);
    proof {
        let after = arr@;
        assert forall|i: int| 0 <= i < 256 implies is_sorted(
            #[trigger] after.subrange(offset_of(sizes@, i), offset_of(sizes@, i + 1)),
        ) && is_permutation(
            parted.subrange(offset_of(sizes@, i), offset_of(sizes@, i + 1)),
            after.subrange(offset_of(sizes@, i), offset_of(sizes@, i + 1)),
        ) by {
            assert(part_start(sizes@, 0, i) == offset_of(sizes@, i));
            assert(part_start(sizes@, 0, i + 1) == offset_of(sizes@, i + 1));
            assert(is_sorted(
                after.subrange(part_start(sizes@, 0, i), part_start(sizes@, 0, i + 1)),
            ));
        }
        lemma_parts_sorted_whole(parted, after, bounds, sizes@, level as int, level_end as int);
    }
}

/// Sorts the keys of `task`, which differ only in the levels from
/// `task.level` up to `task.level_end`, with one task for every bucket.
pub fn parallel_rec(task: &mut Task)
    requires
        old(task).level < old(task).level_end <= 8,
        keys_agree(old(task).arr@, old(task).level as int, old(task).level_end as int),
        old(task).arr@.len() + 256 <= isize::MAX,
    ensures
        is_sorted(final(task).arr@),
        is_permutation(old(task).arr@, final(task).arr@),
        final(task).level == old(task).level,
        final(task).level_end == old(task).level_end,
{
    parallel_rec_keys(task.arr, task.level, task.level_end);
}

/// A partitioned range whose buckets have each been sorted is sorted, and
/// holds the keys it held.
proof fn lemma_parts_sorted_whole(
    parted: Seq<u64>,
    after: Seq<u64>,
    bounds: Seq<u64>,
    sizes: Seq<usize>,
    level: int,
    level_end: int,
)
    requires
        0 <= level < 7,
        sizes.len() == 256,
        cuts_range(bounds, parted.len() as int),
        forall|i: int| 0 <= i <= 256 ==> offset_of(sizes, i) == #[trigger] bounds[i],
        buckets_in_place(parted, bounds, level),
        keys_agree(parted, level, level_end),
        parts_sorted(parted, after, sizes),
    ensures
        is_sorted(after),
        is_permutation(parted, after),
{
    let n = parted.len() as int;
    lemma_parts_steps(parted, after, bounds, sizes, 256);
    assert(parted.subrange(0, n) =~= parted);
    assert(after.subrange(0, n) =~= after);
    lemma_keys_agree_permutation(parted, after, level, level_end);
    assert forall|b: int| 0 <= b < 256 implies all_in_bucket(
        #[trigger] after.subrange(bounds[b] as int, bounds[b + 1] as int),
        level,
        b,
    ) && is_sorted(after.subrange(bounds[b] as int, bounds[b + 1] as int)) by {
        assert(offset_of(sizes, b) == bounds[b]);
        assert(offset_of(sizes, b + 1) == bounds[b + 1]);
        let region = parted.subrange(bounds[b] as int, bounds[b + 1] as int);
        let sorted = after.subrange(offset_of(sizes, b), offset_of(sizes, b + 1));
        assert(is_sorted(sorted));
        assert(all_in_bucket(region, level, b));
        lemma_all_in_bucket_permutation(region, sorted, level, b);
    }
    lemma_sorted_by_buckets(after, bounds, level, level_end);
}

/// The first `k` buckets of `after` hold the keys of the first `k` buckets of `parted`.
proof fn lemma_parts_steps(
    parted: Seq<u64>,
    after: Seq<u64>,
    bounds: Seq<u64>,
    sizes: Seq<usize>,
    k: int,
)
    requires
        0 <= k <= 256,
        sizes.len() == 256,
        cuts_range(bounds, parted.len() as int),
        forall|i: int| 0 <= i <= 256 ==> offset_of(sizes, i) == #[trigger] bounds[i],
        parts_sorted(parted, after, sizes),
    ensures
        is_permutation(parted.subrange(0, bounds[k] as int), after.subrange(0, bounds[k] as int)),
    decreases k,
{
    broadcast use vstd::multiset::group_multiset_axioms;

    let n = parted.len() as int;
    if k == 0 {
        assert(parted.subrange(0, 0) =~= after.subrange(0, 0));
    } else {
        lemma_parts_steps(parted, after, bounds, sizes, k - 1);
        lemma_bounds_ordered(bounds, n, k - 1, k);
        let lo = bounds[k - 1] as int;
        let hi = bounds[k] as int;
        assert(offset_of(sizes, k - 1) == bounds[k - 1]);
        assert(offset_of(sizes, k - 1 + 1) == bounds[k]);
        assert(is_sorted(after.subrange(offset_of(sizes, k - 1), offset_of(sizes, k - 1 + 1))));
        assert(parted.subrange(0, hi) =~= parted.subrange(0, lo) + parted.subrange(lo, hi));
        assert(after.subrange(0, hi) =~= after.subrange(0, lo) + after.subrange(lo, hi));
        crate::model::lemma_concat_multiset(parted.subrange(0, lo), parted.subrange(lo, hi));
        crate::model::lemma_concat_multiset(after.subrange(0, lo), after.subrange(lo, hi));
    }
}

} // verus!
