//! One partitioning round, and the sequential recursion over the buckets.

use crate::config::{K, THRESHOLD};
use crate::model::{all_in_bucket, high_part, is_permutation, is_sorted, keys_agree, lemma_all_in_bucket_permutation, lemma_bucket_counts_total, lemma_bucket_extends_high_part, lemma_bucket_orders_keys, lemma_concat_multiset, lemma_keys_agree_permutation, lemma_last_level_equal, lemma_permutation_len, low_part, prefix_sum};
use crate::parts::concat_parts;
use crate::sorter::{IPS2RaSorter, Task, NUM_BOUNDARIES};
use crate::store::KeyStore;
use vstd::prelude::*;

verus! {

/// `bounds` cut a range of `n` keys into 256 consecutive buckets.
pub open spec fn cuts_range(bounds: Seq<u64>, n: int) -> bool {
    &&& bounds.len() == 257
    &&& bounds[0] == 0
    &&& bounds[256] == n
    &&& forall|b: int| 0 <= b < 256 ==> bounds[b] <= #[trigger] bounds[b + 1]
}

/// Between two consecutive `bounds` stand keys of the bucket of that number only.
pub open spec fn buckets_in_place(keys: Seq<u64>, bounds: Seq<u64>, level: int) -> bool {
    forall|b: int|
        0 <= b < 256 ==> all_in_bucket(
            #[trigger] keys.subrange(bounds[b] as int, bounds[b + 1] as int),
            level,
            b,
        )
}

/// The bucket that position `p` of the range lies in.
pub proof fn lemma_bucket_at(bounds: Seq<u64>, n: int, p: int, upto: int) -> (b: int)
    requires
        cuts_range(bounds, n),
        0 <= p < n,
        0 <= upto < 256,
        p < bounds[upto + 1],
    ensures
        0 <= b <= upto,
        bounds[b] <= p < bounds[b + 1],
    decreases upto,
{
    if bounds[upto] <= p {
        upto
    } else {
        assert(upto > 0);
        lemma_bucket_at(bounds, n, p, upto - 1)
    }
}

proof fn lemma_bounds_chain(bounds: Seq<u64>, n: int, a: int, b: int)
    requires
        cuts_range(bounds, n),
        0 <= a <= b <= 256,
    ensures
        bounds[a] <= bounds[b],
    decreases b - a,
{
    if a < b {
        lemma_bounds_chain(bounds, n, a, b - 1);
        assert(bounds[b - 1] <= bounds[b - 1 + 1]);
    }
}

pub proof fn lemma_bounds_ordered(bounds: Seq<u64>, n: int, a: int, b: int)
    requires
        cuts_range(bounds, n),
        0 <= a <= b <= 256,
    ensures
        0 <= bounds[a] <= bounds[b] <= n,
{
    lemma_bounds_chain(bounds, n, 0, a);
    lemma_bounds_chain(bounds, n, a, b);
    lemma_bounds_chain(bounds, n, b, 256);
}

/// A range whose buckets stand in order, each sorted in itself, is sorted,
/// where its keys share all digits above the level of the buckets.
pub proof fn lemma_sorted_by_buckets(keys: Seq<u64>, bounds: Seq<u64>, level: int, level_end: int)
    requires
        0 <= level < 8,
        cuts_range(bounds, keys.len() as int),
        buckets_in_place(keys, bounds, level),
        keys_agree(keys, level, level_end),
        forall|b: int|
            0 <= b < 256 ==> is_sorted(
                #[trigger] keys.subrange(bounds[b] as int, bounds[b + 1] as int),
            ),
    ensures
        is_sorted(keys),
{
    let n = keys.len() as int;
    assert forall|i: int, j: int| 0 <= i <= j < n implies keys[i] <= keys[j] by {
        let a = lemma_bucket_at(bounds, n, i, 255);
        let b = lemma_bucket_at(bounds, n, j, 255);
        lemma_bounds_ordered(bounds, n, a, a + 1);
        lemma_bounds_ordered(bounds, n, b, b + 1);
        let ra = keys.subrange(bounds[a] as int, bounds[a + 1] as int);
        let rb = keys.subrange(bounds[b] as int, bounds[b + 1] as int);
        assert(all_in_bucket(ra, level, a));
        assert(all_in_bucket(rb, level, b));
        assert(ra[i - bounds[a]] == keys[i]);
        assert(rb[j - bounds[b]] == keys[j]);
        if a == b {
            assert(is_sorted(ra));
            assert(ra[i - bounds[a]] <= ra[j - bounds[a]]);
        } else {
            if b < a {
                lemma_bounds_ordered(bounds, n, b + 1, a);
            }
            assert(high_part(keys[i], level) == high_part(keys[j], level));
            lemma_bucket_orders_keys(keys[i], keys[j], level);
        }
    }
}

/// At the last level in play the keys of one bucket are all the same key.
pub proof fn lemma_last_level_bucket_sorted(
    keys: Seq<u64>,
    region: Seq<u64>,
    lo: int,
    hi: int,
    level: int,
    b: int,
)
    requires
        0 <= level < 8,
        0 <= lo <= hi <= keys.len(),
        region == keys.subrange(lo, hi),
        keys_agree(keys, level, level + 1),
        all_in_bucket(region, level, b),
    ensures
        is_sorted(region),
{
    assert forall|i: int, j: int| 0 <= i <= j < region.len() implies region[i] <= region[j] by {
        assert(region[i] == keys[lo + i]);
        assert(region[j] == keys[lo + j]);
        assert(high_part(keys[lo + i], level) == high_part(keys[lo + j], level));
        assert(low_part(keys[lo + i], level + 1) == low_part(keys[lo + j], level + 1));
        lemma_last_level_equal(region[i], region[j], level);
    }
}

/// The keys of one bucket share the digits above the next level.
pub proof fn lemma_bucket_keys_agree(
    keys: Seq<u64>,
    region: Seq<u64>,
    lo: int,
    hi: int,
    level: int,
    level_end: int,
    b: int,
)
    requires
        0 <= level < 7,
        0 <= lo <= hi <= keys.len(),
        region == keys.subrange(lo, hi),
        keys_agree(keys, level, level_end),
        all_in_bucket(region, level, b),
    ensures
        keys_agree(region, level + 1, level_end),
{
    assert forall|i: int, j: int| 0 <= i < region.len() && 0 <= j < region.len() implies high_part(
        #[trigger] region[i],
        level + 1,
    ) == high_part(#[trigger] region[j], level + 1) && low_part(region[i], level_end) == low_part(
        region[j],
        level_end,
    ) by {
        assert(region[i] == keys[lo + i]);
        assert(region[j] == keys[lo + j]);
        assert(high_part(keys[lo + i], level) == high_part(keys[lo + j], level));
        assert(low_part(keys[lo + i], level_end) == low_part(keys[lo + j], level_end));
        lemma_bucket_extends_high_part(region[i], region[j], level);
    }
}

/// Replacing the keys between `lo` and `hi` by the same keys in another order
/// keeps the keys of the whole range.
pub proof fn lemma_reordered_range(keys: Seq<u64>, after: Seq<u64>, lo: int, hi: int)
    requires
        0 <= lo <= hi <= keys.len(),
        after.len() == keys.len(),
        after.subrange(0, lo) == keys.subrange(0, lo),
        after.subrange(hi, keys.len() as int) == keys.subrange(hi, keys.len() as int),
        is_permutation(keys.subrange(lo, hi), after.subrange(lo, hi)),
    ensures
        is_permutation(keys, after),
{
    broadcast use vstd::multiset::group_multiset_axioms;

    let n = keys.len() as int;
    assert(keys =~= keys.subrange(0, lo) + keys.subrange(lo, hi) + keys.subrange(hi, n));
    assert(after =~= after.subrange(0, lo) + after.subrange(lo, hi) + after.subrange(hi, n));
    lemma_concat_multiset(keys.subrange(0, lo) + keys.subrange(lo, hi), keys.subrange(hi, n));
    lemma_concat_multiset(keys.subrange(0, lo), keys.subrange(lo, hi));
    lemma_concat_multiset(after.subrange(0, lo) + after.subrange(lo, hi), after.subrange(hi, n));
    lemma_concat_multiset(after.subrange(0, lo), after.subrange(lo, hi));
}

impl IPS2RaSorter {
    /// One partitioning round on `keys` at `level`: classification, block
    /// permutation and cleanup.  Afterwards the keys stand bucket by bucket,
    /// bucket `b` between `boundaries[b]` and `boundaries[b + 1]`, and
    /// `element_counts` holds the sizes of the buckets.
    pub fn partition_keys<S: KeyStore + ?Sized>(&mut self, keys: &mut S, level: usize, level_end: usize)
        requires
            old(self).is_cleared(),
            old(keys).usable(),
            level < 8,
            old(keys).keys().len() + 256 <= isize::MAX,
        ensures
            final(keys).usable(),
            final(keys).surroundings() == old(keys).surroundings(),
            final(self).partitioned(final(keys).keys(), level as int, level + 1 != level_end),
            is_permutation(old(keys).keys(), final(keys).keys()),
            final(keys).keys().len() == old(keys).keys().len(),
            final(self).same_resources(old(self)),
            forall|b: int|
                0 <= b < K ==> #[trigger] final(self).element_counts[b] == crate::model::count_in_bucket(
                    old(keys).keys(),
                    level as int,
                    b,
                ),
    {
        let ghost input = keys.keys();
        self.classify_keys(keys, level);
        let ghost classified = *self;
        let ghost k1 = keys.keys();
        proof {
            lemma_bucket_counts_total(input, level as int, self.element_counts@);
        }
        self.permutate_keys(keys, level);
        let ghost permuted = *self;
        let ghost k2 = keys.keys();
        proof {
            assert(permuted.staged_parts() =~= classified.staged_parts()) by {
                assert forall|b: int| 0 <= b < 256 implies #[trigger] permuted.staged_parts()[b]
                    == classified.staged_parts()[b] by {}
            }
            assert forall|b: int| 0 <= b < K implies all_in_bucket(
                #[trigger] permuted.staged(b),
                level as int,
                b,
            ) by {
                assert(permuted.staged(b) == classified.staged(b));
            }
        }
        self.cleanup_keys(keys, level, level_end);
        proof {
            broadcast use vstd::multiset::group_multiset_axioms;

            let k3 = keys.keys();
            let c = classified.classified_elements as int;
            let front = k1.subrange(0, c);
            let staged = concat_parts(classified.staged_parts());
            let placed = permuted.placed_keys(k2);
            lemma_concat_multiset(placed, staged);
            assert(k3.to_multiset() =~= input.to_multiset());
            lemma_permutation_len(input, k3);
        }
    }

    /// Partitions the keys of `task` at the levels from `task.level` up to
    /// `task.level_end`: one partitioning round, then the same for every
    /// bucket of more than `THRESHOLD` keys.  Keys that differ only in these
    /// levels come out sorted.
    pub fn sequential_rec(&mut self, task: &mut Task)
        requires
            old(self).is_cleared(),
            old(task).level < old(task).level_end <= 8,
            old(task).arr@.len() + 256 <= isize::MAX,
        ensures
            keys_agree(old(task).arr@, old(task).level as int, old(task).level_end as int)
                ==> is_sorted(final(task).arr@),
            is_permutation(old(task).arr@, final(task).arr@),
            final(task).level == old(task).level,
            final(task).level_end == old(task).level_end,
            final(self).same_resources(old(self)),
    {
        self.sort_levels(task.arr, task.level, task.level_end);
    }

    /// Partitions `arr` at the levels from `level` up to `level_end`, bucket
    /// by bucket.  Keys that differ only in these levels come out sorted.
    pub fn sort_levels(&mut self, arr: &mut [u64], level: usize, level_end: usize)
        requires
            old(self).is_cleared(),
            level < level_end <= 8,
            old(arr)@.len() + 256 <= isize::MAX,
        ensures
            keys_agree(old(arr)@, level as int, level_end as int) ==> is_sorted(final(arr)@),
            is_permutation(old(arr)@, final(arr)@),
            final(arr)@.len() == old(arr)@.len(),
            final(self).same_resources(old(self)),
        decreases level_end - level,
    {
        let ghost input = arr@;
        let ghost agree = keys_agree(input, level as int, level_end as int);
        let n = arr.len();
        self.partition_keys(arr, level, level_end);
        let bucket_start = self.boundaries;
        let ghost bounds = bucket_start@;
        proof {
            if agree {
                lemma_keys_agree_permutation(input, arr@, level as int, level_end as int);
            }
            assert(cuts_range(bounds, n as int)) by {
                assert forall|b: int| 0 <= b < 256 implies bounds[b] <= #[trigger] bounds[b + 1] by {
                    assert(self.boundaries[b] == prefix_sum(self.element_counts@, b));
                    assert(self.boundaries[b + 1] == prefix_sum(self.element_counts@, b + 1));
                }
                assert(self.boundaries[0] == prefix_sum(self.element_counts@, 0));
                assert(self.boundaries[256] == prefix_sum(self.element_counts@, 256));
            }
            assert(buckets_in_place(arr@, bounds, level as int)) by {
                assert forall|b: int| 0 <= b < 256 implies all_in_bucket(
                    #[trigger] arr@.subrange(bounds[b] as int, bounds[b + 1] as int),
                    level as int,
                    b,
                ) by {
                    assert(all_in_bucket(self.region(arr@, b), level as int, b));
                }
            }
        }
        if level + 1 == level_end {
            proof {
                lemma_permutation_len(input, arr@);
                if agree {
                    assert forall|b: int| 0 <= b < 256 implies is_sorted(
                        #[trigger] arr@.subrange(bounds[b] as int, bounds[b + 1] as int),
                    ) by {
                        lemma_bounds_ordered(bounds, n as int, b, b + 1);
                        lemma_last_level_bucket_sorted(
                            arr@,
                            arr@.subrange(bounds[b] as int, bounds[b + 1] as int),
                            bounds[b] as int,
                            bounds[b + 1] as int,
                            level as int,
                            b,
                        );
                    }
                    lemma_sorted_by_buckets(arr@, bounds, level as int, level_end as int);
                }
            }
            return ;
        }
        proof {
            assert forall|b: int| 0 <= b < 256 && bounds[b + 1] - bounds[b] <= THRESHOLD implies is_sorted(
            #[trigger] arr@.subrange(bounds[b] as int, bounds[b + 1] as int)) by {
                assert(self.bucket_size(b) <= THRESHOLD);
                assert(is_sorted(self.region(arr@, b)));
            }
        }
        let mut i: usize = 0;
        while i < K
            invariant
                i <= K,
                level + 1 < level_end <= 8,
                n == arr@.len(),
                n + 256 <= isize::MAX,
                bounds == bucket_start@,
                cuts_range(bounds, n as int),
                buckets_in_place(arr@, bounds, level as int),
                agree ==> keys_agree(arr@, level as int, level_end as int),
                is_permutation(input, arr@),
                self.same_resources(old(self)),
                forall|b: int|
                    0 <= b < 256 && ((agree && b < i) || bounds[b + 1] - bounds[b] <= THRESHOLD)
                        ==> is_sorted(
                        #[trigger] arr@.subrange(bounds[b] as int, bounds[b + 1] as int),
                    ),
            decreases K - i,
        {
            let start = bucket_start[i];
            let end = bucket_start[i + 1];
            proof {
                lemma_bounds_ordered(bounds, n as int, i as int, i + 1);
            }
            if end - start > THRESHOLD as u64 {
                let ghost before = arr@;
                let (_head, rest) = arr.split_at_mut(start as usize);
                let (bucket, _tail) = rest.split_at_mut((end - start) as usize);
                let ghost unsorted = bucket@;
                proof {
                    assert(unsorted =~= before.subrange(start as int, end as int));
                    if agree {
                        lemma_bucket_keys_agree(
                            before,
                            unsorted,
                            start as int,
                            end as int,
                            level as int,
                            level_end as int,
                            i as int,
                        );
                    }
                }
                self.clear();
                self.sort_levels(bucket, level + 1, level_end);
                let ghost ordered = bucket@;
                proof {
                    let after = arr@;
                    assert(after =~= before.subrange(0, start as int) + (ordered + before.subrange(
                        end as int,
                        n as int,
                    )));
                    assert(after.subrange(0, start as int) =~= before.subrange(0, start as int));
                    assert(after.subrange(end as int, n as int) =~= before.subrange(
                        end as int,
                        n as int,
                    ));
                    assert(after.subrange(start as int, end as int) =~= ordered);
                    lemma_reordered_range(before, after, start as int, end as int);
                    if agree {
                        lemma_keys_agree_permutation(before, after, level as int, level_end as int);
                    }
                    assert forall|b: int| 0 <= b < 256 implies all_in_bucket(
                        #[trigger] after.subrange(bounds[b] as int, bounds[b + 1] as int),
                        level as int,
                        b,
                    ) && (((agree && b < i + 1) || bounds[b + 1] - bounds[b] <= THRESHOLD)
                        ==> is_sorted(after.subrange(bounds[b] as int, bounds[b + 1] as int))) by {
                        lemma_bounds_ordered(bounds, n as int, b, b + 1);
                        let region = before.subrange(bounds[b] as int, bounds[b + 1] as int);
                        assert(all_in_bucket(region, level as int, b));
                        if b == i {
                            lemma_all_in_bucket_permutation(unsorted, ordered, level as int, b);
                        } else {
                            if b < i {
                                lemma_bounds_ordered(bounds, n as int, b + 1, i as int);
                            } else {
                                lemma_bounds_ordered(bounds, n as int, i + 1, b);
                            }
                            assert(after.subrange(bounds[b] as int, bounds[b + 1] as int)
                                =~= region);
                        }
                    }
                }
            }
            i += 1;
        }
        proof {
            if agree {
                lemma_sorted_by_buckets(arr@, bounds, level as int, level_end as int);
            }
            lemma_permutation_len(input, arr@);
        }
    }
}

} // verus!
