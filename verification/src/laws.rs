//! What holds of the sorter as a whole, proved from the contracts of its
//! functions.

use crate::model::{
    all_in_bucket, count_in_bucket, is_permutation, is_sorted, lemma_bucket_counts_total,
    lemma_permutation_len, lemma_sorted_permutation_unique, prefix_sum,
};
use crate::sorter::IPS2RaSorter;
use vstd::prelude::*;

verus! {

/// Sorting keys that are sorted already changes nothing: an output that is
/// sorted and holds the keys of a sorted input is that input.
pub proof fn lemma_sorted_input_stays(input: Seq<u64>, output: Seq<u64>)
    requires
        is_sorted(input),
        is_sorted(output),
        is_permutation(input, output),
    ensures
        output == input,
{
    lemma_sorted_permutation_unique(input, output);
}

/// All modes give the same output: whatever two of them make of the same
/// keys, each output sorted and holding the keys of the input, is key for key
/// the same sequence.
pub proof fn lemma_modes_agree(input: Seq<u64>, first: Seq<u64>, second: Seq<u64>)
    requires
        is_sorted(first),
        is_permutation(input, first),
        is_sorted(second),
        is_permutation(input, second),
    ensures
        first == second,
{
    lemma_sorted_permutation_unique(first, second);
}

/// Sorting keeps the number of keys.
pub proof fn lemma_sorting_keeps_length(input: Seq<u64>, output: Seq<u64>)
    requires
        is_permutation(input, output),
    ensures
        output.len() == input.len(),
{
    lemma_permutation_len(input, output);
}

/// After classification the counts of all buckets add up to the number of
/// keys of the task, and the count of every bucket is the number of keys of
/// the input that belong to it.
pub proof fn lemma_classified_counts_add_up(
    sorter: &IPS2RaSorter,
    keys: Seq<u64>,
    input: Seq<u64>,
    level: int,
)
    requires
        0 <= level < 8,
        sorter.classified(keys, input, level),
    ensures
        prefix_sum(sorter.element_counts@, 256) == input.len(),
        forall|b: int|
            0 <= b < 256 ==> #[trigger] sorter.element_counts[b] == count_in_bucket(input, level, b),
{
    lemma_bucket_counts_total(input, level, sorter.element_counts@);
}

/// After cleanup every key between the boundaries of a bucket belongs to that
/// bucket at the level of the round.
pub proof fn lemma_partitioned_keys_are_in_their_bucket(
    sorter: &IPS2RaSorter,
    keys: Seq<u64>,
    level: int,
    finish_small: bool,
    b: int,
    p: int,
)
    requires
        sorter.partitioned(keys, level, finish_small),
        0 <= b < 256,
        sorter.boundaries[b] <= p < sorter.boundaries[b + 1],
    ensures
        p < keys.len(),
        crate::model::bucket_of(keys[p], level) == b,
{
    let region = sorter.region(keys, b);
    let counts = sorter.element_counts@;
    assert(sorter.boundaries[b] == prefix_sum(counts, b));
    assert(sorter.boundaries[b + 1] == prefix_sum(counts, b + 1));
    crate::model::lemma_prefix_sum_monotone(counts, 0, b);
    crate::model::lemma_prefix_sum_monotone(counts, b + 1, 256);
    assert(all_in_bucket(region, level, b));
    assert(region[p - sorter.boundaries[b]] == keys[p]);
}

} // verus!
