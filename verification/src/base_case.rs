//! Sorting of small ranges.

use crate::model::{is_permutation, is_sorted, lemma_permutation_len};
use vstd::prelude::*;

verus! {

/// `<[u64]>::sort_unstable` of the standard library: it reorders the slice in
/// place so that its keys ascend, and neither adds nor drops a key.
#[verifier::external_body]
fn slice_sort_unstable(arr: &mut [u64])
    ensures
        is_sorted(final(arr)@),
        is_permutation(old(arr)@, final(arr)@),
{
    arr.sort_unstable();
}

/// Sorts `arr` with the pattern-defeating quicksort of the standard library.
pub fn insertion_sort2(arr: &mut [u64])
    ensures
        is_sorted(final(arr)@),
        is_permutation(old(arr)@, final(arr)@),
        final(arr)@.len() == old(arr)@.len(),
{
    slice_sort_unstable(arr);
    proof {
        lemma_permutation_len(old(arr)@, arr@);
    }
}

/// Sorts `arr` by insertion: each key in turn is put at the first place of the
/// sorted prefix whose key is not smaller.
pub fn insertion_sort(arr: &mut [u64])
    ensures
        is_sorted(final(arr)@),
        is_permutation(old(arr)@, final(arr)@),
        final(arr)@.len() == old(arr)@.len(),
{
    let n = arr.len();
    let mut j: usize = 1;
    while j < n
        invariant
            1 <= j,
            n == arr@.len(),
            is_sorted(arr@.subrange(0, if j <= n { j as int } else { n as int })),
            is_permutation(old(arr)@, arr@),
        decreases n - j,
    {
        let ghost before = arr@;
        let key = arr[j];
        let mut i: usize = 0;
        while arr[j] > arr[i]
            invariant
                i <= j < n,
                n == arr@.len(),
                arr@ == before,
                key == arr@[j as int],
                forall|p: int| 0 <= p < i ==> arr@[p] < key,
            decreases j - i,
        {
            i += 1;
        }
        let mut k: usize = 0;
        while k < j - i
            invariant
                i <= j < n,
                k <= j - i,
                n == arr@.len(),
                forall|p: int| 0 <= p <= j - k ==> arr@[p] == before[p],
                forall|p: int| j - k < p <= j ==> arr@[p] == before[p - 1],
                forall|p: int| j < p < n ==> arr@[p] == before[p],
            decreases j - i - k,
        {
            arr[j - k] = arr[j - k - 1];
            k += 1;
        }
        arr[i] = key;
        proof {
            let after = arr@;
            assert(after =~= before.remove(j as int).insert(i as int, key));
            vstd::seq_lib::to_multiset_remove(before, j as int);
            vstd::seq_lib::to_multiset_insert(before.remove(j as int), i as int, key);
            broadcast use vstd::seq_lib::group_to_multiset_ensures;
            assert(before.to_multiset().count(key) > 0);
            assert(after.to_multiset() =~= before.to_multiset());
            let prefix = before.subrange(0, j as int);
            let next = after.subrange(0, j + 1);
            assert forall|p: int, q: int| 0 <= p <= q < next.len() implies next[p] <= next[q] by {
                if q < i {
                    assert(prefix[p] <= prefix[q]);
                } else if q == i {
                } else if p < i {
                    assert(before[i as int] >= key);
                    assert(prefix[i as int] <= prefix[q - 1]);
                } else if p == i {
                    assert(prefix[i as int] <= prefix[q - 1]);
                } else {
                    assert(prefix[p - 1] <= prefix[q - 1]);
                }
            }
        }
        j += 1;
    }
    proof {
        if n == 0 {
            assert(arr@.subrange(0, 0) =~= arr@);
        } else {
            assert(arr@.subrange(0, n as int) =~= arr@);
        }
    }
}

} // verus!
