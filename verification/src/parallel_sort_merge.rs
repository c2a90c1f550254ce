//! Sorting of chunks and merging of runs by several workers.  Every worker
//! sorts one chunk and names separators; the separators of all chunks are
//! pooled into cut points, by which every run is cut into one range for every
//! worker; and every worker merges its ranges of all runs.

use crate::base_case::insertion_sort;
use crate::merge::{consumed_parts, cut_runs, lemma_passed_total, lemma_run_bounds, lemma_runs_are_range, lemma_table_is_set, merge_table, range_ok, run_set, run_table, run_total, runs_clear_of, runs_sorted, total_of};
use crate::model::{
    is_permutation, is_sorted, lemma_concat_multiset, lemma_permutation_len,
    lemma_permutation_member,
};
use crate::parts::{concat_parts, lemma_parts_add, lemma_parts_len, parts_len};
use crate::permutation::same_outside;
use crate::config::NUM_THREADS;
use crate::device::{Dma, QueuePair};
use crate::sequential_sort_merge::{
    in_merge_area, merge_on_device, scratch_start, sort_merge_by, sort_merge_result,
};
use crate::sort::{lbas_for, page_buffers, read_write_elements, SortError};
use crate::sorter::{ExtTask, IPS2RaSorter};
use crate::store::KeyStore;
use vstd::prelude::*;

verus! {

/// Separator `j` of a run of `len` keys of which `num_separators` separators
/// are taken stands at this place.
pub open spec fn separator_place(len: int, num_separators: int, j: int) -> int {
    (j + 1) * (len / (num_separators + 1))
}

/// `key` is separator `j` of `input`, of which `num_separators` are taken.
pub open spec fn is_separator(input: Seq<u64>, num_separators: int, j: int, key: u64) -> bool {
    &&& 0 <= separator_place(input.len() as int, num_separators, j) < input.len()
    &&& key == input[separator_place(input.len() as int, num_separators, j)]
}

/// Takes `num_separators` keys at equal distances out of `input`: with the
/// input cut into `num_separators + 1` chunks of equal size, the first key of
/// every chunk but the first.
pub fn compute_local_separators(input: &[u64], num_separators: usize) -> (separators: Vec<u64>)
    requires
        input@.len() >= 1 || num_separators == 0,
        num_separators < usize::MAX,
    ensures
        separators@.len() == num_separators,
        forall|j: int|
            0 <= j < num_separators ==> #[trigger] is_separator(
                input@,
                num_separators as int,
                j,
                separators@[j],
            ),
        is_sorted(input@) ==> is_sorted(separators@),
{
    let len = input.len();
    let chunk_size = len / (num_separators + 1);
    let mut separators: Vec<u64> = Vec::new();
    let mut i: usize = 1;
    while i <= num_separators
        invariant
            1 <= i <= num_separators + 1,
            num_separators < usize::MAX,
            len == input@.len(),
            len >= 1 || num_separators == 0,
            chunk_size == len as int / (num_separators + 1),
            separators@.len() == i - 1,
            forall|j: int|
                0 <= j < i - 1 ==> #[trigger] is_separator(
                    input@,
                    num_separators as int,
                    j,
                    separators@[j],
                ),
        decreases num_separators + 1 - i,
    {
        proof {
            lemma_separator_in_range(len as int, num_separators as int, i - 1);
            assert(separator_place(len as int, num_separators as int, i - 1) == i * chunk_size)
                by (nonlinear_arith)
                requires
                    separator_place(len as int, num_separators as int, i - 1) == (i - 1 + 1) * (
                    len as int / (num_separators + 1)),
                    chunk_size == len as int / (num_separators + 1),
            ;
        }
        let ghost before = separators@;
        separators.push(input[i * chunk_size]);
        proof {
            assert forall|j: int| 0 <= j < i implies #[trigger] is_separator(
                input@,
                num_separators as int,
                j,
                separators@[j],
            ) by {
                if j < i - 1 {
                    assert(is_separator(input@, num_separators as int, j, before[j]));
                    assert(separators@[j] == before[j]);
                }
            }
        }
        i += 1;
    }
    proof {
        if is_sorted(input@) {
            assert forall|a: int, b: int| 0 <= a <= b < separators@.len() implies separators@[a]
                <= separators@[b] by {
                assert(is_separator(input@, num_separators as int, a, separators@[a]));
                assert(is_separator(input@, num_separators as int, b, separators@[b]));
                lemma_separator_order(len as int, num_separators as int, a, b);
            }
        }
    }
    separators
}

proof fn lemma_separator_in_range(len: int, num_separators: int, j: int)
    requires
        len >= 1,
        0 <= j < num_separators,
    ensures
        0 <= separator_place(len, num_separators, j) < len,
        separator_place(len, num_separators, j) == (j + 1) * (len / (num_separators + 1)),
{
    let chunk = len / (num_separators + 1);
    assert(chunk * (num_separators + 1) <= len) by (nonlinear_arith)
        requires
            chunk == len / (num_separators + 1),
            num_separators + 1 > 0,
            len >= 0,
    ;
    assert(0 <= (j + 1) * chunk <= num_separators * chunk) by (nonlinear_arith)
        requires
            0 <= j < num_separators,
            chunk >= 0,
    ;
    assert(num_separators * chunk < len) by (nonlinear_arith)
        requires
            chunk * (num_separators + 1) <= len,
            chunk >= 0,
            len >= 1,
            num_separators >= 1,
    ;
}

proof fn lemma_separator_order(len: int, num_separators: int, a: int, b: int)
    requires
        len >= 0,
        0 <= a <= b,
        num_separators >= 0,
    ensures
        separator_place(len, num_separators, a) <= separator_place(len, num_separators, b),
{
    let chunk = len / (num_separators + 1);
    assert((a + 1) * chunk <= (b + 1) * chunk) by (nonlinear_arith)
        requires
            0 <= a <= b,
            chunk >= 0,
    ;
}

/// The range of run `array` that worker `thread` merges, given for every run
/// the cut indices of the separators: from the cut of the worker before, or
/// the start of the run, up to the cut of the worker, or the end of the run.
pub open spec fn range_of(
    local_indices: Seq<Vec<usize>>,
    array_len: usize,
    num_threads: int,
    last_length: usize,
    thread: int,
    array: int,
) -> (usize, usize) {
    (
        if thread == 0 {
            0
        } else {
            local_indices[array]@[thread - 1]
        },
        if thread == num_threads - 1 {
            if array == local_indices.len() - 1 {
                last_length
            } else {
                array_len
            }
        } else {
            local_indices[array]@[thread]
        },
    )
}

/// Turns the cut indices of every run into one range of every run for every
/// worker.  All runs hold `array_len` keys but the last, which holds
/// `last_length`.
pub fn transform_indices_to_ranges(
    local_indices: &Vec<Vec<usize>>,
    array_len: usize,
    num_threads: usize,
    last_length: usize,
) -> (ranges: Vec<Vec<(usize, usize)>>)
    requires
        num_threads >= 1,
        forall|a: int|
            0 <= a < local_indices@.len() ==> (#[trigger] local_indices@[a])@.len() >= num_threads
                - 1,
    ensures
        ranges@.len() == num_threads,
        forall|t: int| 0 <= t < num_threads ==> (#[trigger] ranges@[t])@.len() == local_indices@.len(),
        forall|t: int, a: int|
            0 <= t < num_threads && 0 <= a < local_indices@.len() ==> #[trigger] ranges@[t]@[a]
                == range_of(local_indices@, array_len, num_threads as int, last_length, t, a),
{
    let num_arrays = local_indices.len();
    let mut ranges: Vec<Vec<(usize, usize)>> = Vec::new();
    let mut thread: usize = 0;
    while thread < num_threads
        invariant
            thread <= num_threads,
            num_arrays == local_indices@.len(),
            forall|a: int|
                0 <= a < local_indices@.len() ==> (#[trigger] local_indices@[a])@.len()
                    >= num_threads - 1,
            ranges@.len() == thread,
            forall|t: int| 0 <= t < thread ==> (#[trigger] ranges@[t])@.len() == num_arrays,
            forall|t: int, a: int|
                0 <= t < thread && 0 <= a < num_arrays ==> #[trigger] ranges@[t]@[a] == range_of(
                    local_indices@,
                    array_len,
                    num_threads as int,
                    last_length,
                    t,
                    a,
                ),
        decreases num_threads - thread,
    {
        let mut row: Vec<(usize, usize)> = Vec::new();
        let mut array: usize = 0;
        while array < num_arrays
            invariant
                array <= num_arrays,
                thread < num_threads,
                num_arrays == local_indices@.len(),
                forall|a: int|
                    0 <= a < local_indices@.len() ==> (#[trigger] local_indices@[a])@.len()
                        >= num_threads - 1,
                row@.len() == array,
                forall|a: int|
                    0 <= a < array ==> #[trigger] row@[a] == range_of(
                        local_indices@,
                        array_len,
                        num_threads as int,
                        last_length,
                        thread as int,
                        a,
                    ),
            decreases num_arrays - array,
        {
            proof {
                assert(local_indices@[array as int]@.len() >= num_threads - 1);
            }
            let start = if thread == 0 {
                0
            } else {
                local_indices[array][thread - 1]
            };
            let end = if thread == num_threads - 1 {
                if array == num_arrays - 1 {
                    last_length
                } else {
                    array_len
                }
            } else {
                local_indices[array][thread]
            };
            row.push((start, end));
            array += 1;
        }
        ranges.push(row);
        thread += 1;
    }
    ranges
}

/// `cut` is where `sep` cuts the sorted keys from `lo` to `hi`: the keys before
/// it are not above `sep`, the keys from it on are.
pub open spec fn cut_of(keys: Seq<u64>, lo: int, hi: int, sep: u64, cut: int) -> bool {
    &&& lo <= cut <= hi
    &&& forall|p: int| lo <= p < cut ==> #[trigger] keys[p] <= sep
    &&& forall|p: int| cut <= p < hi ==> #[trigger] keys[p] > sep
}

/// A larger separator cuts a range no earlier.
pub proof fn lemma_cut_monotone(keys: Seq<u64>, lo: int, hi: int, a: u64, b: u64, ca: int, cb: int)
    requires
        cut_of(keys, lo, hi, a, ca),
        cut_of(keys, lo, hi, b, cb),
        a <= b,
    ensures
        ca <= cb,
{
    if cb < ca {
        assert(keys[cb] > b);
        assert(keys[cb] <= a);
    }
}

/// Finds where `sep` cuts the sorted keys from `lo` to `hi`, by bisection.
pub fn cut_index<S: KeyStore + ?Sized>(keys: &mut S, lo: usize, hi: usize, sep: u64) -> (cut: usize)
    requires
        old(keys).usable(),
        lo <= hi <= old(keys).keys().len(),
        is_sorted(old(keys).keys().subrange(lo as int, hi as int)),
    ensures
        final(keys).usable(),
        final(keys).surroundings() == old(keys).surroundings(),
        final(keys).keys() == old(keys).keys(),
        cut_of(old(keys).keys(), lo as int, hi as int, sep, cut as int),
{
    let ghost input = keys.keys();
    let ghost range = input.subrange(lo as int, hi as int);
    let n = keys.size();
    let mut left = lo;
    let mut right = hi;
    while left < right
        invariant
            lo <= left <= right <= hi <= n,
            n == input.len(),
            keys.usable(),
            keys.surroundings() == old(keys).surroundings(),
            keys.keys() == input,
            range == input.subrange(lo as int, hi as int),
            is_sorted(range),
            forall|p: int| lo <= p < left ==> #[trigger] input[p] <= sep,
            forall|p: int| right <= p < hi ==> #[trigger] input[p] > sep,
        decreases right - left,
    {
        let half = left + (right - left) / 2;
        let loaded = keys.load(half);
        if loaded <= sep {
            proof {
                assert forall|p: int| lo <= p < half + 1 implies #[trigger] input[p] <= sep by {
                    assert(range[p - lo] <= range[half - lo]);
                }
            }
            left = half + 1;
        } else {
            proof {
                assert forall|p: int| half <= p < hi implies #[trigger] input[p] > sep by {
                    assert(range[half - lo] <= range[p - lo]);
                }
            }
            right = half;
        }
    }
    left
}

/// A key of the concatenation of parts is a key of one of the parts.
pub proof fn lemma_concat_member(parts: Seq<Seq<u64>>, q: int) -> (place: (int, int))
    requires
        0 <= q < concat_parts(parts).len(),
    ensures
        0 <= place.0 < parts.len(),
        0 <= place.1 < parts[place.0].len(),
        parts[place.0][place.1] == concat_parts(parts)[q],
    decreases parts.len(),
{
    let front = concat_parts(parts.drop_last());
    if q < front.len() {
        let place = lemma_concat_member(parts.drop_last(), q);
        place
    } else {
        (parts.len() - 1, q - front.len())
    }
}

/// What one worker adds to the output of a group: the keys between its cut
/// and the cut of the worker before, of every run.
proof fn lemma_phase_done(
    input: Seq<u64>,
    now: Seq<u64>,
    after: Seq<u64>,
    starts: Seq<usize>,
    ends: Seq<usize>,
    from: Seq<usize>,
    to: Seq<usize>,
    out: int,
    off: int,
    total: int,
    has_lower: bool,
    lower: u64,
    has_upper: bool,
    upper: u64,
)
    requires
        run_set(input, starts, ends),
        from.len() == starts.len(),
        to.len() == starts.len(),
        now.len() == input.len(),
        forall|i: int|
            0 <= i < starts.len() ==> starts[i] <= #[trigger] from[i] <= to[i] && to[i] <= ends[i],
        forall|i: int, p: int|
            #![trigger starts[i], now[p]]
            0 <= i < starts.len() && starts[i] <= p < ends[i] ==> now[p] == input[p],
        0 <= out,
        0 <= off,
        0 <= total,
        out + off + total <= now.len(),
        off == parts_len(consumed_parts(input, starts, from)),
        is_sorted(now.subrange(out, out + off)),
        is_permutation(now.subrange(out, out + off), concat_parts(consumed_parts(input, starts, from))),
        !has_lower ==> off == 0,
        has_lower ==> forall|q: int| out <= q < out + off ==> #[trigger] now[q] <= lower,
        has_lower ==> forall|i: int, p: int|
            #![trigger from[i], input[p]]
            0 <= i < starts.len() && from[i] <= p < ends[i] ==> input[p] > lower,
        has_upper ==> forall|i: int, p: int|
            #![trigger to[i], input[p]]
            0 <= i < starts.len() && starts[i] <= p < to[i] ==> input[p] <= upper,
        has_lower && has_upper ==> lower <= upper,
        total == run_total(now, from, to),
        same_outside(now, after, out + off, out + off + total),
        is_sorted(after.subrange(out + off, out + off + total)),
        is_permutation(
            concat_parts(consumed_parts(now, from, to)),
            after.subrange(out + off, out + off + total),
        ),
    ensures
        off + total == parts_len(consumed_parts(input, starts, to)),
        is_sorted(after.subrange(out, out + off + total)),
        is_permutation(
            after.subrange(out, out + off + total),
            concat_parts(consumed_parts(input, starts, to)),
        ),
        has_upper ==> forall|q: int| out <= q < out + off + total ==> #[trigger] after[q] <= upper,
{
    broadcast use vstd::multiset::group_multiset_axioms;

    let done = consumed_parts(input, starts, from);
    let fresh = consumed_parts(input, from, to);
    let whole = consumed_parts(input, starts, to);
    assert(consumed_parts(now, from, to) =~= fresh) by {
        assert forall|i: int| 0 <= i < starts.len() implies #[trigger] consumed_parts(
            now,
            from,
            to,
        )[i] == fresh[i] by {
            assert(range_ok(input, starts, ends, i));
            assert(starts[i] <= from[i] <= to[i] && to[i] <= ends[i]);
            assert(now.subrange(from[i] as int, to[i] as int) =~= input.subrange(
                from[i] as int,
                to[i] as int,
            )) by {
                assert forall|p: int| from[i] <= p < to[i] implies now[p] == input[p] by {
                    assert(starts[i] <= p < ends[i]);
                }
            }
        }
    }
    assert forall|i: int| 0 <= i < whole.len() implies (#[trigger] whole[i]).to_multiset()
        == done[i].to_multiset().add(fresh[i].to_multiset()) by {
        assert(range_ok(input, starts, ends, i));
        assert(starts[i] <= from[i] <= to[i] && to[i] <= ends[i]);
        assert(whole[i] =~= done[i] + fresh[i]);
        lemma_concat_multiset(done[i], fresh[i]);
    }
    lemma_parts_add(whole, done, fresh);
    let pre = now.subrange(out, out + off);
    let seg = after.subrange(out + off, out + off + total);
    let all = after.subrange(out, out + off + total);
    assert(all =~= pre + seg);
    lemma_concat_multiset(pre, seg);
    lemma_permutation_len(all, concat_parts(whole));
    lemma_parts_len(whole);
    assert forall|q: int| 0 <= q < seg.len() implies (has_lower ==> #[trigger] seg[q] > lower) && (
    has_upper ==> seg[q] <= upper) by {
        let m = lemma_permutation_member(concat_parts(fresh), seg, q);
        let place = lemma_concat_member(fresh, m);
        let i = place.0;
        let p = from[i] + place.1;
        assert(range_ok(input, starts, ends, i));
        assert(starts[i] <= from[i] <= to[i] && to[i] <= ends[i]);
        assert(fresh[i][place.1] == input[p]);
        if has_lower {
            assert(from[i] <= p < ends[i]);
            assert(input[p] > lower);
        }
        if has_upper {
            assert(starts[i] <= p < to[i]);
            assert(input[p] <= upper);
        }
    }
    assert forall|a: int, b: int| 0 <= a <= b < all.len() implies all[a] <= all[b] by {
        if b < off {
            assert(pre[a] <= pre[b]);
        } else if a >= off {
            assert(seg[a - off] <= seg[b - off]);
        } else {
            assert(all[a] == now[out + a]);
            assert(now[out + a] <= lower);
            assert(seg[b - off] > lower);
        }
    }
    if has_upper {
        assert forall|q: int| out <= q < out + off + total implies #[trigger] after[q] <= upper by {
            if q < out + off {
                assert(after[q] == now[q]);
                assert(now[q] <= lower);
            } else {
                assert(seg[q - out - off] <= upper);
            }
        }
    }
}

/// The cuts of all runs of a group: `cuts[i][j]` is where separator `j` cuts
/// run `i`, counted from the start of the run.
pub open spec fn group_cuts(
    keys: Seq<u64>,
    starts: Seq<usize>,
    ends: Seq<usize>,
    separators: Seq<u64>,
    cuts: Seq<Vec<usize>>,
) -> bool {
    &&& cuts.len() == starts.len()
    &&& forall|i: int| 0 <= i < cuts.len() ==> (#[trigger] cuts[i])@.len() == separators.len()
    &&& forall|i: int, j: int|
        #![trigger cuts[i]@[j]]
        0 <= i < cuts.len() && 0 <= j < separators.len() ==> cut_of(
            keys,
            starts[i] as int,
            ends[i] as int,
            separators[j],
            starts[i] + cuts[i]@[j],
        )
}

/// The keys that a run of `len` keys from `start` on gives to the pool of its
/// group: with the run cut into as many chunks of equal size as there are
/// workers, the first key of every chunk but the first.
pub open spec fn run_separators(keys: Seq<u64>, start: int, len: int, workers: int) -> Seq<u64> {
    Seq::new((workers - 1) as nat, |j: int| keys[start + (j + 1) * (len / workers)])
}

/// The pool of the first `n` runs of a group: what the runs give, run after
/// run.
pub open spec fn separator_pool(
    keys: Seq<u64>,
    starts: Seq<usize>,
    ends: Seq<usize>,
    workers: int,
    n: int,
) -> Seq<u64>
    decreases n,
{
    if n <= 0 {
        Seq::empty()
    } else {
        separator_pool(keys, starts, ends, workers, n - 1) + run_separators(
            keys,
            starts[n - 1] as int,
            ends[n - 1] - starts[n - 1],
            workers,
        )
    }
}

/// `separators` are taken at equal distances from the sorted keys of `pool`.
pub open spec fn separators_of(pool: Seq<u64>, separators: Seq<u64>) -> bool {
    exists|ordered: Seq<u64>|
        {
            &&& is_sorted(ordered)
            &&& is_permutation(pool, ordered)
            &&& forall|j: int|
                0 <= j < separators.len() ==> #[trigger] is_separator(
                    ordered,
                    separators.len() as int,
                    j,
                    separators[j],
                )
        }
}

/// Takes from every run of a group as many keys at equal distances as there
/// are workers but one, pools and sorts them, and takes as many keys at equal
/// distances from the pool: the separators of the group.
pub fn find_separators<S: KeyStore + ?Sized>(
    keys: &mut S,
    starts: &Vec<usize>,
    ends: &Vec<usize>,
    workers: usize,
) -> (separators: Vec<u64>)
    requires
        old(keys).usable(),
        workers >= 1,
        starts@.len() == ends@.len(),
        starts@.len() >= 1,
        forall|i: int|
            0 <= i < starts@.len() ==> (#[trigger] starts@[i]) < ends@[i] <= old(keys).keys().len(),
    ensures
        final(keys).usable(),
        final(keys).surroundings() == old(keys).surroundings(),
        final(keys).keys() == old(keys).keys(),
        separators@.len() == workers - 1,
        is_sorted(separators@),
        separators_of(
            separator_pool(old(keys).keys(), starts@, ends@, workers as int, starts@.len() as int),
            separators@,
        ),
{
    let ghost input = keys.keys();
    let mut pool: Vec<u64> = Vec::new();
    let mut i: usize = 0;
    while i < starts.len()
        invariant
            i <= starts@.len(),
            workers >= 1,
            starts@.len() == ends@.len(),
            keys.usable(),
            keys.surroundings() == old(keys).surroundings(),
            keys.keys() == input,
            input == old(keys).keys(),
            forall|i: int|
                0 <= i < starts@.len() ==> (#[trigger] starts@[i]) < ends@[i] <= input.len(),
            i >= 1 && workers >= 2 ==> pool@.len() >= 1,
            workers == 1 ==> pool@.len() == 0,
            pool@ == separator_pool(input, starts@, ends@, workers as int, i as int),
        decreases starts@.len() - i,
    {
        proof {
            assert(starts@[i as int] < ends@[i as int]);
        }
        let len = ends[i] - starts[i];
        let chunk = len / workers;
        let mut j: usize = 1;
        let mut place: usize = starts[i];
        let ghost before = pool@;
        let ghost given = run_separators(input, starts@[i as int] as int, len as int, workers as int);
        proof {
            assert((workers - 1) * chunk < len) by (nonlinear_arith)
                requires
                    chunk == len / workers,
                    workers >= 1,
                    len >= 1,
            ;
            assert(pool@ =~= before + given.subrange(0, 0));
        }
        while j < workers
            invariant
                1 <= j <= workers,
                i < starts@.len(),
                starts@.len() == ends@.len(),
                starts@[i as int] <= place,
                place == starts@[i as int] + (j - 1) * chunk,
                chunk == len as int / workers as int,
                place + (workers - j) * chunk < ends@[i as int],
                ends@[i as int] <= keys.keys().len(),
                keys.usable(),
                keys.surroundings() == old(keys).surroundings(),
                keys.keys() == input,
                i >= 1 && workers >= 2 ==> pool@.len() >= 1,
                j >= 2 ==> pool@.len() >= 1,
                workers == 1 ==> pool@.len() == 0,
                given == run_separators(
                    input,
                    starts@[i as int] as int,
                    len as int,
                    workers as int,
                ),
                pool@ == before + given.subrange(0, j - 1),
            decreases workers - j,
        {
            proof {
                assert((workers - j) * chunk == chunk + (workers - j - 1) * chunk)
                    by (nonlinear_arith)
                    requires
                        workers - j >= 1,
                ;
                assert((workers - j - 1) * chunk >= 0) by (nonlinear_arith)
                    requires
                        workers - j - 1 >= 0,
                        chunk >= 0,
                ;
                assert((j - 1) * chunk + chunk == j * chunk) by (nonlinear_arith);
            }
            place = place + chunk;
            let key = keys.load(place);
            pool.push(key);
            proof {
                assert(given[j - 1] == input[starts@[i as int] + (j - 1 + 1) * (len as int
                    / workers as int)]);
                assert(key == given[j - 1]);
                assert(pool@ =~= before + given.subrange(0, j as int));
            }
            j += 1;
        }
        proof {
            assert(given.subrange(0, workers - 1) =~= given);
        }
        i += 1;
    }
    if workers == 1 {
        proof {
            assert(is_sorted(pool@));
            assert(is_permutation(pool@, pool@));
        }
        return Vec::new();
    }
    let ghost pooled = pool@;
    insertion_sort(pool.as_mut_slice());
    let separators = compute_local_separators(pool.as_slice(), workers - 1);
    proof {
        assert(is_sorted(pool@) && is_permutation(pooled, pool@));
    }
    separators
}

/// Cuts every run of a group at every separator.
pub fn find_cuts<S: KeyStore + ?Sized>(
    keys: &mut S,
    starts: &Vec<usize>,
    ends: &Vec<usize>,
    separators: &Vec<u64>,
) -> (cuts: Vec<Vec<usize>>)
    requires
        old(keys).usable(),
        run_set(old(keys).keys(), starts@, ends@),
    ensures
        final(keys).usable(),
        final(keys).surroundings() == old(keys).surroundings(),
        final(keys).keys() == old(keys).keys(),
        group_cuts(old(keys).keys(), starts@, ends@, separators@, cuts@),
{
    let ghost input = keys.keys();
    let mut cuts: Vec<Vec<usize>> = Vec::new();
    let mut i: usize = 0;
    while i < starts.len()
        invariant
            i <= starts@.len(),
            keys.usable(),
            keys.surroundings() == old(keys).surroundings(),
            keys.keys() == input,
            run_set(input, starts@, ends@),
            cuts@.len() == i,
            forall|a: int| 0 <= a < i ==> (#[trigger] cuts@[a])@.len() == separators@.len(),
            forall|a: int, b: int|
                #![trigger cuts@[a]@[b]]
                0 <= a < i && 0 <= b < separators@.len() ==> cut_of(
                    input,
                    starts@[a] as int,
                    ends@[a] as int,
                    separators@[b],
                    starts@[a] + cuts@[a]@[b],
                ),
        decreases starts@.len() - i,
    {
        proof {
            assert(range_ok(input, starts@, ends@, i as int));
        }
        let mut row: Vec<usize> = Vec::new();
        let mut j: usize = 0;
        while j < separators.len()
            invariant
                j <= separators@.len(),
                i < starts@.len(),
                starts@.len() == ends@.len(),
                keys.usable(),
                keys.surroundings() == old(keys).surroundings(),
                keys.keys() == input,
                range_ok(input, starts@, ends@, i as int),
                row@.len() == j,
                forall|b: int|
                    0 <= b < j ==> cut_of(
                        input,
                        starts@[i as int] as int,
                        ends@[i as int] as int,
                        separators@[b],
                        starts@[i as int] + #[trigger] row@[b],
                    ),
            decreases separators@.len() - j,
        {
            let cut = cut_index(keys, starts[i], ends[i], separators[j]);
            row.push(cut - starts[i]);
            j += 1;
        }
        let ghost before = cuts@;
        cuts.push(row);
        proof {
            assert forall|a: int, b: int|
                #![trigger cuts@[a]@[b]]
                0 <= a < i + 1 && 0 <= b < separators@.len() implies cut_of(
                input,
                starts@[a] as int,
                ends@[a] as int,
                separators@[b],
                starts@[a] + cuts@[a]@[b],
            ) by {
                if a < i {
                    assert(cuts@[a] == before[a]);
                }
            }
            assert forall|a: int| 0 <= a < i + 1 implies (#[trigger] cuts@[a])@.len()
                == separators@.len() by {
                if a < i {
                    assert(cuts@[a] == before[a]);
                }
            }
        }
        i += 1;
    }
    cuts
}

/// Where the cursor of run `i` stands before worker `t` starts: at the start
/// of the run for the first worker, at the cut of the worker before for the
/// others, and at the end of the run behind the last worker.
pub open spec fn cursor_place(
    starts: Seq<usize>,
    ends: Seq<usize>,
    cuts: Seq<Vec<usize>>,
    workers: int,
    t: int,
    i: int,
) -> usize {
    if t <= 0 {
        starts[i]
    } else if t >= workers {
        ends[i]
    } else {
        (starts[i] + cuts[i]@[t - 1]) as usize
    }
}

pub open spec fn cursor_seq(
    starts: Seq<usize>,
    ends: Seq<usize>,
    cuts: Seq<Vec<usize>>,
    workers: int,
    t: int,
) -> Seq<usize> {
    Seq::new(starts.len(), |i: int| cursor_place(starts, ends, cuts, workers, t, i))
}

/// What is settled before the workers of a group start: the runs, the
/// separators, the cuts, and the place of the output.
pub open spec fn group_plan(
    input: Seq<u64>,
    starts: Seq<usize>,
    ends: Seq<usize>,
    separators: Seq<u64>,
    cuts: Seq<Vec<usize>>,
    lo: int,
    hi: int,
    out: int,
    workers: int,
) -> bool {
    &&& run_table(input, starts, ends, lo, hi)
    &&& group_cuts(input, starts, ends, separators, cuts)
    &&& is_sorted(separators)
    &&& workers >= 1
    &&& separators.len() == workers - 1
    &&& 0 <= out
    &&& out + (hi - lo) <= input.len()
    &&& out + (hi - lo) <= lo || hi <= out
}

/// The cursors of a run move on from worker to worker, between the start and
/// the end of the run; the keys before the cursor of a worker are not above
/// the separator before it, the keys from it on are above.
proof fn lemma_cursor_facts(
    input: Seq<u64>,
    starts: Seq<usize>,
    ends: Seq<usize>,
    separators: Seq<u64>,
    cuts: Seq<Vec<usize>>,
    lo: int,
    hi: int,
    out: int,
    workers: int,
    t: int,
    i: int,
)
    requires
        group_plan(input, starts, ends, separators, cuts, lo, hi, out, workers),
        0 <= t < workers,
        0 <= i < starts.len(),
    ensures
        lo <= starts[i] <= cursor_place(starts, ends, cuts, workers, t, i),
        cursor_place(starts, ends, cuts, workers, t, i) <= cursor_place(
            starts,
            ends,
            cuts,
            workers,
            t + 1,
            i,
        ),
        cursor_place(starts, ends, cuts, workers, t + 1, i) <= ends[i] <= hi,
        hi <= input.len(),
        is_sorted(input.subrange(starts[i] as int, ends[i] as int)),
        t >= 1 ==> cut_of(
            input,
            starts[i] as int,
            ends[i] as int,
            separators[t - 1],
            cursor_place(starts, ends, cuts, workers, t, i) as int,
        ),
        t + 1 < workers ==> cut_of(
            input,
            starts[i] as int,
            ends[i] as int,
            separators[t],
            cursor_place(starts, ends, cuts, workers, t + 1, i) as int,
        ),
{
    lemma_run_bounds(input, starts, ends, lo, hi, i);
    if t >= 1 {
        assert(cut_of(
            input,
            starts[i] as int,
            ends[i] as int,
            separators[t - 1],
            starts[i] + cuts[i]@[t - 1],
        ));
    }
    if t + 1 < workers {
        assert(cut_of(
            input,
            starts[i] as int,
            ends[i] as int,
            separators[t],
            starts[i] + cuts[i]@[t],
        ));
    }
    if t >= 1 && t + 1 < workers {
        lemma_cut_monotone(
            input,
            starts[i] as int,
            ends[i] as int,
            separators[t - 1],
            separators[t],
            starts[i] + cuts[i]@[t - 1],
            starts[i] + cuts[i]@[t],
        );
    }
}

/// A part of a sorted sequence is sorted.
pub proof fn lemma_sorted_part(s: Seq<u64>, a: int, b: int)
    requires
        is_sorted(s),
        0 <= a <= b <= s.len(),
    ensures
        is_sorted(s.subrange(a, b)),
{
    let part = s.subrange(a, b);
    assert forall|i: int, j: int| 0 <= i <= j < part.len() implies part[i] <= part[j] by {
        assert(s[a + i] <= s[a + j]);
    }
}

/// Before worker `t` starts, its ranges are ready to be merged behind the
/// output of the workers before it.
proof fn lemma_phase_ready(
    input: Seq<u64>,
    now: Seq<u64>,
    starts: Seq<usize>,
    ends: Seq<usize>,
    separators: Seq<u64>,
    cuts: Seq<Vec<usize>>,
    lo: int,
    hi: int,
    out: int,
    workers: int,
    t: int,
    off: int,
)
    requires
        group_plan(input, starts, ends, separators, cuts, lo, hi, out, workers),
        0 <= t < workers,
        0 <= off,
        same_outside(input, now, out, out + off),
        off <= hi - lo,
        off == parts_len(consumed_parts(input, starts, cursor_seq(starts, ends, cuts, workers, t))),
    ensures
        run_set(
            now,
            cursor_seq(starts, ends, cuts, workers, t),
            cursor_seq(starts, ends, cuts, workers, t + 1),
        ),
        out + off + run_total(
            now,
            cursor_seq(starts, ends, cuts, workers, t),
            cursor_seq(starts, ends, cuts, workers, t + 1),
        ) <= out + (hi - lo),
        runs_clear_of(
            cursor_seq(starts, ends, cuts, workers, t),
            cursor_seq(starts, ends, cuts, workers, t + 1),
            out + off,
            out + off + run_total(
                now,
                cursor_seq(starts, ends, cuts, workers, t),
                cursor_seq(starts, ends, cuts, workers, t + 1),
            ),
        ),
        forall|i: int, p: int|
            #![trigger starts[i], now[p]]
            0 <= i < starts.len() && starts[i] <= p < ends[i] ==> now[p] == input[p],
        run_set(input, starts, ends),
{
    let from = cursor_seq(starts, ends, cuts, workers, t);
    let to = cursor_seq(starts, ends, cuts, workers, t + 1);
    lemma_table_is_set(input, starts, ends, lo, hi);
    assert forall|i: int, p: int|
        #![trigger starts[i], now[p]]
        0 <= i < starts.len() && starts[i] <= p < ends[i] implies now[p] == input[p] by {
        lemma_run_bounds(input, starts, ends, lo, hi, i);
    }
    assert forall|i: int| 0 <= i < from.len() implies #[trigger] range_ok(now, from, to, i) by {
        lemma_cursor_facts(input, starts, ends, separators, cuts, lo, hi, out, workers, t, i);
        let run = input.subrange(starts[i] as int, ends[i] as int);
        lemma_sorted_part(run, from[i] - starts[i], to[i] - starts[i]);
        assert(now.subrange(from[i] as int, to[i] as int) =~= run.subrange(
            from[i] - starts[i],
            to[i] - starts[i],
        )) by {
            assert forall|p: int| from[i] <= p < to[i] implies now[p] == input[p] by {
                assert(starts[i] <= p < ends[i]);
            }
        }
    }
    let done = consumed_parts(input, starts, from);
    let fresh = consumed_parts(now, from, to);
    let whole = consumed_parts(input, starts, to);
    assert forall|i: int| 0 <= i < starts.len() implies starts[i] <= #[trigger] to[i] <= ends[i] by {
        lemma_cursor_facts(input, starts, ends, separators, cuts, lo, hi, out, workers, t, i);
    }
    lemma_passed_total(input, starts, ends, to);
    assert forall|i: int| 0 <= i < whole.len() implies (#[trigger] whole[i]).len() == done[i].len()
        + fresh[i].len() by {
        lemma_cursor_facts(input, starts, ends, separators, cuts, lo, hi, out, workers, t, i);
    }
    lemma_parts_len_sum(whole, done, fresh);
    assert forall|i: int| 0 <= i < from.len() implies (#[trigger] from[i]) == to[i] || to[i]
        <= out + off || out + off + run_total(now, from, to) <= from[i] by {
        lemma_cursor_facts(input, starts, ends, separators, cuts, lo, hi, out, workers, t, i);
    }
}

/// Parts that are as long as two other parts together hold as many keys as the
/// two others together.
proof fn lemma_parts_len_sum(whole: Seq<Seq<u64>>, left: Seq<Seq<u64>>, right: Seq<Seq<u64>>)
    requires
        whole.len() == left.len(),
        whole.len() == right.len(),
        forall|i: int|
            0 <= i < whole.len() ==> (#[trigger] whole[i]).len() == left[i].len() + right[i].len(),
    ensures
        parts_len(whole) == parts_len(left) + parts_len(right),
    decreases whole.len(),
{
    if whole.len() > 0 {
        lemma_parts_len_sum(whole.drop_last(), left.drop_last(), right.drop_last());
        assert(whole[whole.len() - 1].len() == left[left.len() - 1].len() + right[right.len()
            - 1].len());
    }
}

/// The ranges of all runs that worker `t` merges, as places on the device.
fn phase_table(
    starts: &Vec<usize>,
    ends: &Vec<usize>,
    ranges: &Vec<Vec<(usize, usize)>>,
    t: usize,
    Ghost(cuts): Ghost<Seq<Vec<usize>>>,
    Ghost(run): Ghost<usize>,
) -> (table: (Vec<usize>, Vec<usize>))
    requires
        starts@.len() == ends@.len(),
        starts@.len() >= 1,
        cuts.len() == starts@.len(),
        t < ranges@.len(),
        ranges@[t as int]@.len() == starts@.len(),
        forall|a: int|
            0 <= a < starts@.len() ==> #[trigger] ranges@[t as int]@[a] == range_of(
                cuts,
                run,
                ranges@.len() as int,
                (ends@[ends@.len() - 1] - starts@[starts@.len() - 1]) as usize,
                t as int,
                a,
            ),
        forall|a: int| 0 <= a < starts@.len() ==> (#[trigger] starts@[a]) <= ends@[a],
        forall|a: int| 0 <= a < starts@.len() - 1 ==> (#[trigger] ends@[a]) - starts@[a] == run,
        forall|a: int|
            0 <= a < starts@.len() ==> (#[trigger] cuts[a])@.len() == ranges@.len() - 1,
        forall|a: int, b: int|
            #![trigger cuts[a]@[b]]
            0 <= a < starts@.len() && 0 <= b < ranges@.len() - 1 ==> starts@[a] + cuts[a]@[b]
                <= ends@[a],
    ensures
        table.0@ == cursor_seq(starts@, ends@, cuts, ranges@.len() as int, t as int),
        table.1@ == cursor_seq(starts@, ends@, cuts, ranges@.len() as int, t + 1),
{
    let mut from: Vec<usize> = Vec::new();
    let mut to: Vec<usize> = Vec::new();
    let ghost workers = ranges@.len() as int;
    let mut a: usize = 0;
    while a < starts.len()
        invariant
            a <= starts@.len(),
            starts@.len() == ends@.len(),
            starts@.len() >= 1,
            cuts.len() == starts@.len(),
            workers == ranges@.len(),
            t < ranges@.len(),
            ranges@[t as int]@.len() == starts@.len(),
            forall|a: int|
                0 <= a < starts@.len() ==> #[trigger] ranges@[t as int]@[a] == range_of(
                    cuts,
                    run,
                    ranges@.len() as int,
                    (ends@[ends@.len() - 1] - starts@[starts@.len() - 1]) as usize,
                    t as int,
                    a,
                ),
            forall|a: int| 0 <= a < starts@.len() ==> (#[trigger] starts@[a]) <= ends@[a],
            forall|a: int| 0 <= a < starts@.len() - 1 ==> (#[trigger] ends@[a]) - starts@[a] == run,
            forall|a: int|
                0 <= a < starts@.len() ==> (#[trigger] cuts[a])@.len() == ranges@.len() - 1,
            forall|a: int, b: int|
                #![trigger cuts[a]@[b]]
                0 <= a < starts@.len() && 0 <= b < ranges@.len() - 1 ==> starts@[a] + cuts[a]@[b]
                    <= ends@[a],
            from@.len() == a,
            to@.len() == a,
            forall|i: int|
                0 <= i < a ==> #[trigger] from@[i] == cursor_place(
                    starts@,
                    ends@,
                    cuts,
                    workers,
                    t as int,
                    i,
                ),
            forall|i: int|
                0 <= i < a ==> #[trigger] to@[i] == cursor_place(starts@, ends@, cuts, workers, t + 1, i),
        decreases starts@.len() - a,
    {
        proof {
            assert(ranges@[t as int]@[a as int] == range_of(
                cuts,
                run,
                ranges@.len() as int,
                (ends@[ends@.len() - 1] - starts@[starts@.len() - 1]) as usize,
                t as int,
                a as int,
            ));
            assert(cuts[a as int]@.len() == ranges@.len() - 1);
            assert(starts@[a as int] <= ends@[a as int]);
            if t >= 1 {
                assert(starts@[a as int] + cuts[a as int]@[t - 1] <= ends@[a as int]);
            }
            if t + 1 < ranges@.len() {
                assert(starts@[a as int] + cuts[a as int]@[t as int] <= ends@[a as int]);
            }
            if a < starts@.len() - 1 {
                assert(ends@[a as int] - starts@[a as int] == run);
            }
        }
        let range = ranges[t][a];
        from.push(starts[a] + range.0);
        to.push(starts[a] + range.1);
        a += 1;
    }
    proof {
        assert(from@ =~= cursor_seq(starts@, ends@, cuts, workers, t as int));
        assert(to@ =~= cursor_seq(starts@, ends@, cuts, workers, t + 1));
    }
    (from, to)
}

/// Merges the sorted runs from `lo` to `hi`, `run` keys each but for the last,
/// into the range that starts at `out`, in one pass for every worker; there
/// is one worker more than there are separators.  The separators cut every
/// run into one range for every worker; worker `t` merges range `t` of all
/// runs and writes behind the output of the workers before it.  No key of a
/// worker is above a key of a later worker, so the passes touch different
/// keys and can run in any order or at once.
pub fn prepare_thread_merge<S: KeyStore + ?Sized>(
    keys: &mut S,
    separators: &Vec<u64>,
    lo: usize,
    hi: usize,
    run: usize,
    out: usize,
)
    requires
        old(keys).usable(),
        run >= 1,
        is_sorted(separators@),
        separators@.len() < usize::MAX,
        lo <= hi <= old(keys).keys().len(),
        out + (hi - lo) <= old(keys).keys().len(),
        out + (hi - lo) <= lo || hi <= out,
        runs_sorted(old(keys).keys(), lo as int, hi as int, run as int, hi as int),
    ensures
        final(keys).usable(),
        final(keys).surroundings() == old(keys).surroundings(),
        same_outside(old(keys).keys(), final(keys).keys(), out as int, out + (hi - lo)),
        is_sorted(final(keys).keys().subrange(out as int, out + (hi - lo))),
        is_permutation(
            old(keys).keys().subrange(lo as int, hi as int),
            final(keys).keys().subrange(out as int, out + (hi - lo)),
        ),
{
    let ghost input = keys.keys();
    let workers = separators.len() + 1;
    let n = keys.size();
    let (starts, ends) = cut_runs(Ghost(input), lo, hi, run);
    if starts.len() == 0 {
        proof {
            assert(keys.keys().subrange(out as int, out + (hi - lo)) =~= input.subrange(
                lo as int,
                hi as int,
            ));
        }
        return ;
    }
    proof {
        lemma_table_is_set(input, starts@, ends@, lo as int, hi as int);
        assert forall|i: int| 0 <= i < starts@.len() implies (#[trigger] starts@[i]) < ends@[i]
            <= input.len() by {
            lemma_run_bounds(input, starts@, ends@, lo as int, hi as int, i);
        }
    }
    let cuts = find_cuts(keys, &starts, &ends, &separators);
    let last = starts.len() - 1;
    let ranges = transform_indices_to_ranges(&cuts, run, workers, ends[last] - starts[last]);
    proof {
        assert forall|a: int, b: int|
            #![trigger cuts@[a]@[b]]
            0 <= a < starts@.len() && 0 <= b < workers - 1 implies starts@[a] + cuts@[a]@[b]
            <= ends@[a] by {
            assert(cut_of(
                input,
                starts@[a] as int,
                ends@[a] as int,
                separators@[b],
                starts@[a] + cuts@[a]@[b],
            ));
        }
        assert(consumed_parts(input, starts@, cursor_seq(starts@, ends@, cuts@, workers as int, 0))
            =~= consumed_parts(input, starts@, starts@));
        let none = consumed_parts(input, starts@, starts@);
        assert forall|i: int| 0 <= i < none.len() implies (#[trigger] none[i]).len() == 0 by {
            lemma_run_bounds(input, starts@, ends@, lo as int, hi as int, i);
        }
        lemma_empty_parts(none);
        assert(keys.keys().subrange(out as int, out as int) =~= Seq::<u64>::empty());
    }
    let mut off: usize = 0;
    let mut t: usize = 0;
    while t < workers
        invariant
            t <= workers,
            run >= 1,
            n == input.len(),
            starts@.len() >= 1,
            ranges@.len() == workers,
            forall|w: int| 0 <= w < workers ==> (#[trigger] ranges@[w])@.len() == cuts@.len(),
            forall|w: int, a: int|
                0 <= w < workers && 0 <= a < cuts@.len() ==> #[trigger] ranges@[w]@[a] == range_of(
                    cuts@,
                    run,
                    workers as int,
                    (ends@[ends@.len() - 1] - starts@[starts@.len() - 1]) as usize,
                    w,
                    a,
                ),
            forall|k: int| 0 <= k < starts@.len() - 1 ==> (#[trigger] ends@[k]) - starts@[k] == run,
            forall|a: int, b: int|
                #![trigger cuts@[a]@[b]]
                0 <= a < starts@.len() && 0 <= b < workers - 1 ==> starts@[a] + cuts@[a]@[b]
                    <= ends@[a],
            group_plan(
                input,
                starts@,
                ends@,
                separators@,
                cuts@,
                lo as int,
                hi as int,
                out as int,
                workers as int,
            ),
            keys.usable(),
            keys.surroundings() == old(keys).surroundings(),
            keys.keys().len() == n,
            off <= hi - lo,
            same_outside(input, keys.keys(), out as int, out + off),
            off == parts_len(
                consumed_parts(
                    input,
                    starts@,
                    cursor_seq(starts@, ends@, cuts@, workers as int, t as int),
                ),
            ),
            is_sorted(keys.keys().subrange(out as int, out + off)),
            is_permutation(
                keys.keys().subrange(out as int, out + off),
                concat_parts(
                    consumed_parts(
                        input,
                        starts@,
                        cursor_seq(starts@, ends@, cuts@, workers as int, t as int),
                    ),
                ),
            ),
            t == 0 ==> off == 0,
            t >= 1 && t < workers ==> forall|q: int|
                out <= q < out + off ==> #[trigger] keys.keys()[q] <= separators@[t - 1],
        decreases workers - t,
    {
        let ghost now = keys.keys();
        proof {
            assert forall|a: int| 0 <= a < starts@.len() implies (#[trigger] starts@[a])
                <= ends@[a] by {
                lemma_run_bounds(input, starts@, ends@, lo as int, hi as int, a);
            }
            assert(ranges@[t as int]@.len() == cuts@.len());
        }
        let (from, to) = phase_table(&starts, &ends, &ranges, t, Ghost(cuts@), Ghost(run));
        proof {
            lemma_phase_ready(
                input,
                now,
                starts@,
                ends@,
                separators@,
                cuts@,
                lo as int,
                hi as int,
                out as int,
                workers as int,
                t as int,
                off as int,
            );
        }
        let total = total_of(Ghost(now), &from, &to);
        merge_table(keys, &from, &to, out + off);
        proof {
            let has_lower = t >= 1;
            let lower = if t >= 1 {
                separators@[t - 1]
            } else {
                0
            };
            let has_upper = t + 1 < workers;
            let upper = if t + 1 < workers {
                separators@[t as int]
            } else {
                0
            };
            assert forall|i: int| 0 <= i < starts@.len() implies starts@[i] <= #[trigger] from@[i]
                <= to@[i] && to@[i] <= ends@[i] by {
                lemma_cursor_facts(
                    input,
                    starts@,
                    ends@,
                    separators@,
                    cuts@,
                    lo as int,
                    hi as int,
                    out as int,
                    workers as int,
                    t as int,
                    i,
                );
            }
            if has_lower {
                assert forall|i: int, p: int|
                    #![trigger from@[i], input[p]]
                    0 <= i < starts@.len() && from@[i] <= p < ends@[i] implies input[p] > lower by {
                    lemma_cursor_facts(
                        input,
                        starts@,
                        ends@,
                        separators@,
                        cuts@,
                        lo as int,
                        hi as int,
                        out as int,
                        workers as int,
                        t as int,
                        i,
                    );
                }
            }
            if has_upper {
                assert forall|i: int, p: int|
                    #![trigger to@[i], input[p]]
                    0 <= i < starts@.len() && starts@[i] <= p < to@[i] implies input[p] <= upper by {
                    lemma_cursor_facts(
                        input,
                        starts@,
                        ends@,
                        separators@,
                        cuts@,
                        lo as int,
                        hi as int,
                        out as int,
                        workers as int,
                        t as int,
                        i,
                    );
                }
            }
            lemma_phase_done(
                input,
                now,
                keys.keys(),
                starts@,
                ends@,
                from@,
                to@,
                out as int,
                off as int,
                total as int,
                has_lower,
                lower,
                has_upper,
                upper,
            );
            assert forall|p: int|
                0 <= p < n && !(out <= p < out + off + total) implies #[trigger] keys.keys()[p]
                == input[p] by {
                assert(keys.keys()[p] == now[p]);
            }
        }
        off = off + total;
        t += 1;
    }
    proof {
        assert(cursor_seq(starts@, ends@, cuts@, workers as int, workers as int) =~= ends@);
        lemma_runs_are_range(input, starts@, ends@, lo as int, hi as int);
        lemma_permutation_len(
            keys.keys().subrange(out as int, out + off),
            concat_parts(consumed_parts(input, starts@, ends@)),
        );
    }
}

/// Merges the sorted runs from `lo` to `hi`, `run` keys each but for the last,
/// into the range that starts at `out`, in as many passes as there are
/// workers: takes the separators of the group from its runs and lets every
/// worker merge its range of every run.
pub fn merge_group_parallel<S: KeyStore + ?Sized>(
    keys: &mut S,
    lo: usize,
    hi: usize,
    run: usize,
    out: usize,
    workers: usize,
)
    requires
        old(keys).usable(),
        run >= 1,
        workers >= 1,
        lo <= hi <= old(keys).keys().len(),
        out + (hi - lo) <= old(keys).keys().len(),
        out + (hi - lo) <= lo || hi <= out,
        runs_sorted(old(keys).keys(), lo as int, hi as int, run as int, hi as int),
    ensures
        final(keys).usable(),
        final(keys).surroundings() == old(keys).surroundings(),
        same_outside(old(keys).keys(), final(keys).keys(), out as int, out + (hi - lo)),
        is_sorted(final(keys).keys().subrange(out as int, out + (hi - lo))),
        is_permutation(
            old(keys).keys().subrange(lo as int, hi as int),
            final(keys).keys().subrange(out as int, out + (hi - lo)),
        ),
{
    let ghost input = keys.keys();
    let (starts, ends) = cut_runs(Ghost(input), lo, hi, run);
    if starts.len() == 0 {
        proof {
            assert(keys.keys().subrange(out as int, out + (hi - lo)) =~= input.subrange(
                lo as int,
                hi as int,
            ));
        }
        return ;
    }
    proof {
        lemma_table_is_set(input, starts@, ends@, lo as int, hi as int);
        assert forall|i: int| 0 <= i < starts@.len() implies (#[trigger] starts@[i]) < ends@[i]
            <= input.len() by {
            lemma_run_bounds(input, starts@, ends@, lo as int, hi as int, i);
        }
    }
    let separators = find_separators(keys, &starts, &ends, workers);
    prepare_thread_merge(keys, &separators, lo, hi, run, out);
}

/// Parts that are all empty hold no key.
proof fn lemma_empty_parts(parts: Seq<Seq<u64>>)
    requires
        forall|b: int| 0 <= b < parts.len() ==> (#[trigger] parts[b]).len() == 0,
    ensures
        concat_parts(parts) == Seq::<u64>::empty(),
        parts_len(parts) == 0,
    decreases parts.len(),
{
    if parts.len() > 0 {
        lemma_empty_parts(parts.drop_last());
        assert(parts[parts.len() - 1].len() == 0);
        assert(concat_parts(parts) =~= Seq::<u64>::empty());
    }
}

/// Merges the sorted runs of `run` keys in the first `len` keys of the device
/// into one sorted run.  Every round merges groups of as many runs as there
/// are workers, every group in one pass for every worker.
pub fn merge_parallel(
    qpair: &mut QueuePair,
    buffer: &mut Vec<Dma>,
    len: usize,
    run: usize,
    workers: usize,
)
    requires
        old(qpair).wf(),
        old(qpair).in_flight == 0,
        old(qpair).image@.len() % 1024 == 0,
        old(qpair).image@.len() < usize::MAX,
        page_buffers(old(buffer)@),
        run >= 1,
        workers >= 2,
        scratch_start(len as int) + len <= old(qpair).image@.len(),
        runs_sorted(old(qpair).image@, 0, len as int, run as int, len as int),
    ensures
        final(qpair).wf(),
        final(qpair).in_flight == 0,
        final(qpair).image@.len() == old(qpair).image@.len(),
        page_buffers(final(buffer)@),
        final(buffer)@.len() == old(buffer)@.len(),
        is_sorted(final(qpair).image@.subrange(0, len as int)),
        is_permutation(
            old(qpair).image@.subrange(0, len as int),
            final(qpair).image@.subrange(0, len as int),
        ),
        forall|p: int|
            0 <= p < old(qpair).image@.len() && !in_merge_area(len as int, p) ==> final(qpair).image@[p] == old(qpair).image@[p],
{
    merge_on_device(qpair, len, buffer, run, workers, workers);
}

/// Sorts the first `len` keys of the device with one worker for every sorted
/// chunk of a group: the chunks are sorted in the sort buffer, and groups of
/// `NUM_THREADS` runs are merged in one pass for every worker.  The window
/// needs a page buffer for every run of a group and one for the output.
pub fn parallel_sort_merge(
    qpair: QueuePair,
    buffers: Vec<Dma>,
    sort_buffer: Dma,
    len: usize,
) -> (result: Result<QueuePair, SortError>)
    ensures
        sort_merge_result(
            qpair,
            buffers@,
            sort_buffer,
            len as int,
            NUM_THREADS + 1,
            result,
        ),
{
    sort_merge_by(qpair, buffers, sort_buffer, len, NUM_THREADS + 1, NUM_THREADS, NUM_THREADS)
}

/// The logical block that holds key `idx` of run `i`, where the runs hold
/// `input_length` bytes each and the first starts at `start_lba`.  A run
/// starts at the start of a block.
pub fn calculate_lba(idx: usize, start_lba: usize, i: usize, input_length: usize) -> (place: (
    usize,
    usize,
))
    requires
        input_length % 512 == 0,
        i * input_length / 512 + start_lba + idx / 64 <= usize::MAX,
        i * input_length <= usize::MAX,
    ensures
        place.0 == i * input_length / 512 + start_lba + idx / 64,
        place.1 == 0,
{
    (i * input_length / crate::config::LBA_SIZE + start_lba + idx / crate::config::ELEMENTS_PER_LBA, 0)
}

/// Copies the logical blocks that hold `len` keys from block `src_lba` on to
/// block `dst_lba` on, through `buffer`, as many blocks at a time as the
/// buffer has room for.
pub fn copy_elements_ext(
    qpair: &mut QueuePair,
    buffer: &mut Dma,
    src_lba: usize,
    dst_lba: usize,
    len: usize,
)
    requires
        old(qpair).wf(),
        old(qpair).in_flight == 0,
        old(buffer).keys@.len() >= 64,
        src_lba * 64 + lbas_for(0, len as int) * 64 <= old(qpair).image@.len(),
        dst_lba * 64 + lbas_for(0, len as int) * 64 <= old(qpair).image@.len(),
        dst_lba * 64 + lbas_for(0, len as int) * 64 <= src_lba * 64 || src_lba * 64 + lbas_for(
            0,
            len as int,
        ) * 64 <= dst_lba * 64,
    ensures
        final(qpair).wf(),
        final(qpair).in_flight == 0,
        final(buffer).keys@.len() == old(buffer).keys@.len(),
        crate::device::copied_into(
            old(qpair).image@,
            final(qpair).image@,
            dst_lba * 64,
            old(qpair).image@,
            src_lba * 64,
            lbas_for(0, len as int) * 64,
        ),
{
    let ghost image0 = qpair.image@;
    let image_len = qpair.image.len();
    let blocks = crate::sort::lbas_for_count(0, len);
    let room = buffer.size() / crate::config::ELEMENTS_PER_LBA;
    let mut written: usize = 0;
    while written < blocks
        invariant
            written <= blocks,
            room >= 1,
            room * 64 <= buffer.keys@.len(),
            buffer.keys@.len() == old(buffer).keys@.len(),
            blocks == lbas_for(0, len as int),
            image_len == image0.len(),
            src_lba * 64 + blocks * 64 <= image_len,
            dst_lba * 64 + blocks * 64 <= image_len,
            dst_lba * 64 + blocks * 64 <= src_lba * 64 || src_lba * 64 + blocks * 64 <= dst_lba * 64,
            qpair.wf(),
            qpair.in_flight == 0,
            qpair.image@.len() == image_len,
            crate::device::copied_into(
                image0,
                qpair.image@,
                dst_lba * 64,
                image0,
                src_lba * 64,
                written * 64,
            ),
        decreases blocks - written,
    {
        let piece = if blocks - written <= room {
            blocks - written
        } else {
            room
        };
        let ghost before = qpair.image@;
        read_write_elements(qpair, buffer, src_lba + written, 0, piece * 64, false);
        let ghost loaded = buffer.keys@;
        read_write_elements(qpair, buffer, dst_lba + written, 0, piece * 64, true);
        proof {
            let after = qpair.image@;
            let at = dst_lba * 64;
            let from = src_lba * 64;
            assert forall|p: int| at <= p < at + (written + piece) * 64 implies after[p]
                == image0[p - at + from] by {
                if p < at + written * 64 {
                    assert(after[p] == before[p]);
                } else {
                    let q = p - (at + written * 64);
                    assert(after[p] == loaded[q + 0]);
                    assert(loaded[q] == before[q - 0 + (src_lba + written) * 64]);
                    assert(before[q + (src_lba + written) * 64] == image0[q + (src_lba
                        + written) * 64]);
                }
            }
            assert forall|p: int|
                0 <= p < image0.len() && !(at <= p < at + (written + piece) * 64) implies after[p]
                == image0[p] by {
                assert(after[p] == before[p]);
            }
        }
        written = written + piece;
    }
}

impl IPS2RaSorter {
    /// The sorter holds a queue pair with no request in flight and a sort
    /// buffer with room for a logical block.
    pub open spec fn probe_ready(&self) -> bool {
        &&& self.qpair is Some
        &&& self.sort_buffer is Some
        &&& self.qpair.unwrap().wf()
        &&& self.qpair.unwrap().in_flight == 0
        &&& self.sort_buffer.unwrap().keys@.len() >= 64
    }

    /// Reads key `idx` of the keys that start at logical block `start_lba`,
    /// by reading the block of the key into the sort buffer.
    pub fn load_element(&mut self, start_lba: usize, idx: usize) -> (key: u64)
        requires
            old(self).probe_ready(),
            start_lba * 64 + idx < old(self).image().len(),
        ensures
            final(self).probe_ready(),
            final(self).image() == old(self).image(),
            final(self).same_state(old(self)),
            final(self).buffers == old(self).buffers,
            final(self).parallel == old(self).parallel,
            final(self).sort_buffer.unwrap().keys@.len() == old(self).sort_buffer.unwrap().keys@.len(),
            key == old(self).image()[start_lba * 64 + idx],
    {
        let mut qpair = self.qpair.take().unwrap();
        let mut buffer = self.sort_buffer.take().unwrap();
        let image_len = qpair.image.len();
        let lba = idx / crate::config::ELEMENTS_PER_LBA + start_lba;
        let offset = idx % crate::config::ELEMENTS_PER_LBA;
        read_write_elements(&mut qpair, &mut buffer, lba, offset, 1, false);
        let key = buffer.keys[offset];
        self.qpair = Some(qpair);
        self.sort_buffer = Some(buffer);
        key
    }

    /// For every separator, the number of keys not above it among the `length`
    /// sorted keys that start at logical block `start_lba`.  Every count is
    /// found by bisection, one block read for every probe.
    pub fn binary_search_indices(&mut self, separators: &[u64], start_lba: usize, length: usize) -> (counts:
        Vec<usize>)
        requires
            old(self).probe_ready(),
            start_lba * 64 + length <= old(self).image().len(),
            is_sorted(old(self).image().subrange(start_lba * 64, start_lba * 64 + length)),
        ensures
            final(self).probe_ready(),
            final(self).image() == old(self).image(),
            final(self).same_state(old(self)),
            final(self).buffers == old(self).buffers,
            final(self).parallel == old(self).parallel,
            counts@.len() == separators@.len(),
            forall|j: int|
                0 <= j < separators@.len() ==> cut_of(
                    old(self).image(),
                    start_lba * 64,
                    start_lba * 64 + length,
                    separators@[j],
                    start_lba * 64 + #[trigger] counts@[j],
                ),
    {
        let ghost image = self.image();
        let ghost base = start_lba * 64;
        let ghost range = image.subrange(base, base + length);
        let mut counts: Vec<usize> = Vec::new();
        let mut j: usize = 0;
        while j < separators.len()
            invariant
                j <= separators@.len(),
                self.probe_ready(),
                self.image() == image,
                self.same_state(old(self)),
                self.buffers == old(self).buffers,
                self.parallel == old(self).parallel,
                base == start_lba * 64,
                base + length <= image.len(),
                range == image.subrange(base, base + length),
                is_sorted(range),
                counts@.len() == j,
                forall|i: int|
                    0 <= i < j ==> cut_of(
                        image,
                        base,
                        base + length,
                        separators@[i],
                        base + #[trigger] counts@[i],
                    ),
            decreases separators@.len() - j,
        {
            let sep = separators[j];
            let mut left: usize = 0;
            let mut right: usize = length;
            while left < right
                invariant
                    left <= right <= length,
                    self.probe_ready(),
                    self.image() == image,
                    self.same_state(old(self)),
                    self.buffers == old(self).buffers,
                    self.parallel == old(self).parallel,
                    base == start_lba * 64,
                    base + length <= image.len(),
                    range == image.subrange(base, base + length),
                    is_sorted(range),
                    forall|p: int| base <= p < base + left ==> #[trigger] image[p] <= sep,
                    forall|p: int| base + right <= p < base + length ==> #[trigger] image[p] > sep,
                decreases right - left,
            {
                let half = left + (right - left) / 2;
                let loaded = self.load_element(start_lba, half);
                if loaded <= sep {
                    proof {
                        assert forall|p: int| base <= p < base + half + 1 implies #[trigger] image[p]
                            <= sep by {
                            assert(range[p - base] <= range[half as int]);
                        }
                    }
                    left = half + 1;
                } else {
                    proof {
                        assert forall|p: int| base + half <= p < base + length implies #[trigger] image[p]
                            > sep by {
                            assert(range[half as int] <= range[p - base]);
                        }
                    }
                    right = half;
                }
            }
            counts.push(left);
            j += 1;
        }
        counts
    }
}

/// Where the range of run `i` that a worker merges starts on the device: the
/// runs hold `input_length` keys each and the first starts at `start`.
pub open spec fn worker_starts(start: int, input_length: int, indices: Seq<(usize, usize)>) -> Seq<
    usize,
> {
    Seq::new(indices.len(), |i: int| (start + i * input_length + indices[i].0) as usize)
}

/// Where the range of run `i` that a worker merges ends on the device.
pub open spec fn worker_ends(start: int, input_length: int, indices: Seq<(usize, usize)>) -> Seq<
    usize,
> {
    Seq::new(indices.len(), |i: int| (start + i * input_length + indices[i].1) as usize)
}

/// Number of keys at the end of an output of `total` keys from position `out`
/// on that do not fill a logical block.
pub open spec fn tail_size(out: int, total: int) -> int {
    if (out + total) % 64 <= total {
        (out + total) % 64
    } else {
        total
    }
}

impl IPS2RaSorter {
    /// The pass of one worker over a group of runs: merges one range of every
    /// run into the output.  Run `i` holds `input_length` keys and starts that
    /// many keys behind the run before it, the first at logical block
    /// `start_lba`; of run `i` the keys from `indices[i].0` up to
    /// `indices[i].1` are merged.  The output starts `output_offset` keys into
    /// logical block `output_lba` and holds `total_length` keys.  The keys at
    /// its end that do not fill a logical block are returned as well.
    pub fn thread_merge(
        &mut self,
        indices: &Vec<(usize, usize)>,
        start_lba: usize,
        output_lba: usize,
        output_offset: usize,
        total_length: usize,
        input_length: usize,
    ) -> (remainder: Vec<u64>)
        requires
            old(self).ext_ready(),
            start_lba * 64 + indices@.len() * input_length <= old(self).image().len(),
            forall|i: int|
                0 <= i < indices@.len() ==> (#[trigger] indices@[i]).0 <= indices@[i].1
                    <= input_length,
            run_set(
                old(self).image(),
                worker_starts(start_lba * 64, input_length as int, indices@),
                worker_ends(start_lba * 64, input_length as int, indices@),
            ),
            total_length == run_total(
                old(self).image(),
                worker_starts(start_lba * 64, input_length as int, indices@),
                worker_ends(start_lba * 64, input_length as int, indices@),
            ),
            output_lba * 64 + output_offset + total_length <= old(self).image().len(),
            runs_clear_of(
                worker_starts(start_lba * 64, input_length as int, indices@),
                worker_ends(start_lba * 64, input_length as int, indices@),
                output_lba * 64 + output_offset,
                output_lba * 64 + output_offset + total_length,
            ),
        ensures
            final(self).ext_ready(),
            final(self).same_state(old(self)),
            final(self).sort_buffer == old(self).sort_buffer,
            final(self).parallel == old(self).parallel,
            final(self).buffers.unwrap()@.len() == old(self).buffers.unwrap()@.len(),
            same_outside(
                old(self).image(),
                final(self).image(),
                output_lba * 64 + output_offset,
                output_lba * 64 + output_offset + total_length,
            ),
            is_sorted(
                final(self).image().subrange(
                    output_lba * 64 + output_offset,
                    output_lba * 64 + output_offset + total_length,
                ),
            ),
            is_permutation(
                concat_parts(
                    consumed_parts(
                        old(self).image(),
                        worker_starts(start_lba * 64, input_length as int, indices@),
                        worker_ends(start_lba * 64, input_length as int, indices@),
                    ),
                ),
                final(self).image().subrange(
                    output_lba * 64 + output_offset,
                    output_lba * 64 + output_offset + total_length,
                ),
            ),
            remainder@ == final(self).image().subrange(
                output_lba * 64 + output_offset + total_length - tail_size(
                    output_lba * 64 + output_offset,
                    total_length as int,
                ),
                output_lba * 64 + output_offset + total_length,
            ),
    {
        let ghost image = self.image();
        let ghost first = start_lba * 64;
        let runs = indices.len();
        let mut starts: Vec<usize> = Vec::new();
        let mut ends: Vec<usize> = Vec::new();
        let mut base: usize = start_lba * crate::config::ELEMENTS_PER_LBA;
        let mut i: usize = 0;
        while i < runs
            invariant
                i <= runs,
                runs == indices@.len(),
                first == start_lba * 64,
                first + runs * input_length <= image.len(),
                image.len() < usize::MAX,
                base == first + i * input_length,
                forall|k: int|
                    0 <= k < indices@.len() ==> (#[trigger] indices@[k]).0 <= indices@[k].1
                        <= input_length,
                starts@.len() == i,
                ends@.len() == i,
                forall|k: int|
                    0 <= k < i ==> #[trigger] starts@[k] == worker_starts(
                        first,
                        input_length as int,
                        indices@,
                    )[k],
                forall|k: int|
                    0 <= k < i ==> #[trigger] ends@[k] == worker_ends(
                        first,
                        input_length as int,
                        indices@,
                    )[k],
            decreases runs - i,
        {
            proof {
                assert((i + 1) * input_length == i * input_length + input_length)
                    by (nonlinear_arith);
                assert((i + 1) * input_length <= runs * input_length) by (nonlinear_arith)
                    requires
                        i + 1 <= runs,
                        input_length >= 0,
                ;
                assert(indices@[i as int].0 <= indices@[i as int].1 <= input_length);
            }
            let range = indices[i];
            starts.push(base + range.0);
            ends.push(base + range.1);
            base = base + input_length;
            i += 1;
        }
        proof {
            assert(starts@ =~= worker_starts(first, input_length as int, indices@));
            assert(ends@ =~= worker_ends(first, input_length as int, indices@));
        }
        let image_len = match &self.qpair {
            Some(qpair) => qpair.image.len(),
            None => 0,
        };
        let whole = ExtTask::new(0, 0, image_len, 0, 0);
        let mut window = self.open_window(&whole);
        let ghost opened = window;
        proof {
            assert(window.keys() =~= image);
        }
        let out = output_lba * crate::config::ELEMENTS_PER_LBA + output_offset;
        merge_table(&mut window, &starts, &ends, out);
        let ghost merged = window.keys();
        let tail = if (out + total_length) % crate::config::ELEMENTS_PER_LBA <= total_length {
            (out + total_length) % crate::config::ELEMENTS_PER_LBA
        } else {
            total_length
        };
        let mut remainder: Vec<u64> = Vec::new();
        let mut k: usize = 0;
        while k < tail
            invariant
                k <= tail <= total_length,
                out + total_length <= merged.len(),
                window.inv(),
                window.keys() == merged,
                window.surroundings() == opened.surroundings(),
                remainder@ == merged.subrange(
                    out + total_length - tail,
                    out + total_length - tail + k,
                ),
            decreases tail - k,
        {
            let key = window.load(out + total_length - tail + k);
            remainder.push(key);
            proof {
                assert(remainder@ =~= merged.subrange(
                    out + total_length - tail,
                    out + total_length - tail + k + 1,
                ));
            }
            k += 1;
        }
        proof {
            crate::rolling_sort::lemma_window_result(&opened, &window);
            assert(merged =~= window.shown());
        }
        self.close_window(window);
        remainder
    }
}

} // verus!
